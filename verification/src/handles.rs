use crate::keys::NodeKey;
use core::marker::PhantomData;
use vstd::prelude::*;

verus! {

/// The handle of a scope.
#[derive(Clone, Copy, Debug)]
pub struct Scope {
    pub node: NodeKey,
}

impl Scope {
    /// The handle of the scope under `node`.
    pub fn new(node: NodeKey) -> (r: Scope)
        ensures
            r.node == node,
    {
        Scope { node }
    }
}

/// The handle of an effect.
#[derive(Clone, Copy, Debug)]
pub struct Effect {
    pub node: NodeKey,
}

impl Effect {
    /// The handle of the effect under `node`.
    pub fn new(node: NodeKey) -> (r: Effect)
        ensures
            r.node == node,
    {
        Effect { node }
    }
}

/// The handle of a signal that holds a `T`.
pub struct Signal<T> {
    pub node: NodeKey,
    pub marker: PhantomData<T>,
}

impl<T> Signal<T> {
    /// The handle of the signal under `node`.
    pub fn new(node: NodeKey) -> (r: Signal<T>)
        ensures
            r.node == node,
    {
        Signal { node, marker: PhantomData }
    }
}

impl<T> Clone for Signal<T> {
    fn clone(&self) -> (r: Signal<T>)
        ensures
            r.node == self.node,
    {
        Signal { node: self.node, marker: PhantomData }
    }
}

impl<T> Copy for Signal<T> {

}

/// The handle of a computed node that yields a `T`.
pub struct Computed<T> {
    pub node: NodeKey,
    pub marker: PhantomData<T>,
}

impl<T> Computed<T> {
    /// The handle of the computed node under `node`.
    pub fn new(node: NodeKey) -> (r: Computed<T>)
        ensures
            r.node == node,
    {
        Computed { node, marker: PhantomData }
    }
}

impl<T> Clone for Computed<T> {
    fn clone(&self) -> (r: Computed<T>)
        ensures
            r.node == self.node,
    {
        Computed { node: self.node, marker: PhantomData }
    }
}

impl<T> Copy for Computed<T> {

}

} // verus!
