use vstd::prelude::*;
use vstd::std_specs::cmp::PartialEqSpec;

verus! {

/// What the engine needs of the value holder of a computed node.
pub trait ComputedOps<T> {
    /// A value is held.
    spec fn holds(&self) -> bool;

    /// Takes the value that the getter just returned.
    fn update(&mut self, value: T)
        ensures
            final(self).holds(),
    ;

    /// Whether the value taken last counts as a change.
    fn dirty(&self) -> (r: bool)
        ensures
            r ==> self.holds(),
    ;
}

/// The value holder of a plain computed node: every new value counts as a
/// change.
pub struct ComputedNodeInner<T> {
    pub value: Option<T>,
}

impl<T> ComputedNodeInner<T> {
    /// A holder without a value.
    pub fn new() -> (r: ComputedNodeInner<T>)
        ensures
            r.value is None,
    {
        ComputedNodeInner { value: None }
    }

    /// The value held.
    pub fn value(&self) -> (r: &T)
        requires
            self.value is Some,
        ensures
            *r == self.value->0,
    {
        match &self.value {
            Some(v) => v,
            None => vstd::pervasive::unreached(),
        }
    }
}

impl<T> ComputedOps<T> for ComputedNodeInner<T> {
    open spec fn holds(&self) -> bool {
        self.value is Some
    }

    fn update(&mut self, value: T)
        ensures
            final(self).value == Some(value),
    {
        self.value = Some(value);
    }

    fn dirty(&self) -> (r: bool)
        ensures
            r == (self.value is Some),
    {
        self.value.is_some()
    }
}

/// The value holder of a memo: it keeps the value before the last one, and a
/// new value counts as a change only where it differs from that.
pub struct MemoNodeInner<T> {
    pub prev: Option<T>,
    pub curr: Option<T>,
}

impl<T> MemoNodeInner<T> {
    /// A holder without a value.
    pub fn new() -> (r: MemoNodeInner<T>)
        ensures
            r.prev is None,
            r.curr is None,
    {
        MemoNodeInner { prev: None, curr: None }
    }

    /// The value taken last.
    pub fn value(&self) -> (r: &T)
        requires
            self.curr is Some || self.prev is Some,
        ensures
            *r == (if self.curr is Some {
                self.curr->0
            } else {
                self.prev->0
            }),
    {
        match &self.curr {
            Some(v) => v,
            None => match &self.prev {
                Some(v) => v,
                None => vstd::pervasive::unreached(),
            },
        }
    }
}

impl<T: PartialEq> ComputedOps<T> for MemoNodeInner<T> {
    open spec fn holds(&self) -> bool {
        self.curr is Some
    }

    fn update(&mut self, value: T)
        ensures
            final(self).curr == Some(value),
            final(self).prev == (if old(self).curr is Some {
                old(self).curr
            } else {
                old(self).prev
            }),
    {
        let last = self.curr.take();
        if last.is_some() {
            self.prev = last;
        }
        self.curr = Some(value);
    }

    fn dirty(&self) -> (r: bool)
        ensures
            !(self.prev is Some && self.curr is Some) ==> !r,
            T::obeys_eq_spec() && self.prev is Some && self.curr is Some ==> r
                == !self.prev->0.eq_spec(&self.curr->0),
    {
        match (&self.prev, &self.curr) {
            (Some(p), Some(c)) => p != c,
            _ => false,
        }
    }
}

} // verus!
