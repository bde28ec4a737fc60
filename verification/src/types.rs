use crate::flags::ReactiveFlags;
use crate::keys::LinkKey;
use crate::keys::NodeKey;
use vstd::prelude::*;

verus! {

/// How a signal's value is borrowed at the moment.
#[derive(Clone, Copy, Debug, PartialEq, Eq, Structural)]
pub enum BorrowState {
    /// No guard is alive.
    Unused,
    /// That many read guards are alive.
    Reading(usize),
    /// One write guard is alive.
    Writing,
}

/// Why a key gave no signal.
#[derive(Clone, Copy, Debug, PartialEq, Eq, Structural)]
pub enum SignalMiss {
    /// The node was destroyed.
    Destroyed,
    /// The node is alive, and is no signal.
    OtherKind,
}

/// The engine's share of a signal: the borrow state of its value.
#[derive(Clone, Copy, Debug)]
pub struct SignalNode {
    pub borrow_state: BorrowState,
}

impl SignalNode {
    /// A signal that nobody borrows.
    pub fn new() -> (r: SignalNode)
        ensures
            r.borrow_state == BorrowState::Unused,
    {
        SignalNode { borrow_state: BorrowState::Unused }
    }

    /// A read guard may be taken.
    pub open spec fn can_read(&self) -> bool {
        match self.borrow_state {
            BorrowState::Unused => true,
            BorrowState::Reading(n) => n < usize::MAX,
            BorrowState::Writing => false,
        }
    }

    /// A write guard may be taken.
    pub open spec fn can_write(&self) -> bool {
        self.borrow_state == BorrowState::Unused
    }

    /// Number of read guards alive.
    pub open spec fn readers(&self) -> nat {
        match self.borrow_state {
            BorrowState::Reading(n) => n as nat,
            _ => 0,
        }
    }

    /// Tells whether a read guard may be taken, without taking it.
    pub fn readable(&self) -> (r: bool)
        ensures
            r == self.can_read(),
    {
        match self.borrow_state {
            BorrowState::Unused => true,
            BorrowState::Reading(n) => n < usize::MAX,
            BorrowState::Writing => false,
        }
    }

    /// Tells whether a write guard may be taken, without taking it.
    pub fn writable(&self) -> (r: bool)
        ensures
            r == self.can_write(),
    {
        match self.borrow_state {
            BorrowState::Unused => true,
            _ => false,
        }
    }

    /// Takes a read guard.
    pub fn borrow_read_check(&mut self)
        requires
            old(self).can_read(),
        ensures
            final(self).borrow_state == BorrowState::Reading((old(self).readers() + 1) as usize),
    {
        match self.borrow_state {
            BorrowState::Unused => {
                self.borrow_state = BorrowState::Reading(1);
            },
            BorrowState::Reading(count) => {
                self.borrow_state = BorrowState::Reading(count + 1);
            },
            BorrowState::Writing => {},
        }
    }

    /// Takes the write guard.
    pub fn borrow_write_check(&mut self)
        requires
            old(self).can_write(),
        ensures
            final(self).borrow_state == BorrowState::Writing,
    {
        self.borrow_state = BorrowState::Writing;
    }

    /// Gives a read guard back.
    pub fn release_read(&mut self)
        requires
            old(self).readers() >= 1,
        ensures
            final(self).borrow_state == (if old(self).readers() == 1 {
                BorrowState::Unused
            } else {
                BorrowState::Reading((old(self).readers() - 1) as usize)
            }),
    {
        match self.borrow_state {
            BorrowState::Reading(count) => {
                if count > 1 {
                    self.borrow_state = BorrowState::Reading(count - 1);
                } else {
                    self.borrow_state = BorrowState::Unused;
                }
            },
            _ => {},
        }
    }

    /// Gives the write guard back.
    pub fn release_write(&mut self)
        requires
            old(self).borrow_state == BorrowState::Writing,
        ensures
            final(self).borrow_state == BorrowState::Unused,
    {
        self.borrow_state = BorrowState::Unused;
    }
}

/// What kind of node this is, with the engine's share of its payload. The
/// values and callables themselves stay with the embedder, keyed by the node.
#[derive(Clone, Copy, Debug)]
pub enum NodeInner {
    Effect,
    Computed,
    Signal(SignalNode),
    /// A plain scope: no value, no side effect.
    Scope,
}

impl NodeInner {
    /// Effects and plain scopes own cleanups and children to tear down.
    pub open spec fn is_scope_like(&self) -> bool {
        self is Effect || self is Scope
    }

    /// Whether this is an effect or a plain scope.
    pub fn scope_like(&self) -> (r: bool)
        ensures
            r == self.is_scope_like(),
    {
        match self {
            NodeInner::Effect => true,
            NodeInner::Scope => true,
            _ => false,
        }
    }
}

/// One context binding of a scope: a type's identity and the handle of the
/// value provided for it.
#[derive(Clone, Copy, Debug)]
pub struct ContextEntry {
    pub type_id: u64,
    pub value: u64,
}

/// A node of the reactive graph.
pub struct ReactiveNode {
    pub inner: NodeInner,
    /// Head of the list of links to what this node depends on.
    pub deps: Option<LinkKey>,
    /// The dependency attached or refreshed last in the running pass.
    pub deps_tail: Option<LinkKey>,
    /// Head of the list of links to this node's subscribers.
    pub subs: Option<LinkKey>,
    /// Tail of that list.
    pub subs_tail: Option<LinkKey>,
    pub parent: Option<NodeKey>,
    /// Head of the list of children, newest first.
    pub child: Option<NodeKey>,
    /// Next sibling in the parent's list of children.
    pub next: Option<NodeKey>,
    /// Previous sibling in the parent's list of children.
    pub prev: Option<NodeKey>,
    pub flags: ReactiveFlags,
    /// Cleanup callbacks registered on this node, oldest first, by handle.
    pub cleanups: Vec<u64>,
    /// Context bindings of this node, one per type at most.
    pub contexts: Vec<ContextEntry>,
    /// The dependency links, head first.
    pub dep_list: Ghost<Seq<LinkKey>>,
    /// The subscriber links, head first.
    pub sub_list: Ghost<Seq<LinkKey>>,
    /// The children, head first.
    pub child_list: Ghost<Seq<NodeKey>>,
    /// Distance from the root of the scope tree.
    pub depth: Ghost<nat>,
}

impl ReactiveNode {
    /// A node with no links, no children, no cleanups and no contexts.
    pub fn new(inner: NodeInner, flags: ReactiveFlags, parent: Option<NodeKey>) -> (r:
        ReactiveNode)
        ensures
            r.inner == inner,
            r.flags == flags,
            r.parent == parent,
            r.deps is None,
            r.deps_tail is None,
            r.subs is None,
            r.subs_tail is None,
            r.child is None,
            r.next is None,
            r.prev is None,
            r.cleanups@ == Seq::<u64>::empty(),
            r.contexts@ == Seq::<ContextEntry>::empty(),
            r.dep_list@ == Seq::<LinkKey>::empty(),
            r.sub_list@ == Seq::<LinkKey>::empty(),
            r.child_list@ == Seq::<NodeKey>::empty(),
            r.depth@ == 0,
    {
        ReactiveNode {
            inner,
            deps: None,
            deps_tail: None,
            subs: None,
            subs_tail: None,
            parent,
            child: None,
            next: None,
            prev: None,
            flags,
            cleanups: Vec::new(),
            contexts: Vec::new(),
            dep_list: Ghost(Seq::empty()),
            sub_list: Ghost(Seq::empty()),
            child_list: Ghost(Seq::empty()),
            depth: Ghost(0),
        }
    }
}

/// A dependency edge: `sub` reads `dep`. It sits in `dep`'s list of
/// subscribers and in `sub`'s list of dependencies at once.
#[derive(Clone, Copy, Debug)]
pub struct Link {
    /// The tracking cycle in which the link was attached or refreshed last.
    pub version: usize,
    pub dep: NodeKey,
    pub sub: NodeKey,
    pub prev_sub: Option<LinkKey>,
    pub next_sub: Option<LinkKey>,
    pub prev_dep: Option<LinkKey>,
    pub next_dep: Option<LinkKey>,
}

} // verus!
