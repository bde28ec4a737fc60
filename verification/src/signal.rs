use crate::arena::ARENA_CAPACITY;
use crate::flags::ReactiveFlags;
use crate::flags::DIRTY;
use crate::flags::MUTABLE;
use crate::keys::NodeKey;
use crate::system::ReactiveSystem;
use crate::types::BorrowState;
use crate::types::NodeInner;
use crate::types::ReactiveNode;
use crate::types::SignalMiss;
use crate::types::SignalNode;
use vstd::prelude::*;

verus! {

impl ReactiveSystem {
    /// The node is alive and is a signal.
    pub open spec fn is_signal(&self, node: NodeKey) -> bool {
        self.nodes@.contains_key(node) && self.nodes@[node].inner is Signal
    }

    /// The borrow state of a signal.
    pub open spec fn borrow_of(&self, node: NodeKey) -> SignalNode {
        self.nodes@[node].inner->Signal_0
    }

    /// `self` is `before` with the borrow state of the signal `node` set.
    pub open spec fn borrow_set(
        &self,
        before: &ReactiveSystem,
        node: NodeKey,
        state: BorrowState,
    ) -> bool {
        &&& self.same_but_nodes(before)
        &&& self.nodes@ =~= before.nodes@.insert(
            node,
            (ReactiveNode {
                inner: NodeInner::Signal(SignalNode { borrow_state: state }),
                ..before.nodes@[node]
            }),
        )
    }

    /// Creates a signal under the current scope. Its value stays with the
    /// caller, under the key returned.
    pub fn signal_new(&mut self) -> (r: NodeKey)
        requires
            old(self).wf(),
            old(self).nodes@.contains_key(old(self).current_scope),
            old(self).nodes@.len() < ARENA_CAPACITY,
        ensures
            final(self).wf(),
            final(self).grown_by(old(self), r, old(self).current_scope),
            final(self).nodes@[r].inner == NodeInner::Signal(
                SignalNode { borrow_state: BorrowState::Unused },
            ),
            final(self).nodes@[r].flags.0 == MUTABLE,
    {
        proof {
            crate::flags::lemma_patterns();
        }
        let parent = self.current_scope;
        self.add_node(NodeInner::Signal(SignalNode::new()), ReactiveFlags::mutable(), parent)
    }

    /// The engine's share of a signal. A key whose node was destroyed, and a
    /// key of a node that is alive and no signal, are told apart.
    pub fn signal(&self, node: NodeKey) -> (r: Result<&SignalNode, SignalMiss>)
        ensures
            r == (if self.is_signal(node) {
                Ok::<&SignalNode, SignalMiss>(&self.borrow_of(node))
            } else if self.nodes@.contains_key(node) {
                Err::<&SignalNode, SignalMiss>(SignalMiss::OtherKind)
            } else {
                Err::<&SignalNode, SignalMiss>(SignalMiss::Destroyed)
            }),
    {
        match self.nodes.get(node) {
            Some(n) => match &n.inner {
                NodeInner::Signal(s) => Ok(s),
                _ => Err(SignalMiss::OtherKind),
            },
            None => Err(SignalMiss::Destroyed),
        }
    }

    fn set_borrow(&mut self, node: NodeKey, state: BorrowState)
        requires
            old(self).wf(),
            old(self).is_signal(node),
        ensures
            final(self).wf(),
            final(self).borrow_set(old(self), node, state),
    {
        let n = self.nodes.slot_mut(node);
        n.inner = NodeInner::Signal(SignalNode { borrow_state: state });
        proof {
            old(self).lemma_node_facts(None);
            self.lemma_keep_inv(old(self), None);
        }
    }

    /// Takes a read guard on the signal's value.
    pub fn signal_borrow_read_check(&mut self, node: NodeKey)
        requires
            old(self).wf(),
            old(self).is_signal(node),
            old(self).borrow_of(node).can_read(),
        ensures
            final(self).wf(),
            final(self).borrow_set(
                old(self),
                node,
                BorrowState::Reading((old(self).borrow_of(node).readers() + 1) as usize),
            ),
    {
        let mut s = match self.signal(node) {
            Ok(s) => *s,
            Err(_) => SignalNode::new(),
        };
        s.borrow_read_check();
        self.set_borrow(node, s.borrow_state);
    }

    /// Takes the write guard on the signal's value.
    pub fn signal_borrow_write_check(&mut self, node: NodeKey)
        requires
            old(self).wf(),
            old(self).is_signal(node),
            old(self).borrow_of(node).can_write(),
        ensures
            final(self).wf(),
            final(self).borrow_set(old(self), node, BorrowState::Writing),
    {
        let mut s = match self.signal(node) {
            Ok(s) => *s,
            Err(_) => SignalNode::new(),
        };
        s.borrow_write_check();
        self.set_borrow(node, s.borrow_state);
    }

    /// Gives a read guard on the signal's value back.
    pub fn signal_release_read(&mut self, node: NodeKey)
        requires
            old(self).wf(),
            old(self).is_signal(node),
            old(self).borrow_of(node).readers() >= 1,
        ensures
            final(self).wf(),
            final(self).borrow_set(
                old(self),
                node,
                if old(self).borrow_of(node).readers() == 1 {
                    BorrowState::Unused
                } else {
                    BorrowState::Reading((old(self).borrow_of(node).readers() - 1) as usize)
                },
            ),
    {
        let mut s = match self.signal(node) {
            Ok(s) => *s,
            Err(_) => SignalNode::new(),
        };
        s.release_read();
        self.set_borrow(node, s.borrow_state);
    }

    /// Gives the write guard on the signal's value back.
    pub fn signal_release_write(&mut self, node: NodeKey)
        requires
            old(self).wf(),
            old(self).is_signal(node),
            old(self).borrow_of(node).borrow_state == BorrowState::Writing,
        ensures
            final(self).wf(),
            final(self).borrow_set(old(self), node, BorrowState::Unused),
    {
        let mut s = match self.signal(node) {
            Ok(s) => *s,
            Err(_) => SignalNode::new(),
        };
        s.release_write();
        self.set_borrow(node, s.borrow_state);
    }

    /// Settles a signal after a read: it holds authoritative state and
    /// nothing else.
    pub fn update_signal(&mut self, s: NodeKey)
        requires
            old(self).wf(),
            old(self).nodes@.contains_key(s),
        ensures
            final(self).wf(),
            final(self).same_but_nodes(old(self)),
            final(self).nodes@ =~= old(self).nodes@.insert(
                s,
                (ReactiveNode { flags: ReactiveFlags(MUTABLE), ..old(self).nodes@[s] }),
            ),
    {
        proof {
            crate::flags::lemma_patterns();
        }
        self.set_flags(s, ReactiveFlags::mutable());
    }

    /// `self` is what a write to the signal `node` makes of `before`: the
    /// signal is mutable and dirty, and, where it has subscribers, what
    /// depends on it is marked.
    pub open spec fn written(&self, before: &ReactiveSystem, node: NodeKey) -> bool {
        match before.nodes@[node].subs {
            Some(subs) => exists|mid: ReactiveSystem|
                mid.flags_set(before, node, ReactiveFlags(MUTABLE | DIRTY))
                    && #[trigger] self.propagated(&mid, subs),
            None => self.flags_set(before, node, ReactiveFlags(MUTABLE | DIRTY)),
        }
    }

    /// Marks a signal as written, and marks what depends on it. Returns
    /// whether the queue is to be flushed now: the signal has subscribers and
    /// no batch is open.
    pub fn signal_notify(&mut self, node: NodeKey) -> (r: bool)
        requires
            old(self).wf(),
            old(self).nodes@.contains_key(node),
        ensures
            final(self).wf(),
            final(self).marked_from(old(self)),
            final(self).written(old(self), node),
            r == (old(self).nodes@[node].subs is Some && old(self).batch_depth == 0),
            final(self).nodes@[node].flags.0 == MUTABLE | DIRTY,
    {
        proof {
            crate::flags::lemma_patterns();
            crate::flags::lemma_mark_dirty(MUTABLE);
        }
        self.set_flags(node, ReactiveFlags::mutable().union(ReactiveFlags::dirty()));
        let ghost mid = *self;
        let subs = match self.nodes.get(node) {
            Some(n) => n.subs,
            None => None,
        };
        proof {
            mid.lemma_flags_marked(old(self), node, ReactiveFlags(MUTABLE | DIRTY));
        }
        match subs {
            Some(subs) => {
                proof {
                    mid.lemma_sub_head(node);
                    mid.lemma_sub_place(subs);
                }
                self.propagate(subs);
                proof {
                    self.lemma_marked_trans(&mid, old(self));
                    assert(mid.nodes@.contains_key(node));
                    assert(self.propagated(&mid, subs));
                }
                self.batch_depth == 0
            },
            None => false,
        }
    }
}

} // verus!
