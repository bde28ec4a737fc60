use crate::arena::ARENA_CAPACITY;
use crate::flags::ReactiveFlags;
use crate::flags::MUTABLE;
use crate::flags::RECURSED;
use crate::flags::RECURSED_CHECK;
use crate::keys::NodeKey;
use crate::steps::UpdateStep;
use crate::system::ReactiveSystem;
use crate::types::NodeInner;
use crate::types::ReactiveNode;
use vstd::prelude::*;

verus! {

impl ReactiveSystem {
    /// Creates a memoizing computed node under the current scope. Its getter
    /// and its values stay with the caller, under the key returned.
    pub fn computed_memo(&mut self) -> (r: NodeKey)
        requires
            old(self).wf(),
            old(self).nodes@.contains_key(old(self).current_scope),
            old(self).nodes@.len() < ARENA_CAPACITY,
        ensures
            final(self).wf(),
            final(self).grown_by(old(self), r, old(self).current_scope),
            final(self).nodes@[r].inner is Computed,
            final(self).nodes@[r].flags.0 == 0,
    {
        proof {
            crate::flags::lemma_empty_flags();
        }
        let parent = self.current_scope;
        self.add_node(NodeInner::Computed, ReactiveFlags::none(), parent)
    }

    /// Creates a plain computed node under the current scope. Its getter and
    /// its value stay with the caller, under the key returned.
    pub fn computed_new(&mut self) -> (r: NodeKey)
        requires
            old(self).wf(),
            old(self).nodes@.contains_key(old(self).current_scope),
            old(self).nodes@.len() < ARENA_CAPACITY,
        ensures
            final(self).wf(),
            final(self).grown_by(old(self), r, old(self).current_scope),
            final(self).nodes@[r].inner is Computed,
            final(self).nodes@[r].flags.0 == 0,
    {
        proof {
            crate::flags::lemma_empty_flags();
        }
        let parent = self.current_scope;
        self.add_node(NodeInner::Computed, ReactiveFlags::none(), parent)
    }

    /// `self` is `before` with a tracking pass of `node` begun: a new cycle,
    /// the node mutable and executing, and active.
    pub open spec fn pass_begun(&self, before: &ReactiveSystem, node: NodeKey, flags: u8) -> bool {
        &&& *self == (ReactiveSystem {
            cycle: (before.cycle + 1) as usize,
            active_sub: Some(node),
            nodes: self.nodes,
            ..*before
        })
        &&& self.nodes@ =~= before.nodes@.insert(
            node,
            (ReactiveNode { flags: ReactiveFlags(flags), ..before.nodes@[node] }),
        )
    }

    /// Begins the evaluation of a computed node, without touching the cursor
    /// of its dependencies: opens a new cycle, marks the node as mutable and
    /// executing, and makes it the active subscriber. Returns the active
    /// subscriber that was.
    pub fn update_computed_inner(&mut self, node: NodeKey) -> (r: Option<NodeKey>)
        requires
            old(self).wf(),
            old(self).nodes@.contains_key(node),
            old(self).cycle < usize::MAX,
        ensures
            final(self).wf(),
            r == old(self).active_sub,
            final(self).pass_begun(old(self), node, MUTABLE | RECURSED_CHECK),
    {
        proof {
            crate::flags::lemma_patterns();
        }
        self.cycle = self.cycle + 1;
        proof {
            self.lemma_keep_wf(old(self));
        }
        self.set_flags(node, ReactiveFlags::mutable().union(ReactiveFlags::recursed_check()));
        self.set_active_sub(Some(node))
    }

    /// `self` is `before` with the cursor of `node` unset.
    pub open spec fn cursor_unset(&self, before: &ReactiveSystem, node: NodeKey) -> bool {
        &&& self.same_but_nodes(before)
        &&& self.nodes@ =~= before.nodes@.insert(
            node,
            (ReactiveNode { deps_tail: None, ..before.nodes@[node] }),
        )
    }

    /// `self` is `before` with the re-evaluation of `node` begun: the cursor
    /// of the node unset, and then a tracking pass begun that leaves the node
    /// mutable and executing.
    pub open spec fn pass_restarted(&self, before: &ReactiveSystem, node: NodeKey) -> bool {
        exists|mid: ReactiveSystem|
            mid.cursor_unset(before, node) && #[trigger] self.pass_begun(
                &mid,
                node,
                MUTABLE | RECURSED_CHECK,
            )
    }

    /// Begins the re-evaluation of a computed node: unsets the cursor of its
    /// dependencies, so that the pass rebuilds the list from its head, and
    /// begins the evaluation. Returns the active subscriber that was.
    pub fn update_computed(&mut self, node: NodeKey) -> (r: Option<NodeKey>)
        requires
            old(self).wf(),
            old(self).nodes@.contains_key(node),
            old(self).cycle < usize::MAX,
        ensures
            final(self).wf(),
            r == old(self).active_sub,
            final(self).pass_restarted(old(self), node),
    {
        let n = self.nodes.slot_mut(node);
        n.deps_tail = None;
        proof {
            self.lemma_keep_inv_nodes(old(self), None);
        }
        let ghost mid = *self;
        assert(mid.cursor_unset(old(self), node));
        let r = self.update_computed_inner(node);
        assert(self.pass_begun(&mid, node, MUTABLE | RECURSED_CHECK));
        r
    }

    /// `self` is `before` with the pass of `node` ended: the active subscriber
    /// is `prev_sub`, and the node, if it is alive, is no longer executing.
    pub open spec fn pass_ended(
        &self,
        before: &ReactiveSystem,
        node: NodeKey,
        prev_sub: Option<NodeKey>,
    ) -> bool {
        &&& *self == (ReactiveSystem { active_sub: prev_sub, nodes: self.nodes, ..*before })
        &&& if before.nodes@.contains_key(node) {
            self.nodes@ =~= before.nodes@.insert(
                node,
                (ReactiveNode {
                    flags: before.nodes@[node].flags.spec_without(ReactiveFlags(RECURSED_CHECK)),
                    ..before.nodes@[node]
                }),
            )
        } else {
            self.nodes == before.nodes
        }
    }

    /// `self` is what `end_update` makes of `before`: the pass of `node` is
    /// ended, and then the dependencies behind its cursor are let go.
    pub open spec fn update_ended(
        &self,
        before: &ReactiveSystem,
        node: NodeKey,
        prev_sub: Option<NodeKey>,
    ) -> bool {
        exists|mid: ReactiveSystem|
            mid.pass_ended(before, node, prev_sub) && #[trigger] self.deps_purged(
                &mid,
                node,
                false,
            )
    }

    /// Ends the evaluation of a computed node, after its getter ran: the node
    /// is no longer executing, the active subscriber is put back, and the
    /// dependencies that the pass did not touch are let go. A node that was
    /// disposed of meanwhile is left alone. A sheltered node outlives the
    /// call, and is mutable still if it was.
    pub fn end_update(&mut self, node: NodeKey, prev_sub: Option<NodeKey>)
        requires
            old(self).wf(),
        ensures
            final(self).wf(),
            final(self).active_sub == prev_sub,
            final(self).shrunk(&old(self).with_active(prev_sub)),
            final(self).nodes@.contains_key(node) ==> final(self).next_tracked(node) is None,
            final(self).nodes@.contains_key(node) ==> !final(self).nodes@[node].flags.has(
                RECURSED_CHECK,
            ),
            final(self).update_ended(old(self), node, prev_sub),
            old(self).sheltered(node) ==> final(self).nodes@.contains_key(node),
            old(self).sheltered(node) && old(self).nodes@[node].flags.has(MUTABLE)
                ==> final(self).nodes@[node].flags.has(MUTABLE),
    {
        let _ = self.set_active_sub(prev_sub);
        let flags = match self.nodes.get(node) {
            Some(n) => n.flags,
            None => {
                let ghost same = *self;
                self.purge_deps(node, false);
                proof {
                    assert(same.pass_ended(old(self), node, prev_sub));
                    assert(self.deps_purged(&same, node, false));
                }
                return ;
            },
        };
        proof {
            assert(self.node_wf(node, None));
            crate::flags::lemma_clear_keeps(flags.0, RECURSED_CHECK);
        }
        let mut cleared = flags;
        cleared.remove(ReactiveFlags::recursed_check());
        self.set_flags(node, cleared);
        let ghost mid = *self;
        proof {
            crate::flags::lemma_demoted(0, 0, flags.0, RECURSED_CHECK);
        }
        assert(mid.shrunk(&old(self).with_active(prev_sub)));
        assert(mid.pass_ended(old(self), node, prev_sub));
        self.purge_deps(node, false);
        proof {
            self.lemma_shrunk_trans(&mid, &old(self).with_active(prev_sub));
            if self.nodes@.contains_key(node) {
                assert(mid.nodes@.contains_key(node));
                crate::flags::lemma_demoted(self.nodes@[node].flags.0, cleared.0, flags.0, 0);
            }
            assert(self.deps_purged(&mid, node, false));
            if old(self).sheltered(node) {
                mid.lemma_sheltered_same(old(self), node);
                self.lemma_sheltered_kept(&mid, node, None);
                crate::flags::lemma_patterns();
            }
        }
    }

    /// Brings a node's value up to date, as far as that can be done here. A
    /// node that tracks dependencies computes its value: its evaluation is
    /// begun, and the caller runs the getter and ends the update. Any other
    /// node holds its value, and is settled at once. Only the first opens a
    /// cycle, so only there the cycle counter must have room.
    pub fn update(&mut self, node: NodeKey) -> (r: UpdateStep)
        requires
            old(self).wf(),
            old(self).nodes@.contains_key(node),
            old(self).nodes@[node].deps_tail is Some ==> old(self).cycle < usize::MAX,
        ensures
            final(self).wf(),
            match r {
                UpdateStep::Compute(prev) => {
                    &&& old(self).nodes@[node].deps_tail is Some
                    &&& prev == old(self).active_sub
                    &&& final(self).pass_restarted(old(self), node)
                },
                UpdateStep::Settled => {
                    &&& old(self).nodes@[node].deps_tail is None
                    &&& final(self).same_but_nodes(old(self))
                    &&& final(self).nodes@ =~= old(self).nodes@.insert(
                        node,
                        (ReactiveNode { flags: ReactiveFlags(MUTABLE), ..old(self).nodes@[node] }),
                    )
                },
            },
    {
        let tail = match self.nodes.get(node) {
            Some(n) => n.deps_tail,
            None => None,
        };
        if tail.is_some() {
            UpdateStep::Compute(self.update_computed(node))
        } else {
            self.update_signal(node);
            UpdateStep::Settled
        }
    }
}

} // verus!
