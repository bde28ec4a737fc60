use crate::arena::ARENA_CAPACITY;
use crate::flags::ReactiveFlags;
use crate::flags::DIRTY;
use crate::flags::PENDING;
use crate::flags::RECURSED_CHECK;
use crate::flags::WATCHING;
use crate::keys::NodeKey;
use crate::steps::Frame;
use crate::steps::RunEvent;
use crate::steps::RunStep;
use crate::system::ReactiveSystem;
use crate::types::NodeInner;
use vstd::prelude::*;

verus! {

impl ReactiveSystem {
    /// `self` is `before` with the effect `node` created, which gave `mid`,
    /// then entered, and booked as read by the subscriber that was active.
    pub open spec fn effect_made(
        &self,
        before: &ReactiveSystem,
        mid: &ReactiveSystem,
        node: NodeKey,
    ) -> bool {
        let entered = mid.with_active(Some(node));
        let left = self.with_scope(before.current_scope);
        &&& mid.grown_by(before, node, before.current_scope)
        &&& match before.active_sub {
            Some(p) => if mid.nodes@.contains_key(p) {
                left.link_done(&entered, node, p, 0)
            } else {
                left == entered
            },
            None => left == entered,
        }
    }

    /// Creates an effect under the current scope and enters it: the effect is
    /// watching and executing, it is the active subscriber and the current
    /// scope, and the subscriber that was active, if it is alive, is booked as
    /// reading it. The caller runs the effect's body and then ends the effect
    /// with the frame returned.
    pub fn new_effect(&mut self) -> (r: (NodeKey, Frame))
        requires
            old(self).wf(),
            old(self).nodes@.contains_key(old(self).current_scope),
            old(self).nodes@.len() < ARENA_CAPACITY,
            old(self).links@.len() < ARENA_CAPACITY,
        ensures
            final(self).wf(),
            r.1.prev_sub == old(self).active_sub,
            r.1.prev_scope == old(self).current_scope,
            final(self).active_sub == Some(r.0),
            final(self).current_scope == r.0,
            !old(self).nodes@.contains_key(r.0),
            final(self).nodes@.dom() =~= old(self).nodes@.dom().insert(r.0),
            final(self).nodes@[r.0].inner is Effect,
            final(self).nodes@[r.0].flags.0 == WATCHING | RECURSED_CHECK,
            final(self).nodes@[r.0].parent == Some(old(self).current_scope),
            exists|mid: ReactiveSystem| #[trigger] final(self).effect_made(old(self), &mid, r.0),
    {
        proof {
            crate::flags::lemma_patterns();
        }
        let parent = self.current_scope;
        let node = self.add_node(
            NodeInner::Effect,
            ReactiveFlags::watching().union(ReactiveFlags::recursed_check()),
            parent,
        );
        let ghost mid = *self;
        let prev_sub = self.set_active_sub(Some(node));
        let ghost entered = *self;
        if let Some(p) = prev_sub {
            if self.nodes.contains_key(p) {
                self.link(node, p, 0);
            }
        }
        let prev_scope = self.current_scope;
        let ghost linked = *self;
        self.set_current_scope(node);
        proof {
            assert(self.with_scope(old(self).current_scope) == linked);
            assert(entered == mid.with_active(Some(node)));
            assert(mid.nodes@.contains_key(node));
            match prev_sub {
                Some(p) => {
                    if entered.nodes@.contains_key(p) {
                        linked.lemma_link_done_keeps(&entered, node, p, 0);
                    }
                },
                None => {},
            }
            assert(linked.nodes@.contains_key(node));
            assert(self.nodes@.dom() =~= old(self).nodes@.dom().insert(node));
            assert(self.effect_made(old(self), &mid, node));
        }
        (node, Frame { prev_sub, prev_scope })
    }

    /// `self` is `before` with both the active subscriber and the current
    /// scope put back, and `node`, if it is alive, no longer executing.
    pub open spec fn body_left(&self, before: &ReactiveSystem, node: NodeKey, frame: Frame) -> bool {
        &&& *self == (ReactiveSystem {
            active_sub: frame.prev_sub,
            current_scope: frame.prev_scope,
            nodes: self.nodes,
            ..*before
        })
        &&& if before.nodes@.contains_key(node) {
            self.nodes@ =~= before.nodes@.insert(
                node,
                (crate::types::ReactiveNode {
                    flags: before.nodes@[node].flags.spec_without(ReactiveFlags(RECURSED_CHECK)),
                    ..before.nodes@[node]
                }),
            )
        } else {
            self.nodes == before.nodes
        }
    }

    /// Leaves an effect that was entered on its creation, after its body ran:
    /// puts back what was current, and marks the effect as no longer
    /// executing. An effect that was disposed of meanwhile is left alone.
    pub fn end_effect(&mut self, node: NodeKey, frame: Frame)
        requires
            old(self).wf(),
        ensures
            final(self).wf(),
            final(self).body_left(old(self), node, frame),
    {
        self.set_current_scope(frame.prev_scope);
        let _ = self.set_active_sub(frame.prev_sub);
        let flags = match self.nodes.get(node) {
            Some(n) => n.flags,
            None => {
                return ;
            },
        };
        proof {
            assert(self.node_wf(node, None));
            crate::flags::lemma_clear_keeps(flags.0, RECURSED_CHECK);
        }
        let mut cleared = flags;
        cleared.remove(ReactiveFlags::recursed_check());
        self.set_flags(node, cleared);
    }

    /// `self` is `before` with the scope `node` created, which gave `mid`,
    /// then entered, and booked as read by the subscriber that was active.
    pub open spec fn scope_made(
        &self,
        before: &ReactiveSystem,
        mid: &ReactiveSystem,
        node: NodeKey,
    ) -> bool {
        let entered = mid.with_active(Some(node));
        let left = self.with_scope(before.current_scope);
        &&& mid.grown_by(before, node, before.current_scope)
        &&& match before.active_sub {
            Some(p) => if mid.nodes@.contains_key(p) {
                left.link_done(&entered, node, p, 0)
            } else {
                left == entered
            },
            None => left == entered,
        }
    }

    /// Creates a scope under the current scope and enters it: it is the
    /// current scope and the active subscriber, and the subscriber that was
    /// active, if it is alive, is booked as reading it, so that reads made in
    /// the scope reach that subscriber. The caller runs the scope's body and
    /// then leaves the scope with the frame returned.
    pub fn new_scope(&mut self) -> (r: (NodeKey, Frame))
        requires
            old(self).wf(),
            old(self).nodes@.contains_key(old(self).current_scope),
            old(self).nodes@.len() < ARENA_CAPACITY,
            old(self).links@.len() < ARENA_CAPACITY,
        ensures
            final(self).wf(),
            r.1.prev_sub == old(self).active_sub,
            r.1.prev_scope == old(self).current_scope,
            final(self).active_sub == Some(r.0),
            final(self).current_scope == r.0,
            !old(self).nodes@.contains_key(r.0),
            final(self).nodes@.dom() =~= old(self).nodes@.dom().insert(r.0),
            final(self).nodes@[r.0].inner is Scope,
            final(self).nodes@[r.0].flags.0 == 0,
            final(self).nodes@[r.0].parent == Some(old(self).current_scope),
            exists|mid: ReactiveSystem| #[trigger] final(self).scope_made(old(self), &mid, r.0),
    {
        proof {
            crate::flags::lemma_empty_flags();
        }
        let parent = self.current_scope;
        let node = self.add_node(NodeInner::Scope, ReactiveFlags::none(), parent);
        let ghost mid = *self;
        let prev_sub = self.set_active_sub(Some(node));
        let ghost entered = *self;
        if let Some(p) = prev_sub {
            if self.nodes.contains_key(p) {
                self.link(node, p, 0);
            }
        }
        let prev_scope = self.current_scope;
        let ghost linked = *self;
        self.set_current_scope(node);
        proof {
            assert(self.with_scope(old(self).current_scope) == linked);
            assert(entered == mid.with_active(Some(node)));
            assert(mid.nodes@.contains_key(node));
            match prev_sub {
                Some(p) => {
                    if entered.nodes@.contains_key(p) {
                        linked.lemma_link_done_keeps(&entered, node, p, 0);
                    }
                },
                None => {},
            }
            assert(linked.nodes@.contains_key(node));
            assert(self.nodes@.dom() =~= old(self).nodes@.dom().insert(node));
            assert(self.scope_made(old(self), &mid, node));
        }
        (node, Frame { prev_sub, prev_scope })
    }

    /// Leaves a scope that was entered on its creation: puts back what was
    /// current.
    pub fn end_scope(&mut self, frame: Frame)
        ensures
            *final(self) == (ReactiveSystem {
                active_sub: frame.prev_sub,
                current_scope: frame.prev_scope,
                ..*old(self)
            }),
            old(self).wf() ==> final(self).wf(),
    {
        let _ = self.set_active_sub(frame.prev_sub);
        self.set_current_scope(frame.prev_scope);
    }

    /// Creates a scope under the given parent, without entering it.
    pub fn new_child_scope(&mut self, parent: NodeKey) -> (r: NodeKey)
        requires
            old(self).wf(),
            old(self).nodes@.contains_key(parent),
            old(self).nodes@.len() < ARENA_CAPACITY,
        ensures
            final(self).wf(),
            final(self).grown_by(old(self), r, parent),
            final(self).nodes@[r].inner is Scope,
            final(self).nodes@[r].flags.0 == 0,
    {
        proof {
            crate::flags::lemma_empty_flags();
        }
        self.add_node(NodeInner::Scope, ReactiveFlags::none(), parent)
    }

    /// Sets an effect back to watching, with nothing pending.
    fn settle_effect(&mut self, node: NodeKey)
        requires
            old(self).wf(),
            old(self).nodes@.contains_key(node),
        ensures
            final(self).wf(),
            final(self).same_but_nodes(old(self)),
            final(self).nodes@ =~= old(self).nodes@.insert(
                node,
                (crate::types::ReactiveNode {
                    flags: ReactiveFlags(WATCHING),
                    ..old(self).nodes@[node]
                }),
            ),
    {
        proof {
            crate::flags::lemma_patterns();
        }
        self.set_flags(node, ReactiveFlags::watching());
    }

    /// Begins a new run of an effect: opens a new cycle, unsets the cursor of
    /// its dependencies, marks it as watching and executing, and hands out
    /// its cleanup callbacks and those below it.
    fn prepare_run(&mut self, node: NodeKey) -> (r: Vec<u64>)
        requires
            old(self).wf(),
            old(self).nodes@.contains_key(node),
            old(self).cycle < usize::MAX,
        ensures
            final(self).wf(),
            old(self).run_prepared(final(self), node, RunStep::Cleanup(r)),
    {
        proof {
            crate::flags::lemma_patterns();
        }
        self.cycle = self.cycle + 1;
        proof {
            self.lemma_keep_wf(old(self));
        }
        self.reset_tracking(
            node,
            ReactiveFlags::watching().union(ReactiveFlags::recursed_check()),
        );
        let ghost mid = *self;
        proof {
            assert(mid.room_below(node) == old(self).room_below(node));
            mid.lemma_same_cleanup_order(old(self), node, old(self).room_below(node));
        }
        let r = self.cleanup_scope(node);
        proof {
            assert(mid.nodes@.contains_key(node));
            assert(mid.tracking_reset(
                &old(self).next_cycle(),
                node,
                ReactiveFlags(WATCHING | RECURSED_CHECK),
            ) && self.cleanups_taken(&mid, node));
        }
        r
    }

    /// Whether a step of an effect's run begins a new run of the body, which
    /// opens a cycle: at the start of a dirty effect, and after a check that
    /// found a change.
    pub open spec fn begins_run(&self, node: NodeKey, event: RunEvent) -> bool {
        self.nodes@.contains_key(node) && match event {
            RunEvent::Start => self.nodes@[node].flags.has(DIRTY),
            RunEvent::Checked(dirty) => dirty,
            _ => false,
        }
    }

    /// One step of an effect's run. A run is: call with `Start`, do what the
    /// step returned says, and call again with the outcome, until `Done`.
    ///
    /// At the start, an effect that exists no more is skipped. A dirty effect
    /// runs again. A pending one has its dependencies checked first and runs
    /// again if the check finds a change. Any other goes back to watching.
    /// Before the body runs, the cleanup callbacks of the last run are to be
    /// called and the children of the last run are destroyed. After it, what
    /// was current is put back and the dependencies that the run did not read
    /// again are let go. A sheltered effect outlives the destruction of its
    /// children and the end of its run.
    pub fn run(&mut self, node: NodeKey, event: RunEvent) -> (r: RunStep)
        requires
            old(self).wf(),
            old(self).begins_run(node, event) ==> old(self).cycle < usize::MAX,
        ensures
            final(self).wf(),
            !old(self).nodes@.contains_key(node) && !(event is Ran) ==> r is Done && *final(self)
                == *old(self),
            old(self).nodes@.contains_key(node) ==> match event {
                RunEvent::Start => {
                    let flags = old(self).nodes@[node].flags;
                    if flags.has(DIRTY) {
                        old(self).run_prepared(final(self), node, r)
                    } else if flags.has(PENDING) && old(self).nodes@[node].deps is Some {
                        r == RunStep::Check(old(self).nodes@[node].deps->0) && *final(self)
                            == *old(self)
                    } else {
                        r is Done && old(self).run_settled(final(self), node)
                    }
                },
                RunEvent::Checked(dirty) => {
                    if dirty {
                        old(self).run_prepared(final(self), node, r)
                    } else {
                        r is Done && old(self).run_settled(final(self), node)
                    }
                },
                RunEvent::Cleaned => old(self).run_entered(final(self), node, r),
                RunEvent::Ran(frame) => true,
            },
            event matches RunEvent::Ran(frame) ==> {
                &&& r is Done
                &&& final(self).active_sub == frame.prev_sub
                &&& final(self).current_scope == frame.prev_scope
                &&& final(self).shrunk(
                    &(ReactiveSystem {
                        active_sub: frame.prev_sub,
                        current_scope: frame.prev_scope,
                        ..*old(self)
                    }),
                )
                &&& final(self).nodes@.contains_key(node) ==> final(self).next_tracked(node)
                    is None
                &&& final(self).nodes@.contains_key(node) ==> !final(self).nodes@[node].flags.has(
                    RECURSED_CHECK,
                )
                &&& exists|mid: ReactiveSystem|
                    mid.pass_ended(&old(self).with_scope(frame.prev_scope), node, frame.prev_sub)
                        && #[trigger] final(self).deps_purged(&mid, node, false)
            },
            event is Cleaned && old(self).sheltered(node) ==> r is Invoke,
            event is Ran && old(self).sheltered(node) ==> final(self).nodes@.contains_key(node),
    {
        if let RunEvent::Ran(frame) = event {
            self.set_current_scope(frame.prev_scope);
            proof {
                if old(self).sheltered(node) {
                    self.lemma_sheltered_same(old(self), node);
                }
            }
            self.end_update(node, frame.prev_sub);
            return RunStep::Done;
        }
        let (flags, deps) = match self.nodes.get(node) {
            Some(n) => (n.flags, n.deps),
            None => {
                return RunStep::Done;
            },
        };
        match event {
            RunEvent::Start => {
                if flags.contains(ReactiveFlags::dirty()) {
                    RunStep::Cleanup(self.prepare_run(node))
                } else if flags.contains(ReactiveFlags::pending()) && deps.is_some() {
                    match deps {
                        Some(l) => RunStep::Check(l),
                        None => RunStep::Done,
                    }
                } else {
                    self.settle_effect(node);
                    RunStep::Done
                }
            },
            RunEvent::Checked(dirty) => {
                if dirty {
                    RunStep::Cleanup(self.prepare_run(node))
                } else {
                    self.settle_effect(node);
                    RunStep::Done
                }
            },
            RunEvent::Cleaned => {
                self.purge_child(node);
                let ghost mid = *self;
                if !self.nodes.contains_key(node) {
                    proof {
                        assert(mid.children_purged(old(self), node));
                        assert(old(self).run_entered(self, node, RunStep::Done));
                    }
                    return RunStep::Done;
                }
                let prev_sub = self.set_active_sub(Some(node));
                let prev_scope = self.current_scope;
                self.set_current_scope(node);
                let step = RunStep::Invoke(Frame { prev_sub, prev_scope });
                proof {
                    assert(mid.children_purged(old(self), node));
                    assert(old(self).run_entered(self, node, step));
                }
                step
            },
            RunEvent::Ran(frame) => RunStep::Done,
        }
    }

    /// `self` with the cycle counter advanced by one.
    pub open spec fn next_cycle(&self) -> ReactiveSystem {
        ReactiveSystem { cycle: (self.cycle + 1) as usize, ..*self }
    }

    /// `now` is `self` with a new run of the effect `node` begun: a new cycle
    /// is open, the effect is watching and executing with its cursor unset,
    /// and the cleanup callbacks of the last run are forgotten; `step` hands
    /// them out, in the order in which they are to be called.
    pub open spec fn run_prepared(&self, now: &ReactiveSystem, node: NodeKey, step: RunStep) -> bool {
        &&& step matches RunStep::Cleanup(ids)
        &&& ids@ == self.cleanup_order(node, self.room_below(node))
        &&& exists|mid: ReactiveSystem|
            mid.tracking_reset(
                &self.next_cycle(),
                node,
                ReactiveFlags(WATCHING | RECURSED_CHECK),
            ) && #[trigger] now.cleanups_taken(&mid, node)
    }

    /// `now` is `self` with the children of the effect `node` destroyed, and
    /// then, if the effect is still alive, the effect entered: it is the
    /// active subscriber and the current scope, and `step` asks for its body
    /// to be called and holds what was current.
    pub open spec fn run_entered(&self, now: &ReactiveSystem, node: NodeKey, step: RunStep) -> bool {
        exists|mid: ReactiveSystem|
            #[trigger] mid.children_purged(self, node) && if mid.nodes@.contains_key(node) {
                &&& step == RunStep::Invoke(
                    Frame { prev_sub: self.active_sub, prev_scope: self.current_scope },
                )
                &&& *now == (ReactiveSystem {
                    active_sub: Some(node),
                    current_scope: node,
                    ..mid
                })
            } else {
                step is Done && *now == mid
            }
    }

    /// `now` is `self` with the effect `node` back to watching and nothing
    /// else.
    pub open spec fn run_settled(&self, now: &ReactiveSystem, node: NodeKey) -> bool {
        &&& now.same_but_nodes(self)
        &&& now.nodes@ =~= self.nodes@.insert(
            node,
            (crate::types::ReactiveNode { flags: ReactiveFlags(WATCHING), ..self.nodes@[node] }),
        )
    }
}

} // verus!
