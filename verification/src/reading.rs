use crate::arena::ARENA_CAPACITY;
use crate::flags::ReactiveFlags;
use crate::flags::DIRTY;
use crate::flags::MUTABLE;
use crate::flags::PENDING;
use crate::flags::RECURSED_CHECK;
use crate::flags::WATCHING;
use crate::keys::LinkKey;
use crate::keys::NodeKey;
use crate::steps::Recompute;
use crate::steps::TrackEvent;
use crate::steps::TrackStep;
use crate::system::ReactiveSystem;
use crate::types::NodeInner;
use vstd::prelude::*;

verus! {

impl ReactiveSystem {
    /// Whether a step of a tracked read of `node` begins an evaluation, which
    /// opens a cycle: at the start of a dirty node or of one that was never
    /// evaluated, and after a check that found a change.
    pub open spec fn begins_evaluation(&self, node: NodeKey, event: TrackEvent) -> bool {
        self.nodes@.contains_key(node) && match event {
            TrackEvent::Start => self.nodes@[node].flags.has(DIRTY) || self.nodes@[node].flags.0
                == 0,
            TrackEvent::Checked(dirty) => dirty,
            TrackEvent::Computed(rc, changed) => false,
        }
    }

    /// `self` is what the last step of a tracked read makes of `before`: the
    /// update of `node` is ended; if the node is still alive, a changed value
    /// is announced where that was asked for, which makes the pending
    /// subscribers dirty, and the read is booked on the reader.
    pub open spec fn read_finished(
        &self,
        before: &ReactiveSystem,
        node: NodeKey,
        rc: Recompute,
        changed: bool,
    ) -> bool {
        exists|a: ReactiveSystem|
            #[trigger] a.update_ended(before, node, rc.prev_sub) && if !a.nodes@.contains_key(
                node,
            ) {
                *self == a
            } else {
                self.read_announced(&a, node, changed && rc.announce)
            }
    }

    /// `self` is `before` with a changed value of `node` announced, if that
    /// is asked for, which makes its pending subscribers dirty, and then a
    /// read of `node` booked on the reader.
    pub open spec fn read_announced(
        &self,
        before: &ReactiveSystem,
        node: NodeKey,
        announce: bool,
    ) -> bool {
        exists|b: ReactiveSystem|
            #[trigger] self.read_booked(&b, node) && if announce && before.nodes@[node].subs
                is Some {
                b.shallow_marked(before, before.nodes@[node].subs->0)
            } else {
                b == *before
            }
    }

    /// The subscriber that is active when a step of a tracked read books the
    /// read: the one that the evaluation hands back, at its end, and else the
    /// one that is active now. Only where there is one, a link may be made,
    /// and the arena of links must have room.
    pub open spec fn books_on(&self, event: TrackEvent) -> Option<NodeKey> {
        match event {
            TrackEvent::Computed(rc, changed) => rc.prev_sub,
            _ => self.active_sub,
        }
    }

    /// One step of a tracked read of a computed node. A read is: call with
    /// `Start`, do what the step returned says, and call again with the
    /// outcome, until `Done`; then the value may be read.
    ///
    /// At the start, a dirty node is recomputed. A pending one has its
    /// dependencies checked first, and is recomputed if the check finds a
    /// change. A node that was never evaluated is evaluated. After a
    /// recomputation that changed the value, the subscribers that are pending
    /// become dirty. At the end the read is booked on the reader. A node that
    /// exists no more ends the read at once. A sheltered node outlives the end
    /// of its evaluation.
    pub fn computed_track(&mut self, node: NodeKey, event: TrackEvent) -> (r: TrackStep)
        requires
            old(self).wf(),
            old(self).begins_evaluation(node, event) ==> old(self).cycle < usize::MAX,
            !old(self).begins_evaluation(node, event) && old(self).books_on(event) is Some
                ==> old(self).links@.len() < ARENA_CAPACITY,
        ensures
            final(self).wf(),
            !old(self).nodes@.contains_key(node) && !(event is Computed) ==> r is Done,
            !old(self).nodes@.contains_key(node) && !(event is Computed) ==> *final(self) == *old(
                self,
            ),
            old(self).nodes@.contains_key(node) ==> match event {
                TrackEvent::Start => {
                    let flags = old(self).nodes@[node].flags;
                    if flags.has(DIRTY) {
                        &&& r == TrackStep::Compute(
                            Recompute { prev_sub: old(self).active_sub, announce: true },
                        )
                        &&& final(self).pass_restarted(old(self), node)
                    } else if flags.has(PENDING) && old(self).nodes@[node].deps is Some {
                        r == TrackStep::Check(old(self).nodes@[node].deps->0) && *final(self)
                            == *old(self)
                    } else if flags.0 == 0 {
                        &&& r == TrackStep::Compute(
                            Recompute { prev_sub: old(self).active_sub, announce: false },
                        )
                        &&& final(self).pass_begun(old(self), node, MUTABLE | RECURSED_CHECK)
                    } else {
                        r is Done && final(self).read_booked(old(self), node)
                    }
                },
                TrackEvent::Checked(dirty) => {
                    if dirty {
                        &&& r == TrackStep::Compute(
                            Recompute { prev_sub: old(self).active_sub, announce: true },
                        )
                        &&& final(self).pass_restarted(old(self), node)
                    } else {
                        r is Done && final(self).read_booked(old(self), node)
                    }
                },
                TrackEvent::Computed(rc, changed) => true,
            },
            event matches TrackEvent::Computed(rc, changed) ==> {
                &&& r is Done
                &&& final(self).active_sub == rc.prev_sub
                &&& final(self).read_finished(old(self), node, rc, changed)
            },
            event is Computed && old(self).sheltered(node) ==> final(self).nodes@.contains_key(
                node,
            ),
    {
        if let TrackEvent::Computed(rc, changed) = event {
            self.end_update(node, rc.prev_sub);
            let ghost a = *self;
            proof {
                self.lemma_shrunk_size(&old(self).with_active(rc.prev_sub));
            }
            let subs = match self.nodes.get(node) {
                Some(n) => n.subs,
                None => {
                    proof {
                        assert(a.update_ended(old(self), node, rc.prev_sub));
                        assert(self.read_finished(old(self), node, rc, changed));
                    }
                    return TrackStep::Done;
                },
            };
            if changed && rc.announce {
                if let Some(subs) = subs {
                    proof {
                        self.lemma_sub_head(node);
                    }
                    self.shallow_propagate(subs);
                }
            }
            let ghost mid = *self;
            self.track(node);
            proof {
                self.lemma_read_booked_keeps(&mid, node);
                assert(self.read_booked(&mid, node));
                assert(self.read_announced(&a, node, changed && rc.announce));
                assert(a.update_ended(old(self), node, rc.prev_sub));
                assert(self.read_finished(old(self), node, rc, changed));
            }
            return TrackStep::Done;
        }
        let (flags, deps) = match self.nodes.get(node) {
            Some(n) => (n.flags, n.deps),
            None => {
                return TrackStep::Done;
            },
        };
        let dirty = match event {
            TrackEvent::Start => flags.contains(ReactiveFlags::dirty()),
            TrackEvent::Checked(d) => d,
            TrackEvent::Computed(rc, changed) => false,
        };
        let fresh = match event {
            TrackEvent::Start => true,
            _ => false,
        };
        if dirty {
            let prev_sub = self.update_computed(node);
            TrackStep::Compute(Recompute { prev_sub, announce: true })
        } else if fresh && flags.contains(ReactiveFlags::pending()) && deps.is_some() {
            match deps {
                Some(l) => TrackStep::Check(l),
                None => TrackStep::Done,
            }
        } else if fresh && flags.is_empty() {
            let prev_sub = self.update_computed_inner(node);
            TrackStep::Compute(Recompute { prev_sub, announce: false })
        } else {
            self.track(node);
            TrackStep::Done
        }
    }

    /// Creates the subscriber of a trigger under the current scope, and makes
    /// it the active subscriber. The caller runs the function that reads what
    /// is to be triggered, and then ends the trigger. Returns the node and
    /// the active subscriber that was.
    pub fn trigger(&mut self) -> (r: (NodeKey, Option<NodeKey>))
        requires
            old(self).wf(),
            old(self).nodes@.contains_key(old(self).current_scope),
            old(self).nodes@.len() < ARENA_CAPACITY,
        ensures
            final(self).wf(),
            r.1 == old(self).active_sub,
            final(self).active_sub == Some(r.0),
            final(self).with_active(old(self).active_sub).grown_by(
                old(self),
                r.0,
                old(self).current_scope,
            ),
            final(self).nodes@[r.0].inner is Scope,
            final(self).nodes@[r.0].flags.0 == WATCHING,
    {
        proof {
            crate::flags::lemma_patterns();
        }
        let parent = self.current_scope;
        let sub = self.add_node(NodeInner::Scope, ReactiveFlags::watching(), parent);
        let prev_sub = self.set_active_sub(Some(sub));
        (sub, prev_sub)
    }

    /// The node is alive and has a dependency.
    pub open spec fn holds_dep(&self, sub: NodeKey) -> bool {
        self.nodes@.contains_key(sub) && self.nodes@[sub].deps is Some
    }

    /// `self` is `before` with the flags of `sub` cleared, if it is alive, and
    /// then the subscribers from `head` on marked as after a write, and those
    /// of them that are pending made dirty.
    pub open spec fn remarked(&self, before: &ReactiveSystem, sub: NodeKey, head: LinkKey) -> bool {
        exists|b: ReactiveSystem, c: ReactiveSystem|
            #![trigger c.propagated(&b, head)]
            {
                &&& if before.nodes@.contains_key(sub) {
                    b.flags_set(before, sub, ReactiveFlags(0))
                } else {
                    b == *before
                }
                &&& c.propagated(&b, head)
                &&& self.shallow_marked(&c, head)
            }
    }

    /// `self` is `before` with the first dependency of `sub` let go: its link
    /// is removed, and, where the dependency is alive and has subscribers
    /// left, they are marked.
    pub open spec fn dep_let_go(&self, before: &ReactiveSystem, sub: NodeKey) -> bool {
        let l = before.nodes@[sub].deps->0;
        let dep = before.links@[l].dep;
        exists|a: ReactiveSystem|
            #[trigger] a.unlinked(before, l) && if a.nodes@.contains_key(dep) && a.nodes@[dep].subs
                is Some {
                self.remarked(&a, sub, a.nodes@[dep].subs->0)
            } else {
                *self == a
            }
    }

    /// `self` is what `end_trigger` makes of `before`: the active subscriber
    /// is put back, and then the dependencies of `sub` are let go one after
    /// the other, the first in its list first, until it has none or is gone.
    pub open spec fn trigger_ended(
        &self,
        before: &ReactiveSystem,
        sub: NodeKey,
        prev_sub: Option<NodeKey>,
    ) -> bool {
        exists|trail: Seq<ReactiveSystem>|
            {
                &&& trail.len() >= 1
                &&& #[trigger] trail[0] == before.with_active(prev_sub)
                &&& trail.last() == *self
                &&& forall|i: int|
                    0 <= i && i + 1 < trail.len() ==> (#[trigger] trail[i]).holds_dep(sub)
                        && trail[i + 1].dep_let_go(&trail[i], sub)
                &&& !self.holds_dep(sub)
            }
    }

    /// Ends a trigger, after its function ran: puts the active subscriber
    /// back, and lets each dependency that the function read go; where the
    /// dependency has subscribers left, they are marked as after a write to
    /// it, and those that are pending become dirty. Returns whether the queue
    /// is to be flushed now, which is when no batch is open. After the flush
    /// the caller disposes of the trigger's node.
    pub fn end_trigger(&mut self, sub: NodeKey, prev_sub: Option<NodeKey>) -> (r: bool)
        requires
            old(self).wf(),
        ensures
            final(self).wf(),
            r == (old(self).batch_depth == 0),
            final(self).active_sub == prev_sub,
            final(self).batch_depth == old(self).batch_depth,
            final(self).current_scope == old(self).current_scope,
            final(self).cycle == old(self).cycle,
            final(self).root == old(self).root,
            final(self).nodes@.dom().subset_of(old(self).nodes@.dom()),
            final(self).links@.dom().subset_of(old(self).links@.dom()),
            final(self).nodes@.contains_key(sub) ==> final(self).dep_list(sub).len() == 0,
            final(self).trigger_ended(old(self), sub, prev_sub),
    {
        let _ = self.set_active_sub(prev_sub);
        let ghost mut trail: Seq<ReactiveSystem> = seq![*self];
        loop
            invariant
                self.wf(),
                self.active_sub == prev_sub,
                self.batch_depth == old(self).batch_depth,
                self.current_scope == old(self).current_scope,
                self.cycle == old(self).cycle,
                self.root == old(self).root,
                self.nodes@.dom().subset_of(old(self).nodes@.dom()),
                self.links@.dom().subset_of(old(self).links@.dom()),
                trail.len() >= 1,
                trail[0] == old(self).with_active(prev_sub),
                trail.last() == *self,
                forall|i: int|
                    0 <= i && i + 1 < trail.len() ==> (#[trigger] trail[i]).holds_dep(sub)
                        && trail[i + 1].dep_let_go(&trail[i], sub),
            ensures
                self.nodes@.contains_key(sub) ==> self.dep_list(sub).len() == 0,
                !self.holds_dep(sub),
            decreases self.links@.len(),
        {
            let head = match self.nodes.get(sub) {
                Some(n) => n.deps,
                None => {
                    break ;
                },
            };
            proof {
                assert(self.node_wf(sub, None));
            }
            let l = match head {
                Some(l) => l,
                None => {
                    break ;
                },
            };
            proof {
                assert(self.dep_list(sub)[0] == l);
                assert(self.links@.contains_key(l));
            }
            let dep = match self.links.get(l) {
                Some(x) => x.dep,
                None => sub,
            };
            let ghost before = *self;
            self.unlink(l);
            let ghost a = *self;
            proof {
                self.lemma_shrunk_size(&before);
                assert(self.links@.dom().subset_of(before.links@.dom()));
                assert(!self.links@.contains_key(l));
                if self.links@.len() == before.links@.len() {
                    vstd::set_lib::lemma_subset_equality(self.links@.dom(), before.links@.dom());
                }
            }
            let subs = match self.nodes.get(dep) {
                Some(n) => n.subs,
                None => None,
            };
            if let Some(subs) = subs {
                if self.nodes.contains_key(sub) {
                    proof {
                        crate::flags::lemma_empty_flags();
                    }
                    self.set_flags(sub, ReactiveFlags::none());
                }
                let ghost b = *self;
                proof {
                    self.lemma_sub_head(dep);
                }
                self.propagate(subs);
                let ghost c = *self;
                self.shallow_propagate(subs);
                proof {
                    assert(c.propagated(&b, subs) && self.shallow_marked(&c, subs));
                    assert(self.remarked(&a, sub, subs));
                }
            }
            proof {
                assert(a.unlinked(&before, l));
                assert(self.dep_let_go(&before, sub));
                let grown = trail.push(*self);
                assert forall|i: int| 0 <= i && i + 1 < grown.len() implies (
                #[trigger] grown[i]).holds_dep(sub) && grown[i + 1].dep_let_go(&grown[i], sub) by {
                    if i + 1 < trail.len() {
                        assert(grown[i] == trail[i]);
                        assert(grown[i + 1] == trail[i + 1]);
                    } else {
                        assert(grown[i] == before);
                    }
                }
                trail = grown;
            }
        }
        proof {
            assert(self.trigger_ended(old(self), sub, prev_sub));
        }
        self.batch_depth == 0
    }
}

} // verus!
