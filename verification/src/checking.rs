use crate::flags::ReactiveFlags;
use crate::flags::DIRTY;
use crate::flags::MUTABLE;
use crate::flags::PENDING;
use crate::keys::LinkKey;
use crate::keys::NodeKey;
use crate::propagation::same_but_flags;
use crate::steps::CheckStep;
use crate::steps::DirtyWalk;
use crate::steps::WalkPhase;
use crate::steps::WalkView;
use crate::system::ReactiveSystem;
use crate::types::ReactiveNode;
use vstd::prelude::*;

verus! {

impl ReactiveSystem {
    /// One marking after another is a marking.
    pub proof fn lemma_marked_trans(&self, mid: &ReactiveSystem, before: &ReactiveSystem)
        requires
            self.marked_from(mid),
            mid.marked_from(before),
        ensures
            self.marked_from(before),
    {
        assert forall|n: NodeKey| #[trigger] self.nodes@.contains_key(n) implies same_but_flags(
            self.nodes@[n],
            before.nodes@[n],
        ) by {
            assert(mid.nodes@.contains_key(n));
        }
    }

    /// `self` is `before` with the flags of `node` set.
    pub open spec fn flags_set(
        &self,
        before: &ReactiveSystem,
        node: NodeKey,
        flags: ReactiveFlags,
    ) -> bool {
        &&& self.same_but_nodes(before)
        &&& self.nodes@ =~= before.nodes@.insert(
            node,
            (ReactiveNode { flags: flags, ..before.nodes@[node] }),
        )
    }

    /// Setting flags is a marking.
    pub proof fn lemma_flags_marked(&self, before: &ReactiveSystem, node: NodeKey, flags: ReactiveFlags)
        requires
            before.nodes@.contains_key(node),
            self.flags_set(before, node, flags),
        ensures
            self.marked_from(before),
    {
        assert(before.queue().is_prefix_of(self.queue()));
    }

    /// The node has more than one subscriber.
    pub open spec fn several_subs(&self, node: NodeKey) -> bool {
        self.nodes@.contains_key(node) && self.sub_list(node).len() > 1
    }

    /// `self` is `before` after the change of `dep` was announced: where it
    /// has several subscribers, those that were pending are dirty; else
    /// nothing changed.
    pub open spec fn change_announced(&self, before: &ReactiveSystem, dep: NodeKey) -> bool {
        if before.several_subs(dep) {
            self.shallow_marked(before, before.sub_list(dep)[0])
        } else {
            *self == *before
        }
    }

    /// After a dependency was found changed: where it has several
    /// subscribers, those that are pending become dirty.
    fn announce_change(&mut self, dep: NodeKey)
        requires
            old(self).wf(),
        ensures
            final(self).wf(),
            final(self).marked_from(old(self)),
            final(self).change_announced(old(self), dep),
    {
        let subs = match self.nodes.get(dep) {
            Some(n) => n.subs,
            None => {
                return ;
            },
        };
        proof {
            self.lemma_sub_head(dep);
        }
        if let Some(subs) = subs {
            proof {
                self.lemma_sub_place(subs);
                assert(self.sub_list(dep)[0] == subs);
            }
            let several = match self.links.get(subs) {
                Some(x) => x.next_sub.is_some(),
                None => false,
            };
            proof {
                match self.links@[subs].next_sub {
                    Some(x) => {
                        self.lemma_sub_place(x);
                    },
                    None => {},
                }
            }
            assert(several == self.several_subs(dep));
            if several {
                self.shallow_propagate(subs);
            }
        }
    }

    /// Where a walk goes from the link in hand once it has dealt with it: to
    /// the next dependency of the same node, unless a change was found, else
    /// to leaving the level.
    pub open spec fn walk_on(&self, w: WalkView) -> WalkView {
        if !w.dirty && self.links@[w.link].next_dep is Some {
            WalkView { link: self.links@[w.link].next_dep->0, phase: WalkPhase::Examine, ..w }
        } else {
            WalkView { phase: WalkPhase::Rise, ..w }
        }
    }

    /// Where a walk goes when it leaves a level: the node in hand is the
    /// subscriber of the link that led down, and the walk goes on with that
    /// node's next dependency, or leaves that level too.
    pub open spec fn walk_up(&self, w: WalkView) -> WalkView {
        let sub = self.links@[w.link].sub;
        if self.links@[w.link].next_dep is Some {
            WalkView { sub, link: self.links@[w.link].next_dep->0, phase: WalkPhase::Examine, ..w }
        } else {
            WalkView { sub, phase: WalkPhase::Rise, ..w }
        }
    }

    /// Where a walk goes once the node whose level is being left was brought
    /// up to date: a changed node passes the verdict up, an unchanged one
    /// clears it.
    pub open spec fn walk_updated(&self, w: WalkView, changed: bool) -> WalkView {
        if changed {
            WalkView { sub: self.links@[w.link].sub, phase: WalkPhase::Rise, ..w }
        } else {
            self.walk_up(WalkView { dirty: false, ..w })
        }
    }

    /// The walk can go on: its link and its node are alive.
    pub open spec fn walk_alive_at(&self, w: WalkView) -> bool {
        self.links@.contains_key(w.link) && self.nodes@.contains_key(w.sub)
    }

    /// The link that leads up from the level in hand: the one put aside when
    /// the level was entered, if the node has several subscribers, else the
    /// node's only subscriber link.
    pub open spec fn way_up(&self, w: WalkView) -> Option<LinkKey> {
        if self.sub_list(w.sub).len() == 0 {
            None
        } else if self.sub_list(w.sub).len() > 1 {
            if w.stack.len() > 0 && self.links@.contains_key(w.stack.last()) {
                Some(w.stack.last())
            } else {
                None
            }
        } else {
            Some(self.sub_list(w.sub)[0])
        }
    }

    /// The walk as it stands on the level above, before the node left is
    /// dealt with.
    pub open spec fn walk_risen(&self, w: WalkView) -> WalkView {
        WalkView {
            depth: (w.depth - 1) as usize,
            link: self.way_up(w)->0,
            stack: if self.sub_list(w.sub).len() > 1 {
                w.stack.drop_last()
            } else {
                w.stack
            },
            ..w
        }
    }

    /// What a step of the walk returns, and the walk after it.
    pub open spec fn walk_step(&self, w: WalkView, reply: Option<bool>) -> (CheckStep, WalkView) {
        let dep = self.links@[w.link].dep;
        if w.phase is Rise && w.depth == 0 {
            (CheckStep::Done(w.dirty), w)
        } else if !self.walk_alive_at(w) {
            (CheckStep::Done(true), w)
        } else {
            match w.phase {
                WalkPhase::Examine => {
                    if self.nodes@[w.sub].flags.has(DIRTY) {
                        (CheckStep::Continue, self.walk_on(WalkView { dirty: true, ..w }))
                    } else if self.nodes@[dep].flags.has(MUTABLE | DIRTY) {
                        if self.nodes@[dep].deps_tail is Some {
                            (CheckStep::Update(dep), WalkView { phase: WalkPhase::AwaitDep, ..w })
                        } else {
                            (CheckStep::Continue, self.walk_on(WalkView { dirty: true, ..w }))
                        }
                    } else if self.nodes@[dep].flags.has(MUTABLE | PENDING) {
                        if self.nodes@[dep].deps is None || w.depth == usize::MAX {
                            (CheckStep::Done(true), w)
                        } else {
                            (
                                CheckStep::Continue,
                                WalkView {
                                    link: self.nodes@[dep].deps->0,
                                    sub: dep,
                                    depth: (w.depth + 1) as usize,
                                    stack: if self.sub_list(dep).len() > 1 {
                                        w.stack.push(w.link)
                                    } else {
                                        w.stack
                                    },
                                    ..w
                                },
                            )
                        }
                    } else {
                        (CheckStep::Continue, self.walk_on(w))
                    }
                },
                WalkPhase::AwaitDep => match reply {
                    Some(changed) => (
                        CheckStep::Continue,
                        self.walk_on(WalkView { dirty: w.dirty || changed, ..w }),
                    ),
                    None => (CheckStep::Done(true), w),
                },
                WalkPhase::Rise => match self.way_up(w) {
                    None => (
                        CheckStep::Done(true),
                        if self.sub_list(w.sub).len() > 1 && w.stack.len() > 0 {
                            WalkView { stack: w.stack.drop_last(), ..w }
                        } else {
                            w
                        },
                    ),
                    Some(up) => {
                        let risen = self.walk_risen(w);
                        if w.dirty {
                            if self.nodes@[w.sub].deps_tail is Some {
                                (
                                    CheckStep::Update(w.sub),
                                    WalkView {
                                        phase: WalkPhase::AwaitSub(
                                            self.sub_list(w.sub)[0],
                                            self.sub_list(w.sub).len() > 1,
                                        ),
                                        ..risen
                                    },
                                )
                            } else {
                                (CheckStep::Continue, self.walk_updated(risen, true))
                            }
                        } else {
                            (CheckStep::Continue, self.walk_up(risen))
                        }
                    },
                },
                WalkPhase::AwaitSub(first, several) => match reply {
                    Some(changed) => (CheckStep::Continue, self.walk_updated(w, changed)),
                    None => (CheckStep::Done(true), w),
                },
            }
        }
    }

    /// What a step of the walk does to the graph: `self` is `before` after
    /// the step.
    pub open spec fn walk_marked(
        &self,
        before: &ReactiveSystem,
        w: WalkView,
        reply: Option<bool>,
    ) -> bool {
        let dep = before.links@[w.link].dep;
        if (w.phase is Rise && w.depth == 0) || !before.walk_alive_at(w) {
            *self == *before
        } else {
            match w.phase {
                WalkPhase::Examine => {
                    if !before.nodes@[w.sub].flags.has(DIRTY) && before.nodes@[dep].flags.has(
                        MUTABLE | DIRTY,
                    ) && before.nodes@[dep].deps_tail is None {
                        exists|mid: ReactiveSystem|
                            mid.flags_set(before, dep, ReactiveFlags(MUTABLE))
                                && #[trigger] self.change_announced(&mid, dep)
                    } else {
                        *self == *before
                    }
                },
                WalkPhase::AwaitDep => {
                    if reply == Some(true) {
                        self.change_announced(before, dep)
                    } else {
                        *self == *before
                    }
                },
                WalkPhase::Rise => {
                    if before.way_up(w) is None {
                        *self == *before
                    } else if w.dirty {
                        if before.nodes@[w.sub].deps_tail is Some {
                            *self == *before
                        } else {
                            exists|mid: ReactiveSystem|
                                mid.flags_set(before, w.sub, ReactiveFlags(MUTABLE))
                                    && #[trigger] self.change_announced(&mid, w.sub)
                        }
                    } else {
                        self.flags_set(
                            before,
                            w.sub,
                            before.nodes@[w.sub].flags.spec_without(ReactiveFlags(PENDING)),
                        )
                    }
                },
                WalkPhase::AwaitSub(first, several) => {
                    if reply == Some(true) && several && before.links@.contains_key(first) {
                        self.shallow_marked(before, first)
                    } else {
                        *self == *before
                    }
                },
            }
        }
    }

    /// Goes on from the link in hand.
    fn after_examine(&self, walk: &mut DirtyWalk) -> (r: CheckStep)
        requires
            self.wf(),
            self.links@.contains_key(old(walk).link),
        ensures
            r is Continue,
            final(walk)@ == self.walk_on(old(walk)@),
    {
        if !walk.dirty {
            let next = match self.links.get(walk.link) {
                Some(x) => x.next_dep,
                None => None,
            };
            if let Some(nd) = next {
                walk.link = nd;
                walk.phase = WalkPhase::Examine;
                return CheckStep::Continue;
            }
        }
        walk.phase = WalkPhase::Rise;
        CheckStep::Continue
    }

    /// Leaves a level for the one above.
    fn leave_level(&self, walk: &mut DirtyWalk) -> (r: CheckStep)
        requires
            self.wf(),
            self.links@.contains_key(old(walk).link),
        ensures
            r is Continue,
            final(walk)@ == self.walk_up(old(walk)@),
    {
        let (sub, next) = match self.links.get(walk.link) {
            Some(x) => (x.sub, x.next_dep),
            None => (walk.sub, None),
        };
        walk.sub = sub;
        if let Some(nd) = next {
            walk.link = nd;
            walk.phase = WalkPhase::Examine;
        } else {
            walk.phase = WalkPhase::Rise;
        }
        CheckStep::Continue
    }

    /// Goes on after the node whose level is being left was brought up to
    /// date.
    fn sub_updated(&mut self, walk: &mut DirtyWalk, changed: bool, first_sub: LinkKey, several: bool) -> (r:
        CheckStep)
        requires
            old(self).wf(),
            old(self).links@.contains_key(old(walk).link),
        ensures
            final(self).wf(),
            final(self).marked_from(old(self)),
            r is Continue,
            final(walk)@ == old(self).walk_updated(old(walk)@, changed),
            if changed && several && old(self).links@.contains_key(first_sub) {
                final(self).shallow_marked(old(self), first_sub)
            } else {
                *final(self) == *old(self)
            },
    {
        if changed {
            if several && self.links.contains_key(first_sub) {
                self.shallow_propagate(first_sub);
            }
            walk.sub = match self.links.get(walk.link) {
                Some(x) => x.sub,
                None => walk.sub,
            };
            walk.phase = WalkPhase::Rise;
            return CheckStep::Continue;
        }
        walk.dirty = false;
        self.leave_level(walk)
    }

    /// One step of the walk that finds out whether a pending node is dirty.
    /// A walk is: make it with `DirtyWalk::new`, call with no reply, and call
    /// again as long as the step returned is not `Done`; a step that asks for
    /// a node to be recomputed is answered with whether its value changed.
    ///
    /// The walk looks at the dependencies of the node one by one. A
    /// dependency that is mutable and dirty is brought up to date, and if it
    /// changed the node is dirty. One that is mutable and pending is entered,
    /// and its own dependencies are looked at first. On leaving a level, a
    /// node found dirty is recomputed, and passes the verdict up if it
    /// changed; a node found clean loses its pending mark. A walk whose link
    /// or node exists no more, or that meets a node without the links it must
    /// have, ends with the verdict "dirty".
    pub fn check_dirty(&mut self, walk: &mut DirtyWalk, reply: Option<bool>) -> (r: CheckStep)
        requires
            old(self).wf(),
        ensures
            final(self).wf(),
            final(self).marked_from(old(self)),
            (r, final(walk)@) == old(self).walk_step(old(walk)@, reply),
            final(self).walk_marked(old(self), old(walk)@, reply),
            r matches CheckStep::Update(n) ==> final(self).nodes@.contains_key(n),
    {
        if let WalkPhase::Rise = walk.phase {
            if walk.depth == 0 {
                return CheckStep::Done(walk.dirty);
            }
        }
        let (dep, next_sub, prev_sub) = match self.links.get(walk.link) {
            Some(x) => (x.dep, x.next_sub, x.prev_sub),
            None => {
                return CheckStep::Done(true);
            },
        };
        let sub_flags = match self.nodes.get(walk.sub) {
            Some(n) => n.flags,
            None => {
                return CheckStep::Done(true);
            },
        };
        proof {
            assert(self.link_wf(walk.link));
            self.lemma_sub_place(walk.link);
        }
        match walk.phase {
            WalkPhase::Examine => {
                let (dep_flags, dep_tail, dep_head) = match self.nodes.get(dep) {
                    Some(n) => (n.flags, n.deps_tail, n.deps),
                    None => {
                        return CheckStep::Done(true);
                    },
                };
                if sub_flags.contains(ReactiveFlags::dirty()) {
                    walk.dirty = true;
                    self.after_examine(walk)
                } else if dep_flags.contains(
                    ReactiveFlags::mutable().union(ReactiveFlags::dirty()),
                ) {
                    if dep_tail.is_some() {
                        walk.phase = WalkPhase::AwaitDep;
                        return CheckStep::Update(dep);
                    }
                    self.update_signal(dep);
                    let ghost mid = *self;
                    proof {
                        mid.lemma_flags_marked(old(self), dep, ReactiveFlags(MUTABLE));
                    }
                    self.announce_change(dep);
                    proof {
                        self.lemma_marked_trans(&mid, old(self));
                        assert(self.change_announced(&mid, dep));
                    }
                    walk.dirty = true;
                    self.after_examine(walk)
                } else if dep_flags.contains(
                    ReactiveFlags::mutable().union(ReactiveFlags::pending()),
                ) {
                    let first = match dep_head {
                        Some(l) => l,
                        None => {
                            return CheckStep::Done(true);
                        },
                    };
                    if walk.depth == usize::MAX {
                        return CheckStep::Done(true);
                    }
                    proof {
                        let list = self.sub_list(dep);
                        let i = self.sub_index(walk.link);
                        assert(self.node_wf(dep, None));
                        crate::chain::lemma_chained_at(
                            list,
                            self.prev_sub_of(),
                            self.next_sub_of(),
                            i,
                        );
                        assert((next_sub is Some || prev_sub is Some) <==> list.len() > 1);
                    }
                    if next_sub.is_some() || prev_sub.is_some() {
                        walk.stack.push(walk.link);
                    }
                    walk.link = first;
                    walk.sub = dep;
                    walk.depth = walk.depth + 1;
                    CheckStep::Continue
                } else {
                    self.after_examine(walk)
                }
            },
            WalkPhase::AwaitDep => {
                let changed = match reply {
                    Some(c) => c,
                    None => {
                        return CheckStep::Done(true);
                    },
                };
                if changed {
                    self.announce_change(dep);
                    walk.dirty = true;
                }
                self.after_examine(walk)
            },
            WalkPhase::Rise => {
                proof {
                    self.lemma_sub_head(walk.sub);
                }
                let (first_sub, sub_tail) = match self.nodes.get(walk.sub) {
                    Some(n) => match n.subs {
                        Some(l) => (l, n.deps_tail),
                        None => {
                            return CheckStep::Done(true);
                        },
                    },
                    None => {
                        return CheckStep::Done(true);
                    },
                };
                proof {
                    self.lemma_sub_place(first_sub);
                    assert(self.sub_list(walk.sub)[0] == first_sub);
                }
                let several = match self.links.get(first_sub) {
                    Some(x) => x.next_sub.is_some(),
                    None => false,
                };
                proof {
                    match self.links@[first_sub].next_sub {
                        Some(x) => {
                            self.lemma_sub_place(x);
                        },
                        None => {},
                    }
                }
                assert(several == (self.sub_list(walk.sub).len() > 1));
                let up = if several {
                    match walk.stack.pop() {
                        Some(l) => l,
                        None => {
                            return CheckStep::Done(true);
                        },
                    }
                } else {
                    first_sub
                };
                if !self.links.contains_key(up) {
                    return CheckStep::Done(true);
                }
                walk.depth = walk.depth - 1;
                walk.link = up;
                assert(walk@ == old(self).walk_risen(old(walk)@));
                if walk.dirty {
                    if sub_tail.is_some() {
                        walk.phase = WalkPhase::AwaitSub(first_sub, several);
                        return CheckStep::Update(walk.sub);
                    }
                    let node = walk.sub;
                    self.update_signal(node);
                    let ghost mid = *self;
                    proof {
                        mid.lemma_flags_marked(old(self), node, ReactiveFlags(MUTABLE));
                        mid.lemma_sub_head(node);
                    }
                    let r = self.sub_updated(walk, true, first_sub, several);
                    proof {
                        self.lemma_marked_trans(&mid, old(self));
                        assert(self.change_announced(&mid, node));
                    }
                    r
                } else {
                    let node = walk.sub;
                    let mut cleared = sub_flags;
                    cleared.remove(ReactiveFlags::pending());
                    proof {
                        assert(self.node_wf(node, None));
                        crate::flags::lemma_clear_keeps(sub_flags.0, PENDING);
                    }
                    self.set_flags(node, cleared);
                    proof {
                        self.lemma_flags_marked(old(self), node, cleared);
                    }
                    self.leave_level(walk)
                }
            },
            WalkPhase::AwaitSub(first_sub, several) => {
                let changed = match reply {
                    Some(c) => c,
                    None => {
                        return CheckStep::Done(true);
                    },
                };
                self.sub_updated(walk, changed, first_sub, several)
            },
        }
    }
}

} // verus!
