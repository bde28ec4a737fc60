use crate::flags::ReactiveFlags;
use crate::flags::DIRTY;
use crate::flags::MUTABLE;
use crate::flags::RECURSED;
use crate::keys::LinkKey;
use crate::keys::NodeKey;
use crate::system::ReactiveSystem;
use vstd::prelude::*;
use vstd::set_lib::lemma_len_subset;

verus! {

/// What tearing down may do to the flags of a node that stays: clear bits,
/// and mark a mutable node dirty.
pub open spec fn demoted(now: ReactiveFlags, was: ReactiveFlags) -> bool {
    now == was || crate::flags::demoted_bits(now.0, was.0)
}

/// Demotion carries over two steps.
pub proof fn lemma_demoted_trans(a: ReactiveFlags, b: ReactiveFlags, c: ReactiveFlags)
    requires
        demoted(a, b),
        demoted(b, c),
    ensures
        demoted(a, c),
{
    crate::flags::lemma_demoted(a.0, b.0, c.0, 0);
    crate::flags::lemma_demoted(b.0, b.0, b.0, 0);
    crate::flags::lemma_demoted(c.0, c.0, c.0, 0);
}

/// Each state of the run comes from the one before it by `unlink` of the link
/// that `pick` names there, and in the last `pick` names none.
pub open spec fn run_of_unlinks(
    trail: Seq<ReactiveSystem>,
    pick: spec_fn(ReactiveSystem) -> Option<LinkKey>,
) -> bool
    decreases trail[0].size(), 0nat, 1nat,
{
    &&& trail.len() >= 1
    &&& forall|i: int|
        0 <= i && i + 1 < trail.len() ==> pick(#[trigger] trail[i]) is Some && trail[i].size()
            <= trail[0].size() && trail[i + 1].unlinked(&trail[i], pick(trail[i])->0)
    &&& pick(trail.last()) is None
}

/// Each state of the run comes from the one before it by destroying the first
/// child of `node`, and in the last the node has no child or is gone.
pub open spec fn run_of_child_purges(trail: Seq<ReactiveSystem>, node: NodeKey) -> bool
    decreases trail[0].size(), trail[0].room_below(node), 3nat,
{
    &&& trail.len() >= 1
    &&& forall|i: int|
        0 <= i && i + 1 < trail.len() ==> (#[trigger] trail[i]).child_head_of(node) is Some
            && trail[i].no_larger(&trail[0], node) && trail[i + 1].child_purged(&trail[i], node)
    &&& trail.last().child_head_of(node) is None
}

/// The run begins with `first` and ends with `last`.
pub open spec fn runs_between(
    trail: Seq<ReactiveSystem>,
    first: ReactiveSystem,
    last: ReactiveSystem,
) -> bool {
    trail.len() >= 1 && trail[0] == first && trail.last() == last
}

/// Names, in each state, the dependency link of `sub` that `purge_deps`
/// removes next.
pub open spec fn deps_pick(sub: NodeKey, purge_tail: bool) -> spec_fn(ReactiveSystem) -> Option<
    LinkKey,
> {
    |s: ReactiveSystem| s.purge_target_of(sub, purge_tail)
}

/// Names, in each state, the subscriber link of `dep` that `purge_subs`
/// removes next.
pub open spec fn subs_pick(dep: NodeKey) -> spec_fn(ReactiveSystem) -> Option<LinkKey> {
    |s: ReactiveSystem| s.sub_head_of(dep)
}

impl ReactiveSystem {
    /// Nothing was added since `before`: the nodes and links alive now were
    /// alive then, each node has its kind, parent and payload, and holds in
    /// its lists only what it held then. The scheduler is untouched.
    pub open spec fn shrunk(&self, before: &ReactiveSystem) -> bool {
        &&& self.same_but_graph(before)
        &&& self.nodes@.dom().subset_of(before.nodes@.dom())
        &&& self.links@.dom().subset_of(before.links@.dom())
        &&& forall|n: NodeKey| #[trigger]
            self.nodes@.contains_key(n) ==> {
                let a = self.nodes@[n];
                let b = before.nodes@[n];
                &&& a.inner == b.inner
                &&& a.parent == b.parent
                &&& a.depth == b.depth
                &&& a.cleanups == b.cleanups
                &&& a.contexts == b.contexts
                &&& a.dep_list@.len() <= b.dep_list@.len()
                &&& a.sub_list@.len() <= b.sub_list@.len()
                &&& a.child_list@.len() <= b.child_list@.len()
                &&& demoted(a.flags, b.flags)
            }
        &&& forall|l: LinkKey| #[trigger]
            self.links@.contains_key(l) ==> {
                let a = self.links@[l];
                let b = before.links@[l];
                &&& a.dep == b.dep
                &&& a.sub == b.sub
                &&& a.version == b.version
            }
    }

    /// The dependency link that `purge_deps` removes next: the head of the
    /// list, or the link behind the cursor.
    pub open spec fn purge_target_of(&self, sub: NodeKey, purge_tail: bool) -> Option<LinkKey> {
        if !self.nodes@.contains_key(sub) {
            None
        } else if purge_tail {
            self.nodes@[sub].deps
        } else {
            self.next_tracked(sub)
        }
    }

    /// The subscriber link that `purge_subs` removes next: the head of the
    /// list.
    pub open spec fn sub_head_of(&self, dep: NodeKey) -> Option<LinkKey> {
        if !self.nodes@.contains_key(dep) {
            None
        } else {
            self.nodes@[dep].subs
        }
    }

    /// `self` is the last of a run of states that begins with `before`, in
    /// which each state comes from the one before it by `unlink` of the link
    /// that `pick` names there, and in the last `pick` names none.
    pub open spec fn unlink_run(
        &self,
        before: &ReactiveSystem,
        pick: spec_fn(ReactiveSystem) -> Option<LinkKey>,
    ) -> bool
        decreases before.size(), 0nat, 2nat,
    {
        exists|trail: Seq<ReactiveSystem>| #[trigger]
            runs_between(trail, *before, *self) && run_of_unlinks(trail, pick)
    }

    /// `self` holds no more than `before`, and `node` lies no higher in it.
    pub open spec fn no_larger(&self, before: &ReactiveSystem, node: NodeKey) -> bool {
        self.size() <= before.size() && self.room_below(node) <= before.room_below(node)
    }

    /// Whether `purge_deps` finds nothing to remove.
    pub open spec fn nothing_to_purge(&self, sub: NodeKey, purge_tail: bool) -> bool {
        ||| !self.nodes@.contains_key(sub)
        ||| if purge_tail {
            self.dep_list(sub).len() == 0
        } else {
            self.next_tracked(sub) is None
        }
    }

    /// `self` is what `purge_deps` makes of `before`: the links are removed by
    /// `unlink`, one after the other, each time the head of the list or the
    /// link behind the cursor, until there is none. So nothing was added, and
    /// `sub`, if it is still alive, has no dependency behind its cursor, or
    /// none at all. Where there was nothing to remove, nothing changed.
    pub open spec fn deps_purged(
        &self,
        before: &ReactiveSystem,
        sub: NodeKey,
        purge_tail: bool,
    ) -> bool
        decreases before.size(), before.room_below(sub), 3nat,
    {
        &&& self.shrunk(before)
        &&& self.nodes@.contains_key(sub) ==> self.next_tracked(sub) is None
        &&& self.nodes@.contains_key(sub) && purge_tail ==> self.dep_list(sub).len() == 0
        &&& before.nothing_to_purge(sub, purge_tail) ==> *self == *before
        &&& self.unlink_run(before, deps_pick(sub, purge_tail))
    }

    /// `self` is what `purge_subs` makes of `before`: the links are removed by
    /// `unlink`, one after the other, each time the head of the list, until
    /// there is none. So nothing was added, and `dep`, if it is still alive,
    /// has no subscriber. Where it had none, nothing changed.
    pub open spec fn subs_purged(&self, before: &ReactiveSystem, dep: NodeKey) -> bool
        decreases before.size(), before.room_below(dep), 3nat,
    {
        &&& self.shrunk(before)
        &&& self.nodes@.contains_key(dep) ==> self.sub_list(dep).len() == 0
        &&& !before.nodes@.contains_key(dep) || before.sub_list(dep).len() == 0 ==> *self
            == *before
        &&& self.unlink_run(before, subs_pick(dep))
    }

    /// What holds after `purge_child`, in short: nothing was added, and
    /// `node`, if it is still alive, has no child. Where it had none, nothing
    /// changed.
    pub open spec fn children_cleared(&self, before: &ReactiveSystem, node: NodeKey) -> bool {
        &&& self.shrunk(before)
        &&& self.nodes@.contains_key(node) ==> self.child_list(node).len() == 0
        &&& !before.nodes@.contains_key(node) || before.child_list(node).len() == 0 ==> *self
            == *before
    }

    /// What holds after `purge_scope`, in short: nothing was added, and
    /// `node`, if it is still alive, has no child, no link and no flag. A key
    /// that named no node changed nothing.
    pub open spec fn scope_cleared(&self, before: &ReactiveSystem, node: NodeKey) -> bool {
        &&& self.shrunk(before)
        &&& self.nodes@.contains_key(node) ==> {
            &&& self.child_list(node).len() == 0
            &&& self.dep_list(node).len() == 0
            &&& self.sub_list(node).len() == 0
            &&& self.nodes@[node].flags.0 == 0
        }
        &&& !before.nodes@.contains_key(node) ==> *self == *before
    }

    /// `self` is `before` with the flags of `node` set and its cursor unset.
    pub open spec fn tracking_reset(
        &self,
        before: &ReactiveSystem,
        node: NodeKey,
        flags: ReactiveFlags,
    ) -> bool {
        &&& self.same_but_nodes(before)
        &&& self.nodes@ =~= before.nodes@.insert(
            node,
            (crate::types::ReactiveNode { deps_tail: None, flags: flags, ..before.nodes@[node] }),
        )
    }

    /// `self` is `before` with the node `child`, which has no link and no
    /// child, cut out of its parent's list and taken out of the arena.
    pub open spec fn node_dropped(&self, before: &ReactiveSystem, child: NodeKey) -> bool {
        let p = before.nodes@[child].parent->0;
        exists|cut: ReactiveSystem|
            #[trigger] cut.child_cut(before, child, p, before.child_list(p).index_of(child))
                && self.same_but_nodes(&cut) && self.nodes@ =~= cut.nodes@.remove(child)
    }

    /// `self` is `before` with the first child of `node` destroyed: the child
    /// is purged, as a scope if it is an effect or a scope, else of its links;
    /// then, if that left it alive, its own children are destroyed; then, if
    /// it is still alive, it is dropped.
    pub open spec fn child_purged(&self, before: &ReactiveSystem, node: NodeKey) -> bool
        decreases before.size(), before.room_below(node), 2nat,
    {
        let child = before.nodes@[node].child->0;
        exists|a: ReactiveSystem, b: ReactiveSystem|
            #![trigger a.no_larger(before, child), b.no_larger(&a, child)]
            {
                &&& before.room_below(child) < before.room_below(node)
                &&& if before.nodes@[child].inner.is_scope_like() {
                    a.scope_purged(before, child)
                } else {
                    a.node_purged(before, child)
                }
                &&& a.no_larger(before, child)
                &&& b.no_larger(&a, child)
                &&& if a.nodes@.contains_key(child) {
                    &&& b.children_purged(&a, child)
                    &&& if b.nodes@.contains_key(child) {
                        self.node_dropped(&b, child)
                    } else {
                        *self == b
                    }
                } else {
                    b == a && *self == a
                }
            }
    }

    /// The head of the list of children of a node that is alive.
    pub open spec fn child_head_of(&self, node: NodeKey) -> Option<NodeKey> {
        if !self.nodes@.contains_key(node) {
            None
        } else {
            self.nodes@[node].child
        }
    }

    /// `self` is what `purge_child` makes of `before`: the children of `node`
    /// are destroyed one after the other, the head of the list first, until
    /// the node has none or is gone.
    pub open spec fn children_purged(&self, before: &ReactiveSystem, node: NodeKey) -> bool
        decreases before.size(), before.room_below(node), 4nat,
    {
        &&& self.children_cleared(before, node)
        &&& exists|trail: Seq<ReactiveSystem>| #[trigger]
            runs_between(trail, *before, *self) && run_of_child_purges(trail, node)
    }

    /// `self` is what `purge_scope` makes of `before`: the children of `node`
    /// are destroyed; then, if the node is still alive, its flags are cleared
    /// and its cursor is unset, its dependency links are removed, and its
    /// subscriber links are removed.
    pub open spec fn scope_purged(&self, before: &ReactiveSystem, node: NodeKey) -> bool
        decreases before.size(), before.room_below(node), 6nat,
    {
        &&& self.scope_cleared(before, node)
        &&& exists|a: ReactiveSystem|
            #[trigger] a.no_larger(before, node) && a.children_purged(before, node)
                && if !a.nodes@.contains_key(node) {
                *self == a
            } else {
                self.links_purged(&a, node)
            }
    }

    /// `self` is `before` with the flags of `node` cleared and its cursor
    /// unset, then its dependency links removed, then its subscriber links.
    pub open spec fn links_purged(&self, before: &ReactiveSystem, node: NodeKey) -> bool
        decreases before.size(), before.room_below(node), 5nat,
    {
        exists|b: ReactiveSystem, c: ReactiveSystem|
            #![trigger b.no_larger(before, node), c.no_larger(before, node)]
            b.tracking_reset(before, node, ReactiveFlags(0)) && b.no_larger(before, node)
                && c.no_larger(before, node) && c.deps_purged(&b, node, true)
                && self.subs_purged(&c, node)
    }

    /// `self` is what `purge_node` makes of `before`: the dependency links of
    /// `node` are removed, then its subscriber links.
    pub open spec fn node_purged(&self, before: &ReactiveSystem, node: NodeKey) -> bool
        decreases before.size(), before.room_below(node), 5nat,
    {
        exists|mid: ReactiveSystem|
            #[trigger] mid.no_larger(before, node) && mid.deps_purged(before, node, true)
                && self.subs_purged(&mid, node)
    }

    /// `self` is what `unwatched` makes of `before`. A node that is not
    /// mutable is purged as a scope is. A mutable node whose cursor is set is
    /// marked mutable and dirty, its cursor is unset, and its dependency
    /// links are removed. Any other node, and a key that names none, is left
    /// alone.
    pub open spec fn unwatched_done(&self, before: &ReactiveSystem, node: NodeKey) -> bool
        decreases before.size(), before.room_below(node), 7nat,
    {
        if !before.nodes@.contains_key(node) {
            *self == *before
        } else if !before.nodes@[node].flags.has(MUTABLE) {
            self.scope_purged(before, node)
        } else if before.nodes@[node].deps_tail is Some {
            exists|mid: ReactiveSystem|
                mid.tracking_reset(before, node, ReactiveFlags(MUTABLE | DIRTY))
                    && #[trigger] mid.no_larger(before, node) && self.deps_purged(
                    &mid,
                    node,
                    true,
                )
        } else {
            *self == *before
        }
    }

    /// How far above the depth bound `n` lies.
    pub open spec fn room_below(&self, n: NodeKey) -> nat {
        if self.nodes@.contains_key(n) && self.nodes@[n].depth@ <= self.depth_bound@ {
            (self.depth_bound@ - self.nodes@[n].depth@) as nat
        } else {
            0
        }
    }

    /// Shrinking carries over two steps.
    pub proof fn lemma_shrunk_trans(&self, mid: &ReactiveSystem, before: &ReactiveSystem)
        requires
            self.shrunk(mid),
            mid.shrunk(before),
        ensures
            self.shrunk(before),
    {
        assert forall|n: NodeKey| #[trigger] self.nodes@.contains_key(n) implies {
            let a = self.nodes@[n];
            let b = before.nodes@[n];
            &&& a.inner == b.inner
            &&& a.parent == b.parent
            &&& a.depth == b.depth
            &&& a.cleanups == b.cleanups
            &&& a.contexts == b.contexts
            &&& a.dep_list@.len() <= b.dep_list@.len()
            &&& a.sub_list@.len() <= b.sub_list@.len()
            &&& a.child_list@.len() <= b.child_list@.len()
            &&& demoted(a.flags, b.flags)
        } by {
            assert(mid.nodes@.contains_key(n));
            lemma_demoted_trans(self.nodes@[n].flags, mid.nodes@[n].flags, before.nodes@[n].flags);
        }
        assert forall|l: LinkKey| #[trigger] self.links@.contains_key(l) implies {
            let a = self.links@[l];
            let b = before.links@[l];
            &&& a.dep == b.dep
            &&& a.sub == b.sub
            &&& a.version == b.version
        } by {
            assert(mid.links@.contains_key(l));
        }
    }

    /// A graph that only shrank holds no more than before.
    pub proof fn lemma_shrunk_size(&self, before: &ReactiveSystem)
        requires
            self.shrunk(before),
            before.nodes@.dom().finite(),
            before.links@.dom().finite(),
        ensures
            self.nodes@.len() <= before.nodes@.len(),
            self.links@.len() <= before.links@.len(),
            self.size() <= before.size(),
    {
        lemma_len_subset(self.nodes@.dom(), before.nodes@.dom());
        lemma_len_subset(self.links@.dom(), before.links@.dom());
    }

    /// A graph that only shrank holds no more, and no node lies higher in it.
    pub proof fn lemma_no_larger(&self, before: &ReactiveSystem, node: NodeKey)
        requires
            self.shrunk(before),
            before.nodes@.dom().finite(),
            before.links@.dom().finite(),
        ensures
            self.no_larger(before, node),
    {
        self.lemma_shrunk_size(before);
        if self.nodes@.contains_key(node) {
            assert(before.nodes@.contains_key(node));
        }
    }

    /// Sets the flags of a node and the cursor of its dependency list to
    /// "unset".
    pub(crate) fn reset_tracking(&mut self, node: NodeKey, flags: ReactiveFlags)
        requires
            old(self).wf(),
            old(self).nodes@.contains_key(node),
            !flags.any(RECURSED),
        ensures
            final(self).wf(),
            final(self).tracking_reset(old(self), node, flags),
    {
        let n = self.nodes.slot_mut(node);
        n.deps_tail = None;
        n.flags = flags;
        proof {
            self.lemma_keep_inv_nodes(old(self), None);
        }
    }

    /// `self` is what `unlink` makes of `before`. A key that names no link
    /// changes nothing. A link whose dependency keeps other subscribers is cut
    /// out and nothing else changes. Else the link is cut out and then its
    /// dependency is demoted, as `unwatched` does it.
    pub open spec fn unlinked(&self, before: &ReactiveSystem, link: LinkKey) -> bool
        decreases before.size(), 0nat, 0nat,
    {
        if !before.links@.contains_key(link) {
            *self == *before
        } else if before.sub_list(before.links@[link].dep).len() > 1 {
            self.link_cut(before, link)
        } else {
            exists|mid: ReactiveSystem|
                #[trigger] mid.link_cut(before, link) && mid.size() < before.size()
                    && self.unwatched_done(&mid, before.links@[link].dep)
        }
    }

    /// Removes the link, and demotes its dependency when that was the
    /// dependency's last subscriber. A key that names no link does nothing.
    /// A closed set of nodes that does not hold the dependency stands.
    pub fn unlink(&mut self, link: LinkKey)
        requires
            old(self).wf(),
        ensures
            final(self).wf(),
            final(self).shrunk(old(self)),
            !final(self).links@.contains_key(link),
            final(self).unlinked(old(self), link),
            old(self).links@.contains_key(link) ==> final(self).size() < old(self).size(),
            old(self).links@.contains_key(link) ==> final(self).fences_held(
                old(self),
                old(self).links@[link].dep,
                None,
            ),
        decreases old(self).size(), 0nat, 0nat,
    {
        if !self.links.contains_key(link) {
            return ;
        }
        let ghost dep0 = self.links@[link].dep;
        let lonely = self.detach_link(link);
        let ghost mid = *self;
        proof {
            assert(self.links@.len() == old(self).links@.len() - 1);
            assert(self.nodes@.len() == old(self).nodes@.len());
            assert(old(self).link_wf(link));
            assert(old(self).sub_list(dep0).contains(link));
            assert(self.shrunk(old(self))) by {
                assert forall|n: NodeKey| #[trigger] self.nodes@.contains_key(n) implies {
                    let a = self.nodes@[n];
                    let b = old(self).nodes@[n];
                    &&& a.dep_list@.len() <= b.dep_list@.len()
                    &&& a.sub_list@.len() <= b.sub_list@.len()
                    &&& a.child_list@.len() <= b.child_list@.len()
                } by {
                    let k = old(self).links@[link];
                    assert(old(self).dep_list(k.sub).contains(link));
                    assert(old(self).sub_list(k.dep).contains(link));
                }
            }
        }
        if let Some(dep) = lonely {
            self.unwatched(dep);
            proof {
                self.lemma_shrunk_trans(&mid, old(self));
                self.lemma_shrunk_size(&mid);
                assert(mid.link_cut(old(self), link) && mid.size() < old(self).size()
                    && self.unwatched_done(&mid, dep0));
                assert forall|up: Set<NodeKey>|
                    old(self).fenced(up) && !up.contains(dep0) implies #[trigger] self.fence_held(
                    old(self),
                    up,
                    None,
                ) by {
                    mid.lemma_cut_held(old(self), link, up);
                    assert(self.fence_held(&mid, up, None));
                    self.lemma_held_trans(&mid, old(self), up, None, None, None);
                }
            }
        } else {
            proof {
                assert forall|up: Set<NodeKey>|
                    old(self).fenced(up) && !up.contains(dep0) implies #[trigger] self.fence_held(
                    old(self),
                    up,
                    None,
                ) by {
                    mid.lemma_cut_held(old(self), link, up);
                }
            }
        }
    }

    /// Demotes a node that lost its last subscriber: one that is not mutable
    /// is purged; a mutable one that tracked dependencies is marked dirty and
    /// lets them go. What is let go may be demoted in turn, and so on; a node
    /// that is sheltered outlives all of that, and a mutable one that tracked
    /// dependencies is mutable and dirty, and nothing else, in the end.
    pub fn unwatched(&mut self, node: NodeKey)
        requires
            old(self).wf(),
        ensures
            final(self).wf(),
            final(self).shrunk(old(self)),
            final(self).unwatched_done(old(self), node),
            final(self).fences_held(old(self), node, None),
            old(self).sheltered(node) ==> final(self).nodes@.contains_key(node),
            old(self).sheltered(node) && old(self).nodes@[node].flags.has(MUTABLE)
                && old(self).nodes@[node].deps_tail is Some
                ==> final(self).nodes@[node].flags.0 == MUTABLE | DIRTY,
        decreases old(self).size(), old(self).room_below(node), 4nat,
    {
        let (flags, tail) = match self.nodes.get(node) {
            Some(n) => (n.flags, n.deps_tail),
            None => {
                proof {
                    self.lemma_fences_still(node, None);
                    if self.sheltered(node) {
                        self.lemma_sheltered_kept(old(self), node, None);
                    }
                }
                return ;
            },
        };
        if !flags.contains(ReactiveFlags::mutable()) {
            self.purge_scope(node);
            proof {
                assert forall|up: Set<NodeKey>|
                    old(self).fenced(up) && !up.contains(node) implies #[trigger] self.fence_held(
                    old(self),
                    up,
                    None,
                ) by {
                    assert(self.fence_held(old(self), up, Some(node)));
                    self.lemma_held_all(old(self), up, node);
                }
            }
        } else if tail.is_some() {
            proof {
                crate::flags::lemma_patterns();
            }
            self.reset_tracking(node, ReactiveFlags::mutable().union(ReactiveFlags::dirty()));
            let ghost mid = *self;
            assert(mid.shrunk(old(self))) by {
                assert(old(self).nodes@[node].flags.has(MUTABLE));
                crate::flags::lemma_demoted(0, 0, old(self).nodes@[node].flags.0, 0);
                assert forall|n: NodeKey| #[trigger] mid.nodes@.contains_key(n) implies demoted(
                    mid.nodes@[n].flags,
                    old(self).nodes@[n].flags,
                ) by {
                    crate::flags::lemma_demoted(0, 0, old(self).nodes@[n].flags.0, 0);
                }
            }
            self.purge_deps(node, true);
            proof {
                self.lemma_shrunk_trans(&mid, old(self));
                if self.nodes@.contains_key(node) {
                    assert(mid.nodes@.contains_key(node));
                }
                mid.lemma_no_larger(old(self), node);
                assert(mid.tracking_reset(old(self), node, ReactiveFlags(MUTABLE | DIRTY))
                    && mid.no_larger(old(self), node) && self.deps_purged(&mid, node, true));
                assert forall|up: Set<NodeKey>|
                    old(self).fenced(up) && !up.contains(node) implies #[trigger] mid.fence_held(
                    old(self),
                    up,
                    None,
                ) by {
                    mid.lemma_reset_held(old(self), node, ReactiveFlags(MUTABLE | DIRTY), up, None);
                }
                assert forall|up: Set<NodeKey>|
                    old(self).fenced(up) && !up.contains(node) implies #[trigger] self.fence_held(
                    old(self),
                    up,
                    None,
                ) by {
                    assert(mid.fence_held(old(self), up, None));
                    assert(self.fence_held(&mid, up, None));
                    self.lemma_held_trans(&mid, old(self), up, None, None, None);
                }
                if old(self).sheltered(node) {
                    mid.lemma_sheltered_kept(old(self), node, None);
                    self.lemma_sheltered_kept(&mid, node, None);
                }
            }
            return ;
        }
        proof {
            if flags.has(MUTABLE) {
                self.lemma_fences_still(node, None);
            }
            if old(self).sheltered(node) {
                self.lemma_sheltered_kept(old(self), node, None);
            }
        }
    }

    /// The first dependency link that `purge_deps` is to remove.
    fn purge_target(&self, sub: NodeKey, purge_tail: bool) -> (r: Option<LinkKey>)
        requires
            self.wf(),
        ensures
            r == self.purge_target_of(sub, purge_tail),
            r is None <==> self.nothing_to_purge(sub, purge_tail),
            r matches Some(l) ==> self.links@.contains_key(l) && self.links@[l].sub == sub,
    {
        let (head, tail) = match self.nodes.get(sub) {
            Some(n) => (n.deps, n.deps_tail),
            None => {
                return None;
            },
        };
        proof {
            assert(self.node_wf(sub, None));
            let d = self.dep_list(sub);
            match tail {
                Some(t) => {
                    assert(d.contains(t));
                    crate::chain::lemma_chained_at(
                        d,
                        self.prev_dep_of(),
                        self.next_dep_of(),
                        d.index_of(t),
                    );
                    if self.cursor_place(sub) < d.len() {
                        assert(self.links@.contains_key(d[self.cursor_place(sub)]));
                    }
                },
                None => {
                    if d.len() > 0 {
                        assert(self.links@.contains_key(d[0]));
                    }
                },
            }
            if d.len() > 0 {
                assert(self.links@.contains_key(d[0]));
            }
        }
        if purge_tail {
            head
        } else {
            match tail {
                Some(t) => match self.links.get(t) {
                    Some(x) => x.next_dep,
                    None => head,
                },
                None => head,
            }
        }
    }

    /// Removes dependency links of `sub`: all of them, or only those behind
    /// the cursor, which the running pass did not touch. A sheltered node
    /// outlives the call.
    pub fn purge_deps(&mut self, sub: NodeKey, purge_tail: bool)
        requires
            old(self).wf(),
        ensures
            final(self).wf(),
            final(self).shrunk(old(self)),
            final(self).deps_purged(old(self), sub, purge_tail),
            final(self).fences_held(old(self), sub, None),
            old(self).sheltered(sub) ==> final(self).nodes@.contains_key(sub),
        decreases old(self).size(), old(self).room_below(sub), 1nat,
    {
        let mut target = self.purge_target(sub, purge_tail);
        let ghost pick = deps_pick(sub, purge_tail);
        let ghost mut trail: Seq<ReactiveSystem> = seq![*self];
        proof {
            self.lemma_fences_still(sub, None);
        }
        loop
            invariant
                self.wf(),
                self.shrunk(old(self)),
                self.fences_held(old(self), sub, None),
                old(self).wf(),
                target matches Some(l) ==> self.links@[l].sub == sub,
                target == self.purge_target_of(sub, purge_tail),
                target is None <==> self.nothing_to_purge(sub, purge_tail),
                target matches Some(l) ==> self.links@.contains_key(l),
                old(self).nothing_to_purge(sub, purge_tail) ==> *self == *old(self),
                pick == deps_pick(sub, purge_tail),
                trail.len() >= 1,
                trail[0] == *old(self),
                trail.last() == *self,
                forall|i: int|
                    0 <= i && i + 1 < trail.len() ==> pick(#[trigger] trail[i]) is Some
                        && trail[i].size() <= trail[0].size() && trail[i + 1].unlinked(
                        &trail[i],
                        pick(trail[i])->0,
                    ),
            ensures
                self.nothing_to_purge(sub, purge_tail),
                self.unlink_run(old(self), deps_pick(sub, purge_tail)),
            decreases self.size(),
        {
            let l = match target {
                Some(l) => l,
                None => {
                    proof {
                        assert(pick(trail.last()) is None);
                        assert(run_of_unlinks(trail, pick));
                        assert(runs_between(trail, *old(self), *self));
                    }
                    break ;
                },
            };
            let ghost mid = *self;
            proof {
                mid.lemma_shrunk_size(old(self));
            }
            self.unlink(l);
            proof {
                self.lemma_shrunk_trans(&mid, old(self));
                assert forall|up: Set<NodeKey>|
                    old(self).fenced(up) && !up.contains(sub) implies #[trigger] self.fence_held(
                    old(self),
                    up,
                    None,
                ) by {
                    assert(mid.fence_held(old(self), up, None));
                    let d = mid.links@[l].dep;
                    assert(mid.link_wf(l));
                    if up.contains(d) {
                        assert(mid.member_ok(up, d));
                        assert(mid.sub_list(d).contains(l));
                    }
                    assert(self.fence_held(&mid, up, None));
                    self.lemma_held_trans(&mid, old(self), up, None, None, None);
                }
                let grown = trail.push(*self);
                assert(grown[0] == trail[0]);
                assert forall|i: int| 0 <= i && i + 1 < grown.len() implies pick(
                    #[trigger] grown[i],
                ) is Some && grown[i].size() <= grown[0].size() && grown[i + 1].unlinked(
                    &grown[i],
                    pick(grown[i])->0,
                ) by {
                    if i + 1 < trail.len() {
                        assert(grown[i] == trail[i]);
                        assert(grown[i + 1] == trail[i + 1]);
                    } else {
                        assert(grown[i] == mid);
                        assert(pick(mid) == Some(l));
                    }
                }
                trail = grown;
            }
            target = self.purge_target(sub, purge_tail);
        }
        proof {
            if old(self).sheltered(sub) {
                self.lemma_sheltered_kept(old(self), sub, None);
            }
        }
    }

    /// Removes every subscriber link of `dep`. A sheltered node outlives the
    /// call.
    pub fn purge_subs(&mut self, dep: NodeKey)
        requires
            old(self).wf(),
        ensures
            final(self).wf(),
            final(self).shrunk(old(self)),
            final(self).subs_purged(old(self), dep),
            final(self).fences_held(old(self), dep, None),
            old(self).sheltered(dep) ==> final(self).nodes@.contains_key(dep),
        decreases old(self).size(), old(self).room_below(dep), 1nat,
    {
        let ghost mut touched = false;
        let ghost pick = subs_pick(dep);
        let ghost mut trail: Seq<ReactiveSystem> = seq![*self];
        proof {
            self.lemma_fences_still(dep, None);
        }
        loop
            invariant
                self.wf(),
                self.shrunk(old(self)),
                self.fences_held(old(self), dep, None),
                old(self).wf(),
                !touched ==> *self == *old(self),
                touched ==> old(self).nodes@.contains_key(dep) && old(self).sub_list(dep).len()
                    > 0,
                pick == subs_pick(dep),
                trail.len() >= 1,
                trail[0] == *old(self),
                trail.last() == *self,
                forall|i: int|
                    0 <= i && i + 1 < trail.len() ==> pick(#[trigger] trail[i]) is Some
                        && trail[i].size() <= trail[0].size() && trail[i + 1].unlinked(
                        &trail[i],
                        pick(trail[i])->0,
                    ),
            ensures
                self.nodes@.contains_key(dep) ==> self.sub_list(dep).len() == 0,
                !old(self).nodes@.contains_key(dep) || old(self).sub_list(dep).len() == 0
                    ==> *self == *old(self),
                self.unlink_run(old(self), subs_pick(dep)),
            decreases self.size(),
        {
            let head = match self.nodes.get(dep) {
                Some(n) => n.subs,
                None => {
                    proof {
                        assert(pick(trail.last()) is None);
                        assert(run_of_unlinks(trail, pick));
                        assert(runs_between(trail, *old(self), *self));
                    }
                    break ;
                },
            };
            proof {
                assert(self.node_wf(dep, None));
            }
            let l = match head {
                Some(l) => l,
                None => {
                    proof {
                        assert(pick(trail.last()) is None);
                        assert(run_of_unlinks(trail, pick));
                        assert(runs_between(trail, *old(self), *self));
                    }
                    break ;
                },
            };
            let ghost mid = *self;
            proof {
                mid.lemma_shrunk_size(old(self));
                assert(self.sub_list(dep)[0] == l);
                assert(self.links@.contains_key(l));
                if !touched {
                    assert(old(self).sub_list(dep).len() > 0);
                }
                touched = true;
            }
            self.unlink(l);
            proof {
                self.lemma_shrunk_trans(&mid, old(self));
                assert forall|up: Set<NodeKey>|
                    old(self).fenced(up) && !up.contains(dep) implies #[trigger] self.fence_held(
                    old(self),
                    up,
                    None,
                ) by {
                    assert(mid.fence_held(old(self), up, None));
                    assert(mid.links@[l].dep == dep);
                    assert(self.fence_held(&mid, up, None));
                    self.lemma_held_trans(&mid, old(self), up, None, None, None);
                }
                let grown = trail.push(*self);
                assert(grown[0] == trail[0]);
                assert forall|i: int| 0 <= i && i + 1 < grown.len() implies pick(
                    #[trigger] grown[i],
                ) is Some && grown[i].size() <= grown[0].size() && grown[i + 1].unlinked(
                    &grown[i],
                    pick(grown[i])->0,
                ) by {
                    if i + 1 < trail.len() {
                        assert(grown[i] == trail[i]);
                        assert(grown[i + 1] == trail[i + 1]);
                    } else {
                        assert(grown[i] == mid);
                        assert(pick(mid) == Some(l));
                    }
                }
                trail = grown;
            }
        }
        proof {
            if old(self).sheltered(dep) {
                self.lemma_sheltered_kept(old(self), dep, None);
            }
        }
    }

    /// Removes every link of the node, to what it depends on and to what
    /// depends on it. A sheltered node outlives the call.
    pub fn purge_node(&mut self, node: NodeKey)
        requires
            old(self).wf(),
        ensures
            final(self).wf(),
            final(self).shrunk(old(self)),
            final(self).nodes@.contains_key(node) ==> final(self).dep_list(node).len() == 0
                && final(self).sub_list(node).len() == 0,
            final(self).node_purged(old(self), node),
            final(self).fences_held(old(self), node, None),
            old(self).sheltered(node) ==> final(self).nodes@.contains_key(node),
        decreases old(self).size(), old(self).room_below(node), 2nat,
    {
        self.purge_deps(node, true);
        let ghost mid = *self;
        proof {
            mid.lemma_shrunk_size(old(self));
            assert(mid.room_below(node) <= old(self).room_below(node));
        }
        self.purge_subs(node);
        proof {
            self.lemma_shrunk_trans(&mid, old(self));
            if self.nodes@.contains_key(node) {
                assert(mid.nodes@.contains_key(node));
            }
            mid.lemma_no_larger(old(self), node);
            assert(mid.no_larger(old(self), node) && mid.deps_purged(old(self), node, true)
                && self.subs_purged(&mid, node));
            assert forall|up: Set<NodeKey>|
                old(self).fenced(up) && !up.contains(node) implies #[trigger] self.fence_held(
                old(self),
                up,
                None,
            ) by {
                assert(mid.fence_held(old(self), up, None));
                assert(self.fence_held(&mid, up, None));
                self.lemma_held_trans(&mid, old(self), up, None, None, None);
            }
            if old(self).sheltered(node) {
                self.lemma_sheltered_kept(old(self), node, None);
            }
        }
    }

    /// Destroys the children of the node, each with all it holds, and takes
    /// them out of the arena. A sheltered node outlives the call.
    pub fn purge_child(&mut self, node: NodeKey)
        requires
            old(self).wf(),
        ensures
            final(self).wf(),
            final(self).shrunk(old(self)),
            final(self).children_purged(old(self), node),
            final(self).fences_held(old(self), node, None),
            old(self).sheltered(node) ==> final(self).nodes@.contains_key(node),
        decreases old(self).size(), old(self).room_below(node), 2nat,
    {
        let ghost mut touched = false;
        let ghost mut trail: Seq<ReactiveSystem> = seq![*self];
        proof {
            self.lemma_fences_still(node, None);
        }
        loop
            invariant
                self.wf(),
                self.shrunk(old(self)),
                self.fences_held(old(self), node, None),
                old(self).wf(),
                !touched ==> *self == *old(self),
                touched ==> old(self).nodes@.contains_key(node) && old(self).child_list(
                    node,
                ).len() > 0,
                trail.len() >= 1,
                trail[0] == *old(self),
                trail.last() == *self,
                forall|i: int|
                    0 <= i && i + 1 < trail.len() ==> (#[trigger] trail[i]).child_head_of(node)
                        is Some && trail[i].no_larger(&trail[0], node) && trail[i
                        + 1].child_purged(&trail[i], node),
            ensures
                self.nodes@.contains_key(node) ==> self.child_list(node).len() == 0,
                !old(self).nodes@.contains_key(node) || old(self).child_list(node).len() == 0
                    ==> *self == *old(self),
                run_of_child_purges(trail, node),
                trail[0] == *old(self),
                trail.last() == *self,
            decreases self.size(),
        {
            let head = match self.nodes.get(node) {
                Some(n) => n.child,
                None => {
                    break ;
                },
            };
            proof {
                assert(self.node_wf(node, None));
            }
            let child = match head {
                Some(c) => c,
                None => {
                    break ;
                },
            };
            let scope_like = match self.nodes.get(child) {
                Some(n) => n.inner.scope_like(),
                None => false,
            };
            let ghost mid = *self;
            proof {
                if !touched {
                    assert(old(self).child_list(node).len() > 0);
                }
                touched = true;
                mid.lemma_shrunk_size(old(self));
                assert(self.child_list(node)[0] == child);
                assert(self.nodes@.contains_key(child));
                assert(self.node_wf(child, None));
                assert(self.nodes@[child].parent == Some(node));
                assert(old(self).node_wf(node, None));
                assert(mid.room_below(child) < old(self).room_below(node) || mid.size() < old(
                    self,
                ).size());
                assert(mid.room_below(child) < mid.room_below(node));
                mid.lemma_no_larger(old(self), node);
            }
            if scope_like {
                self.purge_scope(child);
            } else {
                self.purge_node(child);
            }
            proof {
                self.lemma_shrunk_trans(&mid, old(self));
            }
            let ghost mid2 = *self;
            proof {
                mid2.lemma_shrunk_size(&mid);
                mid2.lemma_shrunk_size(old(self));
            }
            if self.nodes.contains_key(child) {
                proof {
                    assert(self.node_wf(child, None));
                    assert(mid2.room_below(child) == mid.room_below(child));
                }
                self.purge_family(child);
                proof {
                    self.lemma_shrunk_trans(&mid2, old(self));
                    let b = choose|b: ReactiveSystem|
                        #[trigger] b.children_purged(&mid2, child) && if b.nodes@.contains_key(
                            child,
                        ) {
                            self.node_dropped(&b, child)
                        } else {
                            *self == b
                        };
                    mid2.lemma_no_larger(&mid, child);
                    b.lemma_no_larger(&mid2, child);
                    assert(mid2.no_larger(&mid, child) && b.no_larger(&mid2, child));
                    assert(self.child_purged(&mid, node));
                }
            } else {
                proof {
                    if mid2.nodes@.len() == mid.nodes@.len() {
                        vstd::set_lib::lemma_subset_equality(mid2.nodes@.dom(), mid.nodes@.dom());
                    }
                    mid2.lemma_no_larger(&mid, child);
                    mid2.lemma_no_larger(&mid2, child);
                    assert(mid2.no_larger(&mid, child) && mid2.no_larger(&mid2, child));
                    assert(self.child_purged(&mid, node));
                }
            }
            proof {
                assert forall|up: Set<NodeKey>|
                    old(self).fenced(up) && !up.contains(node) implies #[trigger] self.fence_held(
                    old(self),
                    up,
                    None,
                ) by {
                    assert(mid.fence_held(old(self), up, None));
                    if up.contains(child) {
                        assert(mid.member_ok(up, child));
                    }
                    assert(!mid.warded(up, child));
                    if scope_like {
                        assert(mid2.fence_held(&mid, up, Some(child)));
                        mid2.lemma_held_all(&mid, up, child);
                    }
                    assert(mid2.fence_held(&mid, up, None));
                    mid2.lemma_held_trans(&mid, old(self), up, None, None, None);
                    if mid2.nodes@.contains_key(child) {
                        assert(mid2.nodes@[child].parent == mid.nodes@[child].parent);
                        assert(self.fence_held(&mid2, up, None));
                        self.lemma_held_trans(&mid2, old(self), up, None, None, None);
                    }
                }
                let grown = trail.push(*self);
                assert(grown[0] == trail[0]);
                assert forall|i: int| 0 <= i && i + 1 < grown.len() implies (
                #[trigger] grown[i]).child_head_of(node) is Some && grown[i].no_larger(
                    &grown[0],
                    node,
                ) && grown[i + 1].child_purged(&grown[i], node) by {
                    if i + 1 < trail.len() {
                        assert(grown[i] == trail[i]);
                        assert(grown[i + 1] == trail[i + 1]);
                    } else {
                        assert(grown[i] == mid);
                    }
                }
                trail = grown;
            }
        }
        proof {
            assert(run_of_child_purges(trail, node) && runs_between(trail, *old(self), *self));
            if old(self).sheltered(node) {
                self.lemma_sheltered_kept(old(self), node, None);
            }
        }
    }

    /// Cleans out a node that holds no link any more, children first, and
    /// takes it out of the arena.
    fn purge_family(&mut self, child: NodeKey)
        requires
            old(self).wf(),
            old(self).nodes@.contains_key(child),
            old(self).nodes@[child].parent is Some,
            old(self).dep_list(child).len() == 0,
            old(self).sub_list(child).len() == 0,
        ensures
            final(self).wf(),
            final(self).shrunk(old(self)),
            !final(self).nodes@.contains_key(child),
            final(self).size() < old(self).size(),
            exists|b: ReactiveSystem|
                #[trigger] b.children_purged(old(self), child) && if b.nodes@.contains_key(child) {
                    final(self).node_dropped(&b, child)
                } else {
                    *final(self) == b
                },
            forall|up: Set<NodeKey>|
                old(self).fenced(up) && !up.contains(child) && !old(self).warded(up, child)
                    ==> #[trigger] final(self).fence_held(old(self), up, None),
        decreases old(self).size(), old(self).room_below(child), 3nat,
    {
        self.purge_child(child);
        let ghost mid = *self;
        proof {
            mid.lemma_shrunk_size(old(self));
        }
        if self.nodes.contains_key(child) {
            self.unlink_child(child);
            let ghost cut = *self;
            proof {
                assert(mid.node_wf(child, None));
                assert(cut.nodes@.contains_key(child));
            }
            self.remove_node(child);
            proof {
                assert(self.shrunk(&mid)) by {
                    let p = mid.nodes@[child].parent->0;
                    assert forall|n: NodeKey| #[trigger] self.nodes@.contains_key(n) implies {
                        let a = self.nodes@[n];
                        let b = mid.nodes@[n];
                        &&& a.inner == b.inner
                        &&& a.parent == b.parent
                        &&& a.depth == b.depth
                        &&& a.cleanups == b.cleanups
                        &&& a.contexts == b.contexts
                        &&& a.dep_list@.len() <= b.dep_list@.len()
                        &&& a.sub_list@.len() <= b.sub_list@.len()
                        &&& a.child_list@.len() <= b.child_list@.len()
                        &&& demoted(a.flags, b.flags)
                    } by {
                        assert(cut.nodes@.contains_key(n));
                        assert(mid.node_wf(p, None));
                        assert(mid.child_list(p).contains(child));
                    }
                }
                self.lemma_shrunk_trans(&mid, old(self));
                let p = mid.nodes@[child].parent->0;
                assert(cut.child_cut(&mid, child, p, mid.child_list(p).index_of(child)));
                assert(self.node_dropped(&mid, child));
                assert(mid.children_purged(old(self), child));
                assert forall|up: Set<NodeKey>|
                    old(self).fenced(up) && !up.contains(child) && !old(self).warded(
                        up,
                        child,
                    ) implies #[trigger] self.fence_held(old(self), up, None) by {
                    assert(mid.fence_held(old(self), up, None));
                    self.lemma_drop_held(&mid, child, up);
                    self.lemma_held_trans(&mid, old(self), up, None, None, None);
                }
            }
        } else {
            proof {
                if mid.nodes@.len() == old(self).nodes@.len() {
                    vstd::set_lib::lemma_subset_equality(mid.nodes@.dom(), old(self).nodes@.dom());
                }
                assert(mid.children_purged(old(self), child));
                assert forall|up: Set<NodeKey>|
                    old(self).fenced(up) && !up.contains(child) && !old(self).warded(
                        up,
                        child,
                    ) implies #[trigger] self.fence_held(old(self), up, None) by {
                    assert(mid.fence_held(old(self), up, None));
                }
            }
        }
    }

    /// Destroys all that the node holds: its children, its dependency links
    /// and its subscriber links. A sheltered node stays, with no flag set. One
    /// that lies below a node that it keeps alive by reading it goes with
    /// that node.
    pub fn purge_scope(&mut self, node: NodeKey)
        requires
            old(self).wf(),
        ensures
            final(self).wf(),
            final(self).shrunk(old(self)),
            final(self).scope_purged(old(self), node),
            final(self).fences_held(old(self), node, Some(node)),
            old(self).sheltered(node) ==> final(self).nodes@.contains_key(node),
        decreases old(self).size(), old(self).room_below(node), 3nat,
    {
        self.purge_child(node);
        let ghost mid = *self;
        proof {
            mid.lemma_shrunk_size(old(self));
        }
        if !self.nodes.contains_key(node) {
            proof {
                mid.lemma_no_larger(old(self), node);
                assert(mid.no_larger(old(self), node) && mid.children_purged(old(self), node));
                assert forall|up: Set<NodeKey>|
                    old(self).fenced(up) && !up.contains(node) implies #[trigger] self.fence_held(
                    old(self),
                    up,
                    Some(node),
                ) by {
                    assert(mid.fence_held(old(self), up, None));
                    mid.lemma_held_still(up, None);
                    mid.lemma_held_trans(&mid, old(self), up, None, None, Some(node));
                }
            }
            return ;
        }
        proof {
            crate::flags::lemma_patterns();
        }
        self.reset_tracking(node, ReactiveFlags::none());
        let ghost mid2 = *self;
        proof {
            crate::flags::lemma_demoted(0, 0, mid.nodes@[node].flags.0, 0);
            assert(mid2.shrunk(&mid));
            mid2.lemma_shrunk_trans(&mid, old(self));
            mid2.lemma_shrunk_size(old(self));
        }
        self.purge_deps(node, true);
        let ghost mid3 = *self;
        proof {
            mid3.lemma_shrunk_trans(&mid2, old(self));
            mid3.lemma_shrunk_size(old(self));
        }
        self.purge_subs(node);
        proof {
            let last = *self;
            self.lemma_shrunk_trans(&mid3, old(self));
            if self.nodes@.contains_key(node) {
                assert(mid3.nodes@.contains_key(node));
                assert(mid2.nodes@.contains_key(node));
                assert(demoted(mid3.nodes@[node].flags, mid2.nodes@[node].flags));
                assert(demoted(last.nodes@[node].flags, mid3.nodes@[node].flags)) by {
                    assert(last.shrunk(&mid3));
                }
                crate::flags::lemma_demoted(mid3.nodes@[node].flags.0, 0, 0, 0);
                crate::flags::lemma_demoted(last.nodes@[node].flags.0, 0, 0, 0);
            }
            mid2.lemma_no_larger(&mid, node);
            mid3.lemma_shrunk_trans(&mid2, &mid);
            mid3.lemma_no_larger(&mid, node);
            assert(mid2.tracking_reset(&mid, node, ReactiveFlags(0)) && mid2.no_larger(&mid, node)
                && mid3.no_larger(&mid, node) && mid3.deps_purged(&mid2, node, true)
                && self.subs_purged(&mid3, node));
            assert(self.links_purged(&mid, node));
            mid.lemma_no_larger(old(self), node);
            assert(mid.no_larger(old(self), node) && mid.children_purged(old(self), node));
            assert forall|up: Set<NodeKey>|
                old(self).fenced(up) && !up.contains(node) implies #[trigger] self.fence_held(
                old(self),
                up,
                Some(node),
            ) by {
                assert(mid.fence_held(old(self), up, None));
                mid2.lemma_reset_held(&mid, node, ReactiveFlags(0), up, Some(node));
                mid2.lemma_held_trans(&mid, old(self), up, None, Some(node), Some(node));
                assert(mid3.fence_held(&mid2, up, None));
                mid3.lemma_held_trans(&mid2, old(self), up, Some(node), None, Some(node));
                assert(self.fence_held(&mid3, up, None));
                self.lemma_held_trans(&mid3, old(self), up, Some(node), None, Some(node));
            }
            if old(self).sheltered(node) {
                self.lemma_sheltered_kept(old(self), node, Some(node));
            }
        }
    }
}

} // verus!
