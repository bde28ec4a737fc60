use crate::flags::DIRTY;
use crate::flags::MUTABLE;
use crate::keys::LinkKey;
use crate::keys::NodeKey;
use crate::system::ReactiveSystem;
use vstd::prelude::*;

verus! {

impl ReactiveSystem {
    /// The member `a` of `up` is alive, its parent is a member, and so is
    /// each of its subscribers.
    pub open spec fn member_ok(&self, up: Set<NodeKey>, a: NodeKey) -> bool {
        &&& self.nodes@.contains_key(a)
        &&& (self.nodes@[a].parent matches Some(q) ==> up.contains(q))
        &&& forall|l: LinkKey| #[trigger]
            self.sub_list(a).contains(l) ==> up.contains(self.links@[l].sub)
    }

    /// `up` is closed: its members are alive, and the parent and the
    /// subscribers of a member are members.
    pub open spec fn fenced(&self, up: Set<NodeKey>) -> bool {
        forall|a: NodeKey| up.contains(a) ==> #[trigger] self.member_ok(up, a)
    }

    /// `c` is alive, and its parent is a member of `up`.
    pub open spec fn warded(&self, up: Set<NodeKey>, c: NodeKey) -> bool {
        &&& self.nodes@.contains_key(c)
        &&& self.nodes@[c].parent matches Some(q)
        &&& up.contains(q)
    }

    /// `up` shelters `node`: it is closed, holds the parent of `node`, and
    /// does not hold `node` itself.
    pub open spec fn shelters(&self, up: Set<NodeKey>, node: NodeKey) -> bool {
        &&& self.fenced(up)
        &&& self.warded(up, node)
        &&& !up.contains(node)
    }

    /// Some set of nodes shelters `node`. Then no node above `node` in the
    /// scope tree is reached from `node` along subscriber links backwards:
    /// nothing that `node` depends on, directly or through others, has
    /// `node` below it.
    pub open spec fn sheltered(&self, node: NodeKey) -> bool {
        exists|up: Set<NodeKey>| #[trigger] self.shelters(up, node)
    }

    /// A child of a member that was alive in `before` is alive still. If it
    /// was mutable, and is not the node `but`, it has its flags, or is
    /// mutable and dirty and nothing else.
    pub open spec fn ward_ok(
        &self,
        before: &ReactiveSystem,
        up: Set<NodeKey>,
        but: Option<NodeKey>,
        c: NodeKey,
    ) -> bool {
        before.warded(up, c) ==> {
            &&& self.warded(up, c)
            &&& (Some(c) != but && before.nodes@[c].flags.has(MUTABLE) ==> self.nodes@[c].flags
                == before.nodes@[c].flags || self.nodes@[c].flags.0 == MUTABLE | DIRTY)
        }
    }

    /// The closed set `up` stood through the step from `before` to `self`:
    /// it is closed still, and the children of its members are kept.
    pub open spec fn fence_held(
        &self,
        before: &ReactiveSystem,
        up: Set<NodeKey>,
        but: Option<NodeKey>,
    ) -> bool {
        &&& self.fenced(up)
        &&& forall|c: NodeKey| #[trigger] self.ward_ok(before, up, but, c)
    }

    /// Every closed set without `node` stood through the step from `before`
    /// to `self`.
    pub open spec fn fences_held(
        &self,
        before: &ReactiveSystem,
        node: NodeKey,
        but: Option<NodeKey>,
    ) -> bool {
        forall|up: Set<NodeKey>|
            before.fenced(up) && !up.contains(node) ==> #[trigger] self.fence_held(before, up, but)
    }

    /// A closed set stands where nothing happens.
    pub proof fn lemma_held_still(&self, up: Set<NodeKey>, but: Option<NodeKey>)
        requires
            self.fenced(up),
        ensures
            self.fence_held(self, up, but),
    {
        assert forall|c: NodeKey| #[trigger] self.ward_ok(self, up, but, c) by {}
    }

    /// Every closed set stands where nothing happens.
    pub proof fn lemma_fences_still(&self, node: NodeKey, but: Option<NodeKey>)
        ensures
            self.fences_held(self, node, but),
    {
        assert forall|up: Set<NodeKey>| self.fenced(up) && !up.contains(node) implies #[trigger]
            self.fence_held(self, up, but) by {
            self.lemma_held_still(up, but);
        }
    }

    /// A closed set that stood through two steps stood through both. A step
    /// that spared the flags of every node may stand beside one that did not
    /// spare those of `but`.
    pub proof fn lemma_held_trans(
        &self,
        mid: &ReactiveSystem,
        before: &ReactiveSystem,
        up: Set<NodeKey>,
        first: Option<NodeKey>,
        second: Option<NodeKey>,
        but: Option<NodeKey>,
    )
        requires
            mid.fence_held(before, up, first),
            self.fence_held(mid, up, second),
            first is None || first == but,
            second is None || second == but,
        ensures
            self.fence_held(before, up, but),
    {
        crate::flags::lemma_patterns();
        assert forall|c: NodeKey| #[trigger] self.ward_ok(before, up, but, c) by {
            assert(mid.ward_ok(before, up, first, c));
            assert(self.ward_ok(mid, up, second, c));
        }
    }

    /// Where `but` was no child of a member, or was not mutable, nothing is
    /// left open about it.
    pub proof fn lemma_held_all(&self, before: &ReactiveSystem, up: Set<NodeKey>, but: NodeKey)
        requires
            self.fence_held(before, up, Some(but)),
            !before.warded(up, but) || !before.nodes@[but].flags.has(MUTABLE),
        ensures
            self.fence_held(before, up, None),
    {
        assert forall|c: NodeKey| #[trigger] self.ward_ok(before, up, None, c) by {
            assert(self.ward_ok(before, up, Some(but), c));
        }
    }

    /// A closed set stands while a link is cut whose dependency is no
    /// member.
    pub proof fn lemma_cut_held(&self, before: &ReactiveSystem, l: LinkKey, up: Set<NodeKey>)
        requires
            before.wf(),
            before.links@.contains_key(l),
            self.link_cut(before, l),
            before.fenced(up),
            !up.contains(before.links@[l].dep),
        ensures
            self.fence_held(before, up, None),
    {
        assert forall|a: NodeKey| up.contains(a) implies #[trigger] self.member_ok(up, a) by {
            assert(before.member_ok(up, a));
            assert(before.node_wf(a, None));
            assert forall|m: LinkKey| #[trigger] self.sub_list(a).contains(m) implies up.contains(
                self.links@[m].sub,
            ) by {
                assert(before.sub_list(a).contains(m));
                let i = before.sub_list(a).index_of(m);
                assert(before.sub_list(a)[i] == m);
                assert(before.links@.contains_key(m));
                assert(before.links@[m].dep == a);
                assert(m != l);
                assert(self.links@.contains_key(m));
            }
        }
        assert forall|c: NodeKey| #[trigger] self.ward_ok(before, up, None, c) by {}
    }

    /// A closed set stands while the flags and the cursor of a node are
    /// set, where the node becomes mutable and dirty, or is `but`.
    pub proof fn lemma_reset_held(
        &self,
        before: &ReactiveSystem,
        node: NodeKey,
        flags: crate::flags::ReactiveFlags,
        up: Set<NodeKey>,
        but: Option<NodeKey>,
    )
        requires
            before.nodes@.contains_key(node),
            self.tracking_reset(before, node, flags),
            before.fenced(up),
            flags.0 == MUTABLE | DIRTY || but == Some(node),
        ensures
            self.fence_held(before, up, but),
    {
        assert forall|a: NodeKey| up.contains(a) implies #[trigger] self.member_ok(up, a) by {
            assert(before.member_ok(up, a));
            assert(self.nodes@.contains_key(a));
            assert(self.nodes@[a].parent == before.nodes@[a].parent);
            assert(self.sub_list(a) == before.sub_list(a));
            assert forall|l: LinkKey| #[trigger] self.sub_list(a).contains(l) implies up.contains(
                self.links@[l].sub,
            ) by {
                assert(before.sub_list(a).contains(l));
            }
        }
        assert forall|c: NodeKey| #[trigger] self.ward_ok(before, up, but, c) by {}
    }

    /// A closed set stands while a node is dropped that is no member and no
    /// child of a member.
    pub proof fn lemma_drop_held(&self, before: &ReactiveSystem, child: NodeKey, up: Set<NodeKey>)
        requires
            before.nodes@.contains_key(child),
            before.nodes@[child].parent is Some,
            self.node_dropped(before, child),
            before.fenced(up),
            !up.contains(child),
            !before.warded(up, child),
        ensures
            self.fence_held(before, up, None),
    {
        let p = before.nodes@[child].parent->0;
        let cut = choose|cut: ReactiveSystem|
            #[trigger] cut.child_cut(before, child, p, before.child_list(p).index_of(child))
                && self.same_but_nodes(&cut) && self.nodes@ =~= cut.nodes@.remove(child);
        assert forall|a: NodeKey| up.contains(a) implies #[trigger] self.member_ok(up, a) by {
            assert(before.member_ok(up, a));
            assert(cut.nodes@.contains_key(a));
            assert(self.nodes@.contains_key(a));
            assert(self.nodes@[a].parent == before.nodes@[a].parent);
            assert(self.sub_list(a) == before.sub_list(a));
            assert forall|l: LinkKey| #[trigger] self.sub_list(a).contains(l) implies up.contains(
                self.links@[l].sub,
            ) by {
                assert(before.sub_list(a).contains(l));
            }
        }
        assert forall|c: NodeKey| #[trigger] self.ward_ok(before, up, None, c) by {
            if before.warded(up, c) {
                assert(cut.nodes@.contains_key(c));
            }
        }
    }

    /// A sheltered node stays sheltered while the same nodes and links are
    /// alive and each node keeps its parent and its subscribers.
    pub proof fn lemma_sheltered_same(&self, before: &ReactiveSystem, node: NodeKey)
        requires
            before.sheltered(node),
            self.links@ == before.links@,
            self.nodes@.dom() =~= before.nodes@.dom(),
            forall|n: NodeKey| #[trigger]
                self.nodes@.contains_key(n) ==> self.nodes@[n].parent == before.nodes@[n].parent
                    && self.nodes@[n].sub_list == before.nodes@[n].sub_list,
        ensures
            self.sheltered(node),
    {
        let up = choose|up: Set<NodeKey>| #[trigger] before.shelters(up, node);
        assert forall|a: NodeKey| up.contains(a) implies #[trigger] self.member_ok(up, a) by {
            assert(before.member_ok(up, a));
            assert(self.nodes@.contains_key(a));
            assert(self.sub_list(a) == before.sub_list(a));
            assert forall|l: LinkKey| #[trigger] self.sub_list(a).contains(l) implies up.contains(
                self.links@[l].sub,
            ) by {
                assert(before.sub_list(a).contains(l));
            }
        }
        assert(self.nodes@.contains_key(node));
        assert(self.shelters(up, node));
    }

    /// What the standing of every closed set without `node` says of `node`
    /// itself, where it is sheltered: it is alive and sheltered still. If it
    /// was mutable, and is not `but`, it has its flags, or is mutable and
    /// dirty and nothing else.
    pub proof fn lemma_sheltered_kept(
        &self,
        before: &ReactiveSystem,
        node: NodeKey,
        but: Option<NodeKey>,
    )
        requires
            before.sheltered(node),
            self.fences_held(before, node, but),
        ensures
            self.nodes@.contains_key(node),
            self.sheltered(node),
            Some(node) != but && before.nodes@[node].flags.has(MUTABLE) ==> self.nodes@[node].flags
                == before.nodes@[node].flags || self.nodes@[node].flags.0 == MUTABLE | DIRTY,
    {
        let up = choose|up: Set<NodeKey>| #[trigger] before.shelters(up, node);
        assert(self.fence_held(before, up, but));
        assert(self.ward_ok(before, up, but, node));
        assert(self.shelters(up, node));
    }
}

} // verus!
