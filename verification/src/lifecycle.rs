use crate::arena::ARENA_CAPACITY;
use crate::chain::lemma_chained_at;
use crate::chain::lemma_chained_frame;
use crate::chain::lemma_chained_insert;
use crate::chain::lemma_chained_remove;
use crate::flags::ReactiveFlags;
use crate::flags::RECURSED;
use crate::keys::is_node;
use crate::keys::LinkKey;
use crate::keys::NodeKey;
use crate::system::ReactiveSystem;
use crate::types::NodeInner;
use crate::types::ReactiveNode;
use vstd::prelude::*;

verus! {

/// The two nodes differ at most in their place in the scope tree: the head of
/// the list of children, that list, and the links to the siblings.
pub open spec fn same_but_family(a: ReactiveNode, b: ReactiveNode) -> bool {
    &&& a.inner == b.inner
    &&& a.flags == b.flags
    &&& a.parent == b.parent
    &&& a.deps == b.deps
    &&& a.deps_tail == b.deps_tail
    &&& a.subs == b.subs
    &&& a.subs_tail == b.subs_tail
    &&& a.dep_list == b.dep_list
    &&& a.sub_list == b.sub_list
    &&& a.depth == b.depth
    &&& a.cleanups == b.cleanups
    &&& a.contexts == b.contexts
}

impl ReactiveSystem {
    /// Everything but the nodes is as it was.
    pub open spec fn same_but_nodes(&self, before: &ReactiveSystem) -> bool {
        &&& self.cycle == before.cycle
        &&& self.batch_depth == before.batch_depth
        &&& self.notify_index == before.notify_index
        &&& self.queued_length == before.queued_length
        &&& self.queued == before.queued
        &&& self.stack == before.stack
        &&& self.root == before.root
        &&& self.active_sub == before.active_sub
        &&& self.current_scope == before.current_scope
        &&& self.links == before.links
        &&& self.depth_bound == before.depth_bound
    }

    /// The link lists of `n` stay threaded while the links and the node's own
    /// anchors stay.
    pub proof fn lemma_keep_link_lists(&self, before: &ReactiveSystem, n: NodeKey)
        requires
            before.deps_wf(n),
            before.subs_wf(n),
            self.links@ == before.links@,
            same_but_family(self.nodes@[n], before.nodes@[n]),
        ensures
            self.deps_wf(n),
            self.subs_wf(n),
    {
        lemma_chained_frame(
            before.dep_list(n),
            before.prev_dep_of(),
            before.next_dep_of(),
            self.prev_dep_of(),
            self.next_dep_of(),
        );
        lemma_chained_frame(
            before.sub_list(n),
            before.prev_sub_of(),
            before.next_sub_of(),
            self.prev_sub_of(),
            self.next_sub_of(),
        );
    }

    /// The list of children of `n` stays threaded while `n` keeps its head and
    /// each child keeps its parent and its siblings.
    pub proof fn lemma_keep_children(&self, before: &ReactiveSystem, n: NodeKey)
        requires
            before.children_wf(n),
            self.nodes@[n].child == before.nodes@[n].child,
            self.nodes@[n].child_list == before.nodes@[n].child_list,
            forall|i: int|
                0 <= i < before.child_list(n).len() ==> {
                    let m = #[trigger] before.child_list(n)[i];
                    &&& self.nodes@.contains_key(m)
                    &&& self.nodes@[m].parent == before.nodes@[m].parent
                    &&& self.nodes@[m].prev == before.nodes@[m].prev
                    &&& self.nodes@[m].next == before.nodes@[m].next
                },
        ensures
            self.children_wf(n),
    {
        lemma_chained_frame(
            before.child_list(n),
            before.prev_of(),
            before.next_of(),
            self.prev_of(),
            self.next_of(),
        );
    }

    /// `self` is `before` with `child` put at the head of the children of `p`.
    pub open spec fn child_put(&self, before: &ReactiveSystem, child: NodeKey, p: NodeKey) -> bool {
        &&& self.same_but_nodes(before)
        &&& self.nodes@.dom() =~= before.nodes@.dom()
        &&& forall|n: NodeKey| #[trigger]
            self.nodes@.contains_key(n) ==> {
                let a = self.nodes@[n];
                let b = before.nodes@[n];
                &&& same_but_family(a, b)
                &&& a.child_list@ == (if n == p {
                    seq![child] + b.child_list@
                } else {
                    b.child_list@
                })
                &&& a.child == (if n == p {
                    Some(child)
                } else {
                    b.child
                })
                &&& a.prev == (if n == child {
                    None
                } else if before.nodes@[p].child == Some(n) {
                    Some(child)
                } else {
                    b.prev
                })
                &&& a.next == (if n == child {
                    before.nodes@[p].child
                } else {
                    b.next
                })
            }
    }

    proof fn lemma_child_put(&self, before: &ReactiveSystem, child: NodeKey, p: NodeKey)
        requires
            before.inv(Some(child)),
            before.nodes@[child].parent == Some(p),
            self.child_put(before, child, p),
        ensures
            self.wf(),
    {
        let old_list = before.child_list(p);
        let new_list = seq![child] + old_list;
        assert(before.node_wf(child, Some(child)));
        assert(before.node_wf(p, Some(child)));
        assert(self.nodes@.contains_key(p));
        assert(self.nodes@.contains_key(child));
        assert(new_list =~= old_list.insert(0, child));
        assert forall|n: NodeKey| self.nodes@.contains_key(n) implies #[trigger] self.node_wf(
            n,
            None,
        ) by {
            assert(before.node_wf(n, Some(child)));
            self.lemma_keep_link_lists(before, n);
            if n == p {
                lemma_chained_insert(
                    old_list,
                    before.prev_of(),
                    before.next_of(),
                    0,
                    child,
                    self.prev_of(),
                    self.next_of(),
                );
                assert forall|i: int| 0 <= i < new_list.len() implies self.nodes@.contains_key(
                    #[trigger] new_list[i],
                ) && self.nodes@[new_list[i]].parent == Some(n) by {
                    if i > 0 {
                        assert(new_list[i] == old_list[i - 1]);
                    }
                }
            } else {
                let c = before.child_list(n);
                assert forall|i: int| 0 <= i < c.len() implies {
                    let m = #[trigger] c[i];
                    &&& self.nodes@.contains_key(m)
                    &&& self.nodes@[m].parent == before.nodes@[m].parent
                    &&& self.nodes@[m].prev == before.nodes@[m].prev
                    &&& self.nodes@[m].next == before.nodes@[m].next
                } by {
                    let m = c[i];
                    assert(before.nodes@[m].parent == Some(n));
                    if before.nodes@[p].child == Some(m) {
                        assert(old_list[0] == m);
                    }
                }
                self.lemma_keep_children(before, n);
            }
            if n == child {
                assert(new_list[0] == child);
            } else {
                match before.nodes@[n].parent {
                    Some(q) => {
                        if q == p {
                            let i = choose|i: int| 0 <= i < old_list.len() && old_list[i] == n;
                            assert(new_list[i + 1] == n);
                        }
                    },
                    None => {},
                }
            }
        }
        assert forall|l: LinkKey| self.links@.contains_key(l) implies #[trigger] self.link_wf(
            l,
        ) by {
            assert(before.link_wf(l));
        }
    }

    /// Whether `child` is alive and has a parent.
    pub open spec fn has_parent(&self, child: NodeKey) -> bool {
        self.nodes@.contains_key(child) && self.nodes@[child].parent is Some
    }

    /// Puts `child`, which lies in no list of children, at the head of its
    /// parent's list. A node without a parent, as the root is, belongs in no
    /// list, and nothing changes.
    pub fn link_child(&mut self, child: NodeKey)
        requires
            if old(self).has_parent(child) {
                old(self).inv(Some(child))
            } else {
                old(self).wf()
            },
        ensures
            final(self).wf(),
            old(self).has_parent(child) ==> final(self).child_put(
                old(self),
                child,
                old(self).nodes@[child].parent->0,
            ),
            !old(self).has_parent(child) ==> *final(self) == *old(self),
    {
        proof {
            if old(self).has_parent(child) {
                assert(old(self).node_wf(child, Some(child)));
            }
        }
        let parent = match self.nodes.get(child) {
            Some(n) => match n.parent {
                Some(p) => p,
                None => {
                    return ;
                },
            },
            None => {
                return ;
            },
        };
        proof {
            assert(old(self).node_wf(parent, Some(child)));
        }
        let head = match self.nodes.get(parent) {
            Some(n) => n.child,
            None => None,
        };
        let ghost old_list = self.child_list(parent);
        assert(parent != child);
        if let Some(h) = head {
            assert(old_list[0] == h);
            assert(old_list.contains(h));
            assert(h != child);
            assert(self.nodes@.contains_key(h));
            assert(old(self).node_wf(h, Some(child)));
            assert(h != parent);
            let n = self.nodes.slot_mut(h);
            n.prev = Some(child);
        }
        let n = self.nodes.slot_mut(child);
        n.next = head;
        n.prev = None;
        let n = self.nodes.slot_mut(parent);
        n.child = Some(child);
        n.child_list = Ghost(seq![child] + old_list);
        proof {
            assert(self.child_put(old(self), child, parent));
            self.lemma_child_put(old(self), child, parent);
        }
    }

    /// `self` is `before` with `child`, at place `k` of the children of `p`,
    /// cut out of that list.
    pub open spec fn child_cut(
        &self,
        before: &ReactiveSystem,
        child: NodeKey,
        p: NodeKey,
        k: int,
    ) -> bool {
        let cut = before.nodes@[child];
        &&& self.same_but_nodes(before)
        &&& self.nodes@.dom() =~= before.nodes@.dom()
        &&& forall|n: NodeKey| #[trigger]
            self.nodes@.contains_key(n) ==> {
                let a = self.nodes@[n];
                let b = before.nodes@[n];
                &&& same_but_family(a, b)
                &&& a.child_list@ == (if n == p {
                    b.child_list@.remove(k)
                } else {
                    b.child_list@
                })
                &&& a.child == (if n == p && b.child == Some(child) {
                    cut.next
                } else {
                    b.child
                })
                &&& a.prev == (if n == child {
                    None
                } else if cut.next == Some(n) {
                    cut.prev
                } else {
                    b.prev
                })
                &&& a.next == (if n == child {
                    None
                } else if cut.prev == Some(n) {
                    cut.next
                } else {
                    b.next
                })
            }
    }

    proof fn lemma_child_cut(&self, before: &ReactiveSystem, child: NodeKey, p: NodeKey, k: int)
        requires
            before.wf(),
            before.nodes@.contains_key(child),
            before.nodes@[child].parent == Some(p),
            0 <= k < before.child_list(p).len(),
            before.child_list(p)[k] == child,
            self.child_cut(before, child, p, k),
        ensures
            self.inv(Some(child)),
    {
        let old_list = before.child_list(p);
        let new_list = old_list.remove(k);
        assert(before.node_wf(child, None));
        assert(before.node_wf(p, None));
        assert(before.node_wf(before.root, None));
        assert(self.nodes@.contains_key(p));
        assert(self.nodes@.contains_key(child));
        lemma_chained_at(old_list, before.prev_of(), before.next_of(), k);
        assert forall|i: int| 0 <= i < old_list.len() implies before.nodes@.contains_key(
            #[trigger] old_list[i],
        ) && self.nodes@.contains_key(old_list[i]) by {}
        assert forall|i: int| 0 <= i < old_list.len() && i != k implies (self.prev_of())(
            #[trigger] old_list[i],
        ) == (if i == k + 1 {
            (before.prev_of())(old_list[k])
        } else {
            (before.prev_of())(old_list[i])
        }) by {
            lemma_chained_at(old_list, before.prev_of(), before.next_of(), i);
            assert(self.nodes@.contains_key(old_list[i]));
        }
        assert forall|i: int| 0 <= i < old_list.len() && i != k implies (self.next_of())(
            #[trigger] old_list[i],
        ) == (if i == k - 1 {
            (before.next_of())(old_list[k])
        } else {
            (before.next_of())(old_list[i])
        }) by {
            lemma_chained_at(old_list, before.prev_of(), before.next_of(), i);
            assert(self.nodes@.contains_key(old_list[i]));
        }
        lemma_chained_remove(
            old_list,
            before.prev_of(),
            before.next_of(),
            k,
            self.prev_of(),
            self.next_of(),
        );
        assert forall|n: NodeKey| self.nodes@.contains_key(n) implies #[trigger] self.node_wf(
            n,
            Some(child),
        ) by {
            assert(before.node_wf(n, None));
            self.lemma_keep_link_lists(before, n);
            if n == p {
                assert(self.child_list(p) == new_list);
                assert forall|i: int| 0 <= i < new_list.len() implies self.nodes@.contains_key(
                    #[trigger] new_list[i],
                ) && self.nodes@[new_list[i]].parent == Some(n) by {
                    assert(new_list.contains(new_list[i]));
                    assert(old_list.contains(new_list[i]));
                }
                if old_list[0] == child {
                    assert(k == 0);
                }
                if new_list.len() > 0 {
                    if k == 0 {
                        assert(new_list[0] == old_list[1]);
                    } else {
                        assert(new_list[0] == old_list[0]);
                    }
                }
            } else {
                let c = before.child_list(n);
                assert forall|i: int| 0 <= i < c.len() implies {
                    let m = #[trigger] c[i];
                    &&& self.nodes@.contains_key(m)
                    &&& self.nodes@[m].parent == before.nodes@[m].parent
                    &&& self.nodes@[m].prev == before.nodes@[m].prev
                    &&& self.nodes@[m].next == before.nodes@[m].next
                } by {
                    let m = c[i];
                    assert(before.nodes@[m].parent == Some(n));
                    if before.nodes@[child].next == Some(m) {
                        assert(old_list[k + 1] == m);
                    }
                    if before.nodes@[child].prev == Some(m) {
                        assert(old_list[k - 1] == m);
                    }
                }
                self.lemma_keep_children(before, n);
            }
            assert(self.children_wf(n));
            if n != child {
                match before.nodes@[n].parent {
                    Some(q) => {
                        if q == p {
                            assert(old_list.contains(n));
                            assert(new_list.contains(n));
                        }
                        assert(self.nodes@.contains_key(q));
                    },
                    None => {},
                }
                assert(self.parent_wf(n));
            } else {
                assert(self.orphan_wf(n));
            }
        }
        assert forall|l: LinkKey| self.links@.contains_key(l) implies #[trigger] self.link_wf(
            l,
        ) by {
            assert(before.link_wf(l));
        }
    }

    /// Takes `child` out of its parent's list of children. The child keeps its
    /// parent pointer and stays in the arena.
    pub fn unlink_child(&mut self, child: NodeKey)
        requires
            old(self).wf(),
        ensures
            match old(self).parent_of(child) {
                Some(p) => {
                    &&& final(self).inv(Some(child))
                    &&& final(self).child_cut(
                        old(self),
                        child,
                        p,
                        old(self).child_list(p).index_of(child),
                    )
                },
                None => {
                    &&& final(self).wf()
                    &&& final(self).same_but_nodes(old(self))
                    &&& final(self).nodes@.dom() =~= old(self).nodes@.dom()
                    &&& forall|n: NodeKey| #[trigger]
                        final(self).nodes@.contains_key(n) ==> {
                            &&& same_but_family(final(self).nodes@[n], old(self).nodes@[n])
                            &&& final(self).nodes@[n].child == old(self).nodes@[n].child
                            &&& final(self).child_list(n) == old(self).child_list(n)
                        }
                },
            },
    {
        let (parent, prev, next) = match self.nodes.get(child) {
            Some(n) => (n.parent, n.prev, n.next),
            None => {
                return ;
            },
        };
        proof {
            assert(old(self).node_wf(child, None));
        }
        let p = match parent {
            Some(p) => p,
            None => {
                let n = self.nodes.slot_mut(child);
                n.prev = None;
                n.next = None;
                proof {
                    assert forall|n: NodeKey| self.nodes@.contains_key(n) implies #[trigger] self.node_wf(
                        n,
                        None,
                    ) by {
                        assert(old(self).node_wf(n, None));
                        self.lemma_keep_link_lists(old(self), n);
                        let c = old(self).child_list(n);
                        assert forall|i: int| 0 <= i < c.len() implies #[trigger] c[i]
                            != child by {
                            assert(old(self).nodes@[c[i]].parent == Some(n));
                        }
                        self.lemma_keep_children(old(self), n);
                    }
                    assert forall|l: LinkKey| self.links@.contains_key(l) implies #[trigger] self.link_wf(
                        l,
                    ) by {
                        assert(old(self).link_wf(l));
                    }
                }
                return ;
            },
        };
        let ghost old_list = self.child_list(p);
        let ghost k = old_list.index_of(child);
        proof {
            assert(old(self).node_wf(p, None));
            assert(old_list.contains(child));
            assert(0 <= k < old_list.len() && old_list[k] == child);
            lemma_chained_at(old_list, self.prev_of(), self.next_of(), k);
            if k > 0 && k + 1 < old_list.len() {
                assert(old_list[k - 1] != old_list[k + 1]);
            }
            if k > 0 {
                assert(old_list[k - 1] != old_list[k]);
            }
            if k + 1 < old_list.len() {
                assert(old_list[k + 1] != old_list[k]);
                assert(old(self).node_wf(old_list[k + 1], None));
                assert(old(self).nodes@[old_list[k + 1]].parent == Some(p));
            }
            if k > 0 {
                assert(old(self).node_wf(old_list[k - 1], None));
                assert(old(self).nodes@[old_list[k - 1]].parent == Some(p));
            }
            assert(p != child);
        }
        if let Some(pv) = prev {
            assert(old_list[k - 1] == pv);
            let n = self.nodes.slot_mut(pv);
            n.next = next;
        }
        if let Some(nx) = next {
            assert(old_list[k + 1] == nx);
            let n = self.nodes.slot_mut(nx);
            n.prev = prev;
        }
        let head = match self.nodes.get(p) {
            Some(n) => n.child,
            None => None,
        };
        let n = self.nodes.slot_mut(p);
        if is_node(head, child) {
            n.child = next;
        }
        n.child_list = Ghost(old_list.remove(k));
        let n = self.nodes.slot_mut(child);
        n.prev = None;
        n.next = None;
        proof {
            assert(self.child_cut(old(self), child, p, k));
            self.lemma_child_cut(old(self), child, p, k);
        }
    }

    /// Takes a node out of the arena that holds no links and no children and
    /// lies in no list of children.
    pub(crate) fn remove_node(&mut self, node: NodeKey)
        requires
            old(self).inv(Some(node)),
            old(self).dep_list(node).len() == 0,
            old(self).sub_list(node).len() == 0,
            old(self).child_list(node).len() == 0,
        ensures
            final(self).wf(),
            final(self).same_but_nodes(old(self)),
            final(self).nodes@ == old(self).nodes@.remove(node),
    {
        proof {
            assert(old(self).node_wf(node, Some(node)));
        }
        let _ = self.nodes.remove(node);
        proof {
            assert forall|n: NodeKey| self.nodes@.contains_key(n) implies #[trigger] self.node_wf(
                n,
                None,
            ) by {
                assert(old(self).node_wf(n, Some(node)));
                self.lemma_keep_link_lists(old(self), n);
                let c = old(self).child_list(n);
                assert forall|i: int| 0 <= i < c.len() implies #[trigger] c[i] != node by {
                    assert(old(self).nodes@[c[i]].parent == Some(n));
                }
                self.lemma_keep_children(old(self), n);
                match old(self).nodes@[n].parent {
                    Some(q) => {
                        if q == node {
                            assert(old(self).child_list(node).contains(n));
                        }
                    },
                    None => {},
                }
            }
            assert forall|l: LinkKey| self.links@.contains_key(l) implies #[trigger] self.link_wf(
                l,
            ) by {
                assert(old(self).link_wf(l));
                let link = self.links@[l];
                if link.dep == node {
                    assert(old(self).sub_list(node).contains(l));
                }
                if link.sub == node {
                    assert(old(self).dep_list(node).contains(l));
                }
            }
        }
    }

    /// `self` is `before` with the fresh node `r` added under `parent`, at the
    /// head of its children: with no link, no child, no cleanup and no context.
    pub open spec fn grown_by(&self, before: &ReactiveSystem, r: NodeKey, parent: NodeKey) -> bool {
        &&& self.cycle == before.cycle
        &&& self.batch_depth == before.batch_depth
        &&& self.notify_index == before.notify_index
        &&& self.queued_length == before.queued_length
        &&& self.queued == before.queued
        &&& self.stack == before.stack
        &&& self.root == before.root
        &&& self.active_sub == before.active_sub
        &&& self.current_scope == before.current_scope
        &&& self.links == before.links
        &&& !before.nodes@.contains_key(r)
        &&& self.nodes@.dom() =~= before.nodes@.dom().insert(r)
        &&& self.nodes@[r].parent == Some(parent)
        &&& self.dep_list(r).len() == 0
        &&& self.sub_list(r).len() == 0
        &&& self.child_list(r).len() == 0
        &&& self.nodes@[r].deps_tail is None
        &&& self.nodes@[r].cleanups@.len() == 0
        &&& self.nodes@[r].contexts@.len() == 0
        &&& self.child_list(parent) == seq![r] + before.child_list(parent)
        &&& forall|n: NodeKey| #[trigger]
            before.nodes@.contains_key(n) ==> {
                &&& same_but_family(self.nodes@[n], before.nodes@[n])
                &&& n != parent ==> self.child_list(n) == before.child_list(n)
            }
    }

    /// Creates a node under `parent`, at the head of its list of children.
    pub(crate) fn add_node(&mut self, inner: NodeInner, flags: ReactiveFlags, parent: NodeKey) -> (r:
        NodeKey)
        requires
            old(self).wf(),
            old(self).nodes@.contains_key(parent),
            old(self).nodes@.len() < ARENA_CAPACITY,
            !flags.any(RECURSED),
        ensures
            final(self).wf(),
            final(self).grown_by(old(self), r, parent),
            final(self).nodes@[r].inner == inner,
            final(self).nodes@[r].flags == flags,
    {
        let ghost depth = self.nodes@[parent].depth@ + 1;
        let mut node = ReactiveNode::new(inner, flags, Some(parent));
        node.depth = Ghost(depth);
        let key = self.nodes.insert(node);
        proof {
            if depth > self.depth_bound@ {
                self.depth_bound = Ghost(depth);
            }
        }
        let ghost mid = *self;
        proof {
            assert(old(self).node_wf(old(self).root, None));
            assert forall|n: NodeKey| self.nodes@.contains_key(n) implies #[trigger] self.node_wf(
                n,
                Some(key),
            ) by {
                if n != key {
                    assert(old(self).node_wf(n, None));
                    self.lemma_keep_link_lists(old(self), n);
                    self.lemma_keep_children(old(self), n);
                } else {
                    assert(old(self).node_wf(parent, None));
                    if old(self).child_list(parent).contains(key) {
                        let i = choose|i: int|
                            0 <= i < old(self).child_list(parent).len() && old(self).child_list(
                                parent,
                            )[i] == key;
                        assert(old(self).nodes@.contains_key(old(self).child_list(parent)[i]));
                    }
                }
            }
            assert forall|l: LinkKey| self.links@.contains_key(l) implies #[trigger] self.link_wf(
                l,
            ) by {
                assert(old(self).link_wf(l));
            }
        }
        self.link_child(key);
        proof {
            assert(self.nodes@.contains_key(key));
            assert(self.nodes@.contains_key(parent));
            assert forall|n: NodeKey| #[trigger] old(self).nodes@.contains_key(n) implies {
                &&& same_but_family(self.nodes@[n], old(self).nodes@[n])
                &&& n != parent ==> self.child_list(n) == old(self).child_list(n)
            } by {
                assert(self.nodes@.contains_key(n));
                assert(mid.nodes@[n] == old(self).nodes@[n]);
            }
        }
        key
    }
}

} // verus!
