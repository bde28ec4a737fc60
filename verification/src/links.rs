use crate::arena::ARENA_CAPACITY;
use crate::chain::lemma_chained_at;
use crate::chain::lemma_chained_frame;
use crate::chain::lemma_chained_insert;
use crate::chain::lemma_chained_remove;
use crate::chain::opt_at;
use crate::flags::RECURSED;
use crate::keys::is_link;
use crate::keys::LinkKey;
use crate::keys::NodeKey;
use crate::system::ReactiveSystem;
use crate::types::Link;
use crate::types::ReactiveNode;
use vstd::prelude::*;

verus! {

/// The two nodes differ at most in their link lists: the anchors of the two
/// lists, the cursor, and the lists themselves.
pub open spec fn same_but_links(a: ReactiveNode, b: ReactiveNode) -> bool {
    &&& a.inner == b.inner
    &&& a.flags == b.flags
    &&& a.parent == b.parent
    &&& a.child == b.child
    &&& a.next == b.next
    &&& a.prev == b.prev
    &&& a.child_list == b.child_list
    &&& a.depth == b.depth
    &&& a.cleanups == b.cleanups
    &&& a.contexts == b.contexts
}

/// The two nodes hold the same lists under the same anchors, and the same
/// place in the scope tree. Flags, cursor and payload may differ.
pub open spec fn same_shape(a: ReactiveNode, b: ReactiveNode) -> bool {
    &&& a.parent == b.parent
    &&& a.child == b.child
    &&& a.next == b.next
    &&& a.prev == b.prev
    &&& a.deps == b.deps
    &&& a.subs == b.subs
    &&& a.subs_tail == b.subs_tail
    &&& a.dep_list == b.dep_list
    &&& a.sub_list == b.sub_list
    &&& a.child_list == b.child_list
    &&& a.depth == b.depth
}

/// The two links join the same nodes at the same place of both lists.
pub open spec fn same_ends(a: Link, b: Link) -> bool {
    &&& a.dep == b.dep
    &&& a.sub == b.sub
    &&& a.prev_dep == b.prev_dep
    &&& a.next_dep == b.next_dep
    &&& a.prev_sub == b.prev_sub
    &&& a.next_sub == b.next_sub
}

impl ReactiveSystem {
    /// Everything but the nodes and the links is as it was.
    pub open spec fn same_but_graph(&self, before: &ReactiveSystem) -> bool {
        &&& self.cycle == before.cycle
        &&& self.batch_depth == before.batch_depth
        &&& self.notify_index == before.notify_index
        &&& self.queued_length == before.queued_length
        &&& self.queued == before.queued
        &&& self.stack == before.stack
        &&& self.root == before.root
        &&& self.active_sub == before.active_sub
        &&& self.current_scope == before.current_scope
        &&& self.depth_bound == before.depth_bound
    }

    /// The same nodes and links are alive, joined as before.
    pub open spec fn same_structure(&self, before: &ReactiveSystem) -> bool {
        &&& self.root == before.root
        &&& self.depth_bound == before.depth_bound
        &&& self.nodes@.dom() =~= before.nodes@.dom()
        &&& self.links@.dom() =~= before.links@.dom()
        &&& forall|n: NodeKey| #[trigger]
            self.nodes@.contains_key(n) ==> same_shape(self.nodes@[n], before.nodes@[n])
        &&& forall|l: LinkKey| #[trigger]
            self.links@.contains_key(l) ==> same_ends(self.links@[l], before.links@[l])
    }

    /// In a consistent graph no node carries the reserved flag, and each
    /// cursor stands on its list.
    pub proof fn lemma_node_facts(&self, orphan: Option<NodeKey>)
        requires
            self.inv(orphan),
        ensures
            forall|n: NodeKey| #[trigger]
                self.nodes@.contains_key(n) ==> {
                    &&& !self.nodes@[n].flags.any(RECURSED)
                    &&& (self.nodes@[n].deps_tail matches Some(t) ==> self.dep_list(n).contains(t))
                },
    {
        assert forall|n: NodeKey| #[trigger] self.nodes@.contains_key(n) implies {
            &&& !self.nodes@[n].flags.any(RECURSED)
            &&& (self.nodes@[n].deps_tail matches Some(t) ==> self.dep_list(n).contains(t))
        } by {
            assert(self.node_wf(n, orphan));
        }
    }

    /// A consistent graph stays consistent while its structure stays, and
    /// each node either keeps its flags or takes flags without the reserved
    /// one, and either keeps its cursor or takes one that stands on its list.
    pub proof fn lemma_keep_inv_nodes(&self, before: &ReactiveSystem, orphan: Option<NodeKey>)
        requires
            before.inv(orphan),
            self.same_structure(before),
            self.queue_wf(),
            forall|n: NodeKey| #[trigger]
                self.nodes@.contains_key(n) ==> {
                    &&& (self.nodes@[n].flags == before.nodes@[n].flags || !self.nodes@[n].flags.any(
                        RECURSED,
                    ))
                    &&& (self.nodes@[n].deps_tail == before.nodes@[n].deps_tail || (
                    self.nodes@[n].deps_tail matches Some(t) ==> self.dep_list(n).contains(t)))
                },
        ensures
            self.inv(orphan),
    {
        assert forall|n: NodeKey| #[trigger] self.nodes@.contains_key(n) implies {
            &&& !self.nodes@[n].flags.any(RECURSED)
            &&& (self.nodes@[n].deps_tail matches Some(t) ==> self.dep_list(n).contains(t))
        } by {
            assert(before.node_wf(n, orphan));
        }
        self.lemma_keep_inv(before, orphan);
    }

    /// A consistent graph stays consistent while its structure stays, each
    /// cursor stays on its list, and no node takes the reserved flag.
    pub proof fn lemma_keep_inv(&self, before: &ReactiveSystem, orphan: Option<NodeKey>)
        requires
            before.inv(orphan),
            self.same_structure(before),
            self.queue_wf(),
            forall|n: NodeKey| #[trigger]
                self.nodes@.contains_key(n) ==> {
                    &&& !self.nodes@[n].flags.any(RECURSED)
                    &&& (self.nodes@[n].deps_tail matches Some(t) ==> self.dep_list(n).contains(t))
                },
        ensures
            self.inv(orphan),
    {
        assert forall|n: NodeKey| self.nodes@.contains_key(n) implies #[trigger] self.node_wf(
            n,
            orphan,
        ) by {
            assert(before.node_wf(n, orphan));
            let d = before.dep_list(n);
            assert forall|i: int| 0 <= i < d.len() implies self.links@.contains_key(
                #[trigger] d[i],
            ) by {}
            lemma_chained_frame(
                d,
                before.prev_dep_of(),
                before.next_dep_of(),
                self.prev_dep_of(),
                self.next_dep_of(),
            );
            let s = before.sub_list(n);
            assert forall|i: int| 0 <= i < s.len() implies self.links@.contains_key(
                #[trigger] s[i],
            ) by {}
            lemma_chained_frame(
                s,
                before.prev_sub_of(),
                before.next_sub_of(),
                self.prev_sub_of(),
                self.next_sub_of(),
            );
            let c = before.child_list(n);
            assert forall|i: int| 0 <= i < c.len() implies self.nodes@.contains_key(
                #[trigger] c[i],
            ) by {}
            lemma_chained_frame(
                c,
                before.prev_of(),
                before.next_of(),
                self.prev_of(),
                self.next_of(),
            );
            match before.nodes@[n].parent {
                Some(p) => {
                    assert(self.nodes@.contains_key(p));
                },
                None => {},
            }
        }
        assert forall|l: LinkKey| self.links@.contains_key(l) implies #[trigger] self.link_wf(
            l,
        ) by {
            assert(before.link_wf(l));
            assert(self.nodes@.contains_key(before.links@[l].dep));
            assert(self.nodes@.contains_key(before.links@[l].sub));
        }
    }

    /// A consistent graph stays consistent while nodes and links stay and the
    /// queue's counters stay within the buffer.
    pub proof fn lemma_keep_wf(&self, before: &ReactiveSystem)
        requires
            before.wf(),
            self.nodes == before.nodes,
            self.links == before.links,
            self.root == before.root,
            self.depth_bound == before.depth_bound,
            self.queue_wf(),
        ensures
            self.wf(),
    {
        before.lemma_node_facts(None);
        self.lemma_keep_inv(before, None);
    }

    /// `self` is `before` with the link `l` cut out of both its lists and
    /// out of the arena. A cursor that stood on `l` steps back.
    pub open spec fn link_cut(&self, before: &ReactiveSystem, l: LinkKey) -> bool {
        let k = before.links@[l];
        let i = before.dep_list(k.sub).index_of(l);
        let j = before.sub_list(k.dep).index_of(l);
        &&& self.same_but_graph(before)
        &&& self.nodes@.dom() =~= before.nodes@.dom()
        &&& self.links@.dom() =~= before.links@.dom().remove(l)
        &&& forall|m: LinkKey| #[trigger]
            self.links@.contains_key(m) ==> {
                let a = self.links@[m];
                let b = before.links@[m];
                &&& a.version == b.version
                &&& a.dep == b.dep
                &&& a.sub == b.sub
                &&& a.prev_dep == (if k.next_dep == Some(m) {
                    k.prev_dep
                } else {
                    b.prev_dep
                })
                &&& a.next_dep == (if k.prev_dep == Some(m) {
                    k.next_dep
                } else {
                    b.next_dep
                })
                &&& a.prev_sub == (if k.next_sub == Some(m) {
                    k.prev_sub
                } else {
                    b.prev_sub
                })
                &&& a.next_sub == (if k.prev_sub == Some(m) {
                    k.next_sub
                } else {
                    b.next_sub
                })
            }
        &&& forall|n: NodeKey| #[trigger]
            self.nodes@.contains_key(n) ==> {
                let a = self.nodes@[n];
                let b = before.nodes@[n];
                &&& same_but_links(a, b)
                &&& a.dep_list@ == (if n == k.sub {
                    b.dep_list@.remove(i)
                } else {
                    b.dep_list@
                })
                &&& a.sub_list@ == (if n == k.dep {
                    b.sub_list@.remove(j)
                } else {
                    b.sub_list@
                })
                &&& a.deps == (if n == k.sub && k.prev_dep is None {
                    k.next_dep
                } else {
                    b.deps
                })
                &&& a.deps_tail == (if n == k.sub && (k.next_dep is None || b.deps_tail == Some(
                    l,
                )) {
                    k.prev_dep
                } else {
                    b.deps_tail
                })
                &&& a.subs == (if n == k.dep && k.prev_sub is None {
                    k.next_sub
                } else {
                    b.subs
                })
                &&& a.subs_tail == (if n == k.dep && k.next_sub is None {
                    k.prev_sub
                } else {
                    b.subs_tail
                })
            }
    }

    proof fn lemma_link_cut_deps(&self, before: &ReactiveSystem, l: LinkKey, n: NodeKey)
        requires
            before.wf(),
            before.links@.contains_key(l),
            self.link_cut(before, l),
            self.nodes@.contains_key(n),
        ensures
            self.deps_wf(n),
    {
        let k = before.links@[l];
        assert(before.link_wf(l));
        assert(before.node_wf(k.sub, None));
        assert(before.node_wf(n, None));
        let s = before.dep_list(k.sub);
        let i = s.index_of(l);
        assert(s.contains(l));
        assert(0 <= i < s.len() && s[i] == l);
        lemma_chained_at(s, before.prev_dep_of(), before.next_dep_of(), i);
        if n == k.sub {
            assert forall|x: int| 0 <= x < s.len() && x != i implies (self.prev_dep_of())(
                #[trigger] s[x],
            ) == (if x == i + 1 {
                (before.prev_dep_of())(s[i])
            } else {
                (before.prev_dep_of())(s[x])
            }) by {
                lemma_chained_at(s, before.prev_dep_of(), before.next_dep_of(), x);
                assert(self.links@.contains_key(s[x]));
            }
            assert forall|x: int| 0 <= x < s.len() && x != i implies (self.next_dep_of())(
                #[trigger] s[x],
            ) == (if x == i - 1 {
                (before.next_dep_of())(s[i])
            } else {
                (before.next_dep_of())(s[x])
            }) by {
                lemma_chained_at(s, before.prev_dep_of(), before.next_dep_of(), x);
                assert(self.links@.contains_key(s[x]));
            }
            lemma_chained_remove(
                s,
                before.prev_dep_of(),
                before.next_dep_of(),
                i,
                self.prev_dep_of(),
                self.next_dep_of(),
            );
            let t = s.remove(i);
            assert(self.dep_list(n) == t);
            assert forall|x: int| 0 <= x < t.len() implies self.links@.contains_key(
                #[trigger] t[x],
            ) && self.links@[t[x]].sub == n by {
                assert(t.contains(t[x]));
                assert(s.contains(t[x]));
            }
            if t.len() > 0 {
                if i == 0 {
                    assert(t[0] == s[1]);
                } else {
                    assert(t[0] == s[0]);
                }
            }
            match self.nodes@[n].deps_tail {
                Some(tl) => {
                    if k.next_dep is None || before.nodes@[n].deps_tail == Some(l) {
                        assert(tl == s[i - 1]);
                        assert(s.contains(tl));
                    } else {
                        assert(s.contains(tl));
                    }
                    assert(t.contains(tl));
                },
                None => {},
            }
        } else {
            let d = before.dep_list(n);
            assert forall|x: int| 0 <= x < d.len() implies (self.prev_dep_of())(#[trigger] d[x])
                == (before.prev_dep_of())(d[x]) && (self.next_dep_of())(d[x]) == (
            before.next_dep_of())(d[x]) && self.links@.contains_key(d[x]) && self.links@[d[x]].sub
                == n by {
                let m = d[x];
                assert(before.links@[m].sub == n);
                assert(m != l);
                assert(self.links@.contains_key(m));
                if k.next_dep == Some(m) {
                    assert(s[i + 1] == m);
                }
                if k.prev_dep == Some(m) {
                    assert(s[i - 1] == m);
                }
            }
            lemma_chained_frame(
                d,
                before.prev_dep_of(),
                before.next_dep_of(),
                self.prev_dep_of(),
                self.next_dep_of(),
            );
        }
    }

    proof fn lemma_link_cut_subs(&self, before: &ReactiveSystem, l: LinkKey, n: NodeKey)
        requires
            before.wf(),
            before.links@.contains_key(l),
            self.link_cut(before, l),
            self.nodes@.contains_key(n),
        ensures
            self.subs_wf(n),
    {
        let k = before.links@[l];
        assert(before.link_wf(l));
        assert(before.node_wf(k.dep, None));
        assert(before.node_wf(n, None));
        let s = before.sub_list(k.dep);
        let i = s.index_of(l);
        assert(s.contains(l));
        assert(0 <= i < s.len() && s[i] == l);
        lemma_chained_at(s, before.prev_sub_of(), before.next_sub_of(), i);
        if n == k.dep {
            assert forall|x: int| 0 <= x < s.len() && x != i implies (self.prev_sub_of())(
                #[trigger] s[x],
            ) == (if x == i + 1 {
                (before.prev_sub_of())(s[i])
            } else {
                (before.prev_sub_of())(s[x])
            }) by {
                lemma_chained_at(s, before.prev_sub_of(), before.next_sub_of(), x);
                assert(self.links@.contains_key(s[x]));
            }
            assert forall|x: int| 0 <= x < s.len() && x != i implies (self.next_sub_of())(
                #[trigger] s[x],
            ) == (if x == i - 1 {
                (before.next_sub_of())(s[i])
            } else {
                (before.next_sub_of())(s[x])
            }) by {
                lemma_chained_at(s, before.prev_sub_of(), before.next_sub_of(), x);
                assert(self.links@.contains_key(s[x]));
            }
            lemma_chained_remove(
                s,
                before.prev_sub_of(),
                before.next_sub_of(),
                i,
                self.prev_sub_of(),
                self.next_sub_of(),
            );
            let t = s.remove(i);
            assert(self.sub_list(n) == t);
            assert forall|x: int| 0 <= x < t.len() implies self.links@.contains_key(
                #[trigger] t[x],
            ) && self.links@[t[x]].dep == n by {
                assert(t.contains(t[x]));
                assert(s.contains(t[x]));
            }
            if t.len() > 0 {
                if i == 0 {
                    assert(t[0] == s[1]);
                } else {
                    assert(t[0] == s[0]);
                }
                if i == s.len() - 1 {
                    assert(t[t.len() - 1] == s[s.len() - 2]);
                } else {
                    assert(t[t.len() - 1] == s[s.len() - 1]);
                }
            }
        } else {
            let d = before.sub_list(n);
            assert forall|x: int| 0 <= x < d.len() implies (self.prev_sub_of())(#[trigger] d[x])
                == (before.prev_sub_of())(d[x]) && (self.next_sub_of())(d[x]) == (
            before.next_sub_of())(d[x]) && self.links@.contains_key(d[x]) && self.links@[d[x]].dep
                == n by {
                let m = d[x];
                assert(before.links@[m].dep == n);
                assert(m != l);
                assert(self.links@.contains_key(m));
                if k.next_sub == Some(m) {
                    assert(s[i + 1] == m);
                }
                if k.prev_sub == Some(m) {
                    assert(s[i - 1] == m);
                }
            }
            lemma_chained_frame(
                d,
                before.prev_sub_of(),
                before.next_sub_of(),
                self.prev_sub_of(),
                self.next_sub_of(),
            );
        }
    }

    /// Cutting a link out of a consistent graph leaves it consistent.
    pub proof fn lemma_link_cut(&self, before: &ReactiveSystem, l: LinkKey)
        requires
            before.wf(),
            before.links@.contains_key(l),
            self.link_cut(before, l),
        ensures
            self.wf(),
    {
        let k = before.links@[l];
        assert(before.link_wf(l));
        assert forall|n: NodeKey| self.nodes@.contains_key(n) implies #[trigger] self.node_wf(
            n,
            None,
        ) by {
            assert(before.node_wf(n, None));
            self.lemma_link_cut_deps(before, l, n);
            self.lemma_link_cut_subs(before, l, n);
            let c = before.child_list(n);
            assert forall|x: int| 0 <= x < c.len() implies {
                let m = #[trigger] c[x];
                &&& self.nodes@.contains_key(m)
                &&& self.nodes@[m].parent == before.nodes@[m].parent
                &&& self.nodes@[m].prev == before.nodes@[m].prev
                &&& self.nodes@[m].next == before.nodes@[m].next
            } by {
                assert(before.nodes@.contains_key(c[x]));
            }
            self.lemma_keep_children(before, n);
            match before.nodes@[n].parent {
                Some(p) => {
                    assert(self.nodes@.contains_key(p));
                },
                None => {},
            }
        }
        assert forall|m: LinkKey| self.links@.contains_key(m) implies #[trigger] self.link_wf(
            m,
        ) by {
            assert(before.link_wf(m));
            let b = before.links@[m];
            assert(self.nodes@.contains_key(b.dep));
            assert(self.nodes@.contains_key(b.sub));
            assert(before.node_wf(k.sub, None));
            assert(before.node_wf(k.dep, None));
            let s = before.dep_list(k.sub);
            let i = s.index_of(l);
            assert(s.contains(l));
            let u = before.sub_list(k.dep);
            let j = u.index_of(l);
            assert(u.contains(l));
            if b.sub == k.sub {
                let x = choose|x: int| 0 <= x < s.len() && s[x] == m;
                assert(s.remove(i)[if x < i {
                    x
                } else {
                    x - 1
                }] == m);
            }
            if b.dep == k.dep {
                let x = choose|x: int| 0 <= x < u.len() && u[x] == m;
                assert(u.remove(j)[if x < j {
                    x
                } else {
                    x - 1
                }] == m);
            }
        }
    }

    /// Cuts the link out of both its lists and out of the arena, and does
    /// nothing more. Returns the link's dependency when that node is left with
    /// no subscriber.
    pub(crate) fn detach_link(&mut self, link: LinkKey) -> (r: Option<NodeKey>)
        requires
            old(self).wf(),
            old(self).links@.contains_key(link),
        ensures
            final(self).wf(),
            final(self).link_cut(old(self), link),
            r == (if old(self).sub_list(old(self).links@[link].dep).len() == 1 {
                Some(old(self).links@[link].dep)
            } else {
                None
            }),
    {
        let ghost k = self.links@[link];
        let ghost s = self.dep_list(k.sub);
        let ghost i = s.index_of(link);
        let ghost u = self.sub_list(k.dep);
        let ghost j = u.index_of(link);
        proof {
            assert(self.link_wf(link));
            assert(self.node_wf(k.sub, None));
            assert(self.node_wf(k.dep, None));
            assert(s.contains(link));
            assert(u.contains(link));
            lemma_chained_at(s, self.prev_dep_of(), self.next_dep_of(), i);
            lemma_chained_at(u, self.prev_sub_of(), self.next_sub_of(), j);
        }
        let removed = match self.links.remove(link) {
            Some(x) => x,
            None => {
                return None;
            },
        };
        let dep = removed.dep;
        let sub = removed.sub;
        let prev_sub = removed.prev_sub;
        let next_sub = removed.next_sub;
        let prev_dep = removed.prev_dep;
        let next_dep = removed.next_dep;

        let tail = match self.nodes.get(sub) {
            Some(n) => n.deps_tail,
            None => None,
        };
        let on_cursor = is_link(tail, link);
        if let Some(nd) = next_dep {
            assert(s[i + 1] == nd);
            let x = self.links.slot_mut(nd);
            x.prev_dep = prev_dep;
        }
        if let Some(pd) = prev_dep {
            assert(s[i - 1] == pd);
            let x = self.links.slot_mut(pd);
            x.next_dep = next_dep;
        }
        if let Some(ns) = next_sub {
            assert(u[j + 1] == ns);
            let x = self.links.slot_mut(ns);
            x.prev_sub = prev_sub;
        }
        if let Some(ps) = prev_sub {
            assert(u[j - 1] == ps);
            let x = self.links.slot_mut(ps);
            x.next_sub = next_sub;
        }
        let n = self.nodes.slot_mut(sub);
        if next_dep.is_none() || on_cursor {
            n.deps_tail = prev_dep;
        }
        if prev_dep.is_none() {
            n.deps = next_dep;
        }
        n.dep_list = Ghost(s.remove(i));
        let n = self.nodes.slot_mut(dep);
        if next_sub.is_none() {
            n.subs_tail = prev_sub;
        }
        if prev_sub.is_none() {
            n.subs = next_sub;
        }
        n.sub_list = Ghost(u.remove(j));
        proof {
            assert(self.link_cut(old(self), link));
            self.lemma_link_cut(old(self), link);
        }
        if prev_sub.is_none() && next_sub.is_none() {
            Some(dep)
        } else {
            None
        }
    }

    /// Where a new dependency of `sub` goes in its list: right behind the
    /// cursor, or at the head when the cursor is unset.
    pub open spec fn cursor_place(&self, sub: NodeKey) -> int {
        match self.nodes@[sub].deps_tail {
            Some(t) => self.dep_list(sub).index_of(t) + 1,
            None => 0,
        }
    }

    /// The dependency that the link behind the cursor of `sub` leads to, if
    /// there is such a link.
    pub open spec fn next_tracked(&self, sub: NodeKey) -> Option<LinkKey> {
        opt_at(self.dep_list(sub), self.cursor_place(sub))
    }

    /// `self` is `before` with the fresh link `l`, from `dep` to `sub`, put
    /// right behind the cursor of `sub` and at the tail of the subscribers of
    /// `dep`. The cursor moves onto `l`.
    pub open spec fn link_put(
        &self,
        before: &ReactiveSystem,
        l: LinkKey,
        dep: NodeKey,
        sub: NodeKey,
        version: usize,
    ) -> bool {
        let at = before.cursor_place(sub);
        let prev_dep = before.nodes@[sub].deps_tail;
        let next_dep = before.next_tracked(sub);
        let prev_sub = before.nodes@[dep].subs_tail;
        &&& self.same_but_graph(before)
        &&& self.nodes@.dom() =~= before.nodes@.dom()
        &&& !before.links@.contains_key(l)
        &&& self.links@.dom() =~= before.links@.dom().insert(l)
        &&& self.links@[l] == (Link {
            version,
            dep,
            sub,
            prev_dep,
            next_dep,
            prev_sub,
            next_sub: None,
        })
        &&& forall|m: LinkKey| #[trigger]
            before.links@.contains_key(m) ==> {
                let a = self.links@[m];
                let b = before.links@[m];
                &&& a.version == b.version
                &&& a.dep == b.dep
                &&& a.sub == b.sub
                &&& a.prev_dep == (if next_dep == Some(m) {
                    Some(l)
                } else {
                    b.prev_dep
                })
                &&& a.next_dep == (if prev_dep == Some(m) {
                    Some(l)
                } else {
                    b.next_dep
                })
                &&& a.prev_sub == b.prev_sub
                &&& a.next_sub == (if prev_sub == Some(m) {
                    Some(l)
                } else {
                    b.next_sub
                })
            }
        &&& forall|n: NodeKey| #[trigger]
            self.nodes@.contains_key(n) ==> {
                let a = self.nodes@[n];
                let b = before.nodes@[n];
                &&& same_but_links(a, b)
                &&& a.dep_list@ == (if n == sub {
                    b.dep_list@.insert(at, l)
                } else {
                    b.dep_list@
                })
                &&& a.sub_list@ == (if n == dep {
                    b.sub_list@.push(l)
                } else {
                    b.sub_list@
                })
                &&& a.deps == (if n == sub && prev_dep is None {
                    Some(l)
                } else {
                    b.deps
                })
                &&& a.deps_tail == (if n == sub {
                    Some(l)
                } else {
                    b.deps_tail
                })
                &&& a.subs == (if n == dep && prev_sub is None {
                    Some(l)
                } else {
                    b.subs
                })
                &&& a.subs_tail == (if n == dep {
                    Some(l)
                } else {
                    b.subs_tail
                })
            }
    }

    proof fn lemma_link_put_deps(
        &self,
        before: &ReactiveSystem,
        l: LinkKey,
        dep: NodeKey,
        sub: NodeKey,
        version: usize,
        n: NodeKey,
    )
        requires
            before.wf(),
            before.nodes@.contains_key(dep),
            before.nodes@.contains_key(sub),
            self.link_put(before, l, dep, sub, version),
            self.nodes@.contains_key(n),
        ensures
            self.deps_wf(n),
    {
        assert(before.node_wf(sub, None));
        assert(before.node_wf(n, None));
        let s = before.dep_list(sub);
        let at = before.cursor_place(sub);
        assert(0 <= at <= s.len()) by {
            match before.nodes@[sub].deps_tail {
                Some(t) => {
                    assert(s.contains(t));
                },
                None => {},
            }
        }
        assert(before.nodes@[sub].deps_tail == opt_at(s, at - 1)) by {
            match before.nodes@[sub].deps_tail {
                Some(t) => {
                    assert(s.contains(t));
                },
                None => {},
            }
        }
        assert(!s.contains(l)) by {
            if s.contains(l) {
                let x = choose|x: int| 0 <= x < s.len() && s[x] == l;
                assert(before.links@.contains_key(s[x]));
            }
        }
        if n == sub {
            assert forall|x: int| 0 <= x < s.len() implies (self.prev_dep_of())(#[trigger] s[x])
                == (if x == at {
                Some(l)
            } else {
                (before.prev_dep_of())(s[x])
            }) by {
                assert(before.links@.contains_key(s[x]));
                if before.next_tracked(sub) == Some(s[x]) {
                    assert(s[at] == s[x]);
                }
            }
            assert forall|x: int| 0 <= x < s.len() implies (self.next_dep_of())(#[trigger] s[x])
                == (if x == at - 1 {
                Some(l)
            } else {
                (before.next_dep_of())(s[x])
            }) by {
                assert(before.links@.contains_key(s[x]));
                if before.nodes@[sub].deps_tail == Some(s[x]) {
                    assert(s[at - 1] == s[x]);
                }
            }
            lemma_chained_insert(
                s,
                before.prev_dep_of(),
                before.next_dep_of(),
                at,
                l,
                self.prev_dep_of(),
                self.next_dep_of(),
            );
            let t = s.insert(at, l);
            assert(self.dep_list(n) == t);
            assert forall|x: int| 0 <= x < t.len() implies self.links@.contains_key(
                #[trigger] t[x],
            ) && self.links@[t[x]].sub == n by {
                assert(t.contains(t[x]));
                if t[x] != l {
                    assert(s.contains(t[x]));
                    assert(before.links@.contains_key(t[x]));
                }
            }
            if at == 0 {
                assert(t[0] == l);
            } else {
                assert(t[0] == s[0]);
            }
        } else {
            let d = before.dep_list(n);
            assert forall|x: int| 0 <= x < d.len() implies (self.prev_dep_of())(#[trigger] d[x])
                == (before.prev_dep_of())(d[x]) && (self.next_dep_of())(d[x]) == (
            before.next_dep_of())(d[x]) && self.links@.contains_key(d[x]) && self.links@[d[x]].sub
                == n by {
                let m = d[x];
                assert(before.links@.contains_key(m));
                assert(before.links@[m].sub == n);
                if before.next_tracked(sub) == Some(m) {
                    assert(s[at] == m);
                }
                if before.nodes@[sub].deps_tail == Some(m) {
                    assert(s[at - 1] == m);
                }
            }
            lemma_chained_frame(
                d,
                before.prev_dep_of(),
                before.next_dep_of(),
                self.prev_dep_of(),
                self.next_dep_of(),
            );
        }
    }

    proof fn lemma_link_put_subs(
        &self,
        before: &ReactiveSystem,
        l: LinkKey,
        dep: NodeKey,
        sub: NodeKey,
        version: usize,
        n: NodeKey,
    )
        requires
            before.wf(),
            before.nodes@.contains_key(dep),
            before.nodes@.contains_key(sub),
            self.link_put(before, l, dep, sub, version),
            self.nodes@.contains_key(n),
        ensures
            self.subs_wf(n),
    {
        assert(before.node_wf(dep, None));
        assert(before.node_wf(n, None));
        let s = before.sub_list(dep);
        let at = s.len() as int;
        assert(!s.contains(l)) by {
            if s.contains(l) {
                let x = choose|x: int| 0 <= x < s.len() && s[x] == l;
                assert(before.links@.contains_key(s[x]));
            }
        }
        if n == dep {
            assert forall|x: int| 0 <= x < s.len() implies (self.prev_sub_of())(#[trigger] s[x])
                == (if x == at {
                Some(l)
            } else {
                (before.prev_sub_of())(s[x])
            }) by {
                assert(before.links@.contains_key(s[x]));
            }
            assert forall|x: int| 0 <= x < s.len() implies (self.next_sub_of())(#[trigger] s[x])
                == (if x == at - 1 {
                Some(l)
            } else {
                (before.next_sub_of())(s[x])
            }) by {
                assert(before.links@.contains_key(s[x]));
                if before.nodes@[dep].subs_tail == Some(s[x]) {
                    assert(s[at - 1] == s[x]);
                }
            }
            lemma_chained_insert(
                s,
                before.prev_sub_of(),
                before.next_sub_of(),
                at,
                l,
                self.prev_sub_of(),
                self.next_sub_of(),
            );
            let t = s.insert(at, l);
            assert(t =~= s.push(l));
            assert(self.sub_list(n) == t);
            assert forall|x: int| 0 <= x < t.len() implies self.links@.contains_key(
                #[trigger] t[x],
            ) && self.links@[t[x]].dep == n by {
                assert(t.contains(t[x]));
                if t[x] != l {
                    assert(s.contains(t[x]));
                    assert(before.links@.contains_key(t[x]));
                }
            }
            if at == 0 {
                assert(t[0] == l);
            } else {
                assert(t[0] == s[0]);
            }
            assert(t[t.len() - 1] == l);
        } else {
            let d = before.sub_list(n);
            assert forall|x: int| 0 <= x < d.len() implies (self.prev_sub_of())(#[trigger] d[x])
                == (before.prev_sub_of())(d[x]) && (self.next_sub_of())(d[x]) == (
            before.next_sub_of())(d[x]) && self.links@.contains_key(d[x]) && self.links@[d[x]].dep
                == n by {
                let m = d[x];
                assert(before.links@.contains_key(m));
                assert(before.links@[m].dep == n);
                if before.nodes@[dep].subs_tail == Some(m) {
                    assert(s[at - 1] == m);
                }
            }
            lemma_chained_frame(
                d,
                before.prev_sub_of(),
                before.next_sub_of(),
                self.prev_sub_of(),
                self.next_sub_of(),
            );
        }
    }

    /// Putting a fresh link into a consistent graph leaves it consistent.
    pub proof fn lemma_link_put(
        &self,
        before: &ReactiveSystem,
        l: LinkKey,
        dep: NodeKey,
        sub: NodeKey,
        version: usize,
    )
        requires
            before.wf(),
            before.nodes@.contains_key(dep),
            before.nodes@.contains_key(sub),
            self.link_put(before, l, dep, sub, version),
        ensures
            self.wf(),
    {
        assert forall|n: NodeKey| self.nodes@.contains_key(n) implies #[trigger] self.node_wf(
            n,
            None,
        ) by {
            assert(before.node_wf(n, None));
            self.lemma_link_put_deps(before, l, dep, sub, version, n);
            self.lemma_link_put_subs(before, l, dep, sub, version, n);
            let c = before.child_list(n);
            assert forall|x: int| 0 <= x < c.len() implies {
                let m = #[trigger] c[x];
                &&& self.nodes@.contains_key(m)
                &&& self.nodes@[m].parent == before.nodes@[m].parent
                &&& self.nodes@[m].prev == before.nodes@[m].prev
                &&& self.nodes@[m].next == before.nodes@[m].next
            } by {
                assert(before.nodes@.contains_key(c[x]));
            }
            self.lemma_keep_children(before, n);
            match before.nodes@[n].parent {
                Some(p) => {
                    assert(self.nodes@.contains_key(p));
                },
                None => {},
            }
        }
        let s = before.dep_list(sub);
        let at = before.cursor_place(sub);
        let u = before.sub_list(dep);
        assert(before.node_wf(sub, None));
        assert(0 <= at <= s.len()) by {
            match before.nodes@[sub].deps_tail {
                Some(t) => {
                    assert(s.contains(t));
                },
                None => {},
            }
        }
        assert(self.nodes@.contains_key(sub));
        assert(self.nodes@.contains_key(dep));
        assert forall|m: LinkKey| self.links@.contains_key(m) implies #[trigger] self.link_wf(
            m,
        ) by {
            if m == l {
                assert(s.insert(at, l)[at] == l);
                assert(u.push(l)[u.len() as int] == l);
            } else {
                assert(before.links@.contains_key(m));
                assert(before.link_wf(m));
                let b = before.links@[m];
                assert(self.nodes@.contains_key(b.dep));
                assert(self.nodes@.contains_key(b.sub));
                if b.sub == sub {
                    let x = choose|x: int| 0 <= x < s.len() && s[x] == m;
                    assert(s.insert(at, l)[if x < at {
                        x
                    } else {
                        x + 1
                    }] == m);
                }
                if b.dep == dep {
                    let x = choose|x: int| 0 <= x < u.len() && u[x] == m;
                    assert(u.push(l)[x] == m);
                }
            }
        }
    }

    /// Allocates a link from `dep` to `sub` and splices it in: behind the
    /// cursor of `sub`, at the tail of the subscribers of `dep`.
    pub(crate) fn attach_link(&mut self, dep: NodeKey, sub: NodeKey, version: usize) -> (r: LinkKey)
        requires
            old(self).wf(),
            old(self).nodes@.contains_key(dep),
            old(self).nodes@.contains_key(sub),
            old(self).links@.len() < ARENA_CAPACITY,
        ensures
            final(self).wf(),
            final(self).link_put(old(self), r, dep, sub, version),
    {
        let ghost s = self.dep_list(sub);
        let ghost at = self.cursor_place(sub);
        let ghost u = self.sub_list(dep);
        proof {
            assert(self.node_wf(sub, None));
            assert(self.node_wf(dep, None));
            match self.nodes@[sub].deps_tail {
                Some(t) => {
                    assert(s.contains(t));
                    lemma_chained_at(s, self.prev_dep_of(), self.next_dep_of(), at - 1);
                },
                None => {},
            }
        }
        let (prev_dep, head) = match self.nodes.get(sub) {
            Some(n) => (n.deps_tail, n.deps),
            None => (None, None),
        };
        let next_dep = match prev_dep {
            Some(pd) => match self.links.get(pd) {
                Some(x) => x.next_dep,
                None => None,
            },
            None => head,
        };
        assert(next_dep == self.next_tracked(sub));
        let prev_sub = match self.nodes.get(dep) {
            Some(n) => n.subs_tail,
            None => None,
        };
        let new_link = self.links.insert(
            Link { version, dep, sub, prev_dep, next_dep, prev_sub, next_sub: None },
        );
        let n = self.nodes.slot_mut(sub);
        n.deps_tail = Some(new_link);
        if prev_dep.is_none() {
            n.deps = Some(new_link);
        }
        n.dep_list = Ghost(s.insert(at, new_link));
        let n = self.nodes.slot_mut(dep);
        n.subs_tail = Some(new_link);
        if prev_sub.is_none() {
            n.subs = Some(new_link);
        }
        n.sub_list = Ghost(u.push(new_link));
        if let Some(nd) = next_dep {
            assert(s[at] == nd);
            let x = self.links.slot_mut(nd);
            x.prev_dep = Some(new_link);
        }
        if let Some(pd) = prev_dep {
            assert(s[at - 1] == pd);
            let x = self.links.slot_mut(pd);
            x.next_dep = Some(new_link);
        }
        if let Some(ps) = prev_sub {
            assert(u[u.len() - 1] == ps);
            let x = self.links.slot_mut(ps);
            x.next_sub = Some(new_link);
        }
        proof {
            assert(self.link_put(old(self), new_link, dep, sub, version));
            self.lemma_link_put(old(self), new_link, dep, sub, version);
        }
        new_link
    }

    /// The cursor of `sub` already stands on a link to `dep`.
    pub open spec fn tracked_last(&self, dep: NodeKey, sub: NodeKey) -> bool {
        self.nodes@[sub].deps_tail matches Some(t) && self.links@[t].dep == dep
    }

    /// The link right behind the cursor of `sub` leads to `dep`.
    pub open spec fn tracked_next(&self, dep: NodeKey, sub: NodeKey) -> bool {
        self.next_tracked(sub) matches Some(x) && self.links@[x].dep == dep
    }

    /// The newest subscriber link of `dep` leads to `sub` and was made in
    /// this cycle.
    pub open spec fn subscribed_now(&self, dep: NodeKey, sub: NodeKey, version: usize) -> bool {
        self.nodes@[dep].subs_tail matches Some(ps) && self.links@[ps].version == version
            && self.links@[ps].sub == sub
    }

    /// `self` is `before` with the cursor of `sub` moved onto the link `x`,
    /// and that link stamped with `version`.
    pub open spec fn link_refreshed(
        &self,
        before: &ReactiveSystem,
        sub: NodeKey,
        x: LinkKey,
        version: usize,
    ) -> bool {
        &&& self.same_but_graph(before)
        &&& self.links@ =~= before.links@.insert(
            x,
            (Link { version: version, ..before.links@[x] }),
        )
        &&& self.nodes@ =~= before.nodes@.insert(
            sub,
            (ReactiveNode { deps_tail: Some(x), ..before.nodes@[sub] }),
        )
    }

    /// Whether `link` makes a link: the cursor of `sub` stands neither on
    /// `dep` nor before it, and `dep` did not gain `sub` as its newest
    /// subscriber in this cycle.
    pub open spec fn link_missing(&self, dep: NodeKey, sub: NodeKey, version: usize) -> bool {
        &&& !self.tracked_last(dep, sub)
        &&& !self.tracked_next(dep, sub)
        &&& !self.subscribed_now(dep, sub, version)
    }

    /// `self` is what `link` makes of `before`.
    pub open spec fn link_done(
        &self,
        before: &ReactiveSystem,
        dep: NodeKey,
        sub: NodeKey,
        version: usize,
    ) -> bool {
        if before.tracked_last(dep, sub) {
            *self == *before
        } else if before.tracked_next(dep, sub) {
            self.link_refreshed(before, sub, before.next_tracked(sub)->0, version)
        } else if before.subscribed_now(dep, sub, version) {
            *self == *before
        } else {
            exists|l: LinkKey| self.link_put(before, l, dep, sub, version)
        }
    }

    /// Records that `sub` read `dep` in the cycle `version`. Nothing happens
    /// where the cursor of `sub` stands on `dep` already, or where `dep`
    /// gained `sub` as its newest subscriber in this cycle. Where the link
    /// behind the cursor leads to `dep`, the cursor moves onto it and the link
    /// takes the version. Otherwise a link is made and spliced in behind the
    /// cursor; only then the arena of links must have room.
    pub fn link(&mut self, dep: NodeKey, sub: NodeKey, version: usize)
        requires
            old(self).wf(),
            old(self).nodes@.contains_key(dep),
            old(self).nodes@.contains_key(sub),
            old(self).link_missing(dep, sub, version) ==> old(self).links@.len() < ARENA_CAPACITY,
        ensures
            final(self).wf(),
            final(self).link_done(old(self), dep, sub, version),
    {
        proof {
            assert(self.node_wf(sub, None));
            assert(self.node_wf(dep, None));
            match self.nodes@[sub].deps_tail {
                Some(t) => {
                    let d = self.dep_list(sub);
                    assert(d.contains(t));
                    lemma_chained_at(d, self.prev_dep_of(), self.next_dep_of(), d.index_of(t));
                },
                None => {},
            }
        }
        let (prev_dep, head) = match self.nodes.get(sub) {
            Some(n) => (n.deps_tail, n.deps),
            None => (None, None),
        };
        let next_dep = match prev_dep {
            Some(pd) => match self.links.get(pd) {
                Some(x) => {
                    if x.dep == dep {
                        return ;
                    }
                    x.next_dep
                },
                None => None,
            },
            None => head,
        };
        assert(next_dep == self.next_tracked(sub));
        if let Some(nd) = next_dep {
            assert(self.dep_list(sub)[self.cursor_place(sub)] == nd);
            let same_dep = match self.links.get(nd) {
                Some(x) => x.dep == dep,
                None => false,
            };
            if same_dep {
                let x = self.links.slot_mut(nd);
                x.version = version;
                let n = self.nodes.slot_mut(sub);
                n.deps_tail = Some(nd);
                proof {
                    self.lemma_keep_inv_nodes(old(self), None);
                }
                return ;
            }
        }
        let prev_sub = match self.nodes.get(dep) {
            Some(n) => n.subs_tail,
            None => None,
        };
        if let Some(ps) = prev_sub {
            assert(self.sub_list(dep)[self.sub_list(dep).len() - 1] == ps);
            let newest = match self.links.get(ps) {
                Some(x) => x.version == version && x.sub == sub,
                None => false,
            };
            if newest {
                return ;
            }
        }
        let _ = self.attach_link(dep, sub, version);
    }

    /// Booking a read changes no node but in its link lists.
    pub proof fn lemma_link_done_keeps(
        &self,
        before: &ReactiveSystem,
        dep: NodeKey,
        sub: NodeKey,
        version: usize,
    )
        requires
            before.nodes@.contains_key(sub),
            self.link_done(before, dep, sub, version),
        ensures
            self.same_but_graph(before),
            self.nodes@.dom() =~= before.nodes@.dom(),
            forall|n: NodeKey| #[trigger]
                self.nodes@.contains_key(n) ==> same_but_links(self.nodes@[n], before.nodes@[n]),
    {
        if before.tracked_last(dep, sub) {
        } else if before.tracked_next(dep, sub) {
        } else if before.subscribed_now(dep, sub, version) {
        } else {
            let l = choose|l: LinkKey| self.link_put(before, l, dep, sub, version);
            assert(self.link_put(before, l, dep, sub, version));
        }
    }
}

} // verus!
