use crate::chain::lemma_chained_at;
use crate::flags::RECURSED;
use crate::keys::LinkKey;
use crate::keys::NodeKey;
use crate::system::ReactiveSystem;
use crate::types::ReactiveNode;
use vstd::prelude::*;

verus! {

impl ReactiveSystem {
    /// The cleanup callbacks that disposing of `node` calls, in the order of
    /// the calls: first those of its children that are effects or scopes,
    /// child by child from the newest on and each with its own descendants
    /// first, then the node's own, the one registered last first. `fuel`
    /// bounds the depth that is entered.
    pub open spec fn cleanup_order(&self, node: NodeKey, fuel: nat) -> Seq<u64>
        decreases fuel, 0nat,
    {
        if fuel == 0 {
            self.nodes@[node].cleanups@.reverse()
        } else {
            self.children_order(self.child_list(node), (fuel - 1) as nat)
                + self.nodes@[node].cleanups@.reverse()
        }
    }

    /// The cleanup callbacks of the given children, taken one child after the
    /// other.
    pub open spec fn children_order(&self, kids: Seq<NodeKey>, fuel: nat) -> Seq<u64>
        decreases fuel, kids.len() + 1,
    {
        if kids.len() == 0 {
            Seq::empty()
        } else {
            (if self.nodes@[kids[0]].inner.is_scope_like() {
                self.cleanup_order(kids[0], fuel)
            } else {
                Seq::empty()
            }) + self.children_order(kids.drop_first(), fuel)
        }
    }

    /// Whether disposing of `node` calls the cleanup callbacks of `n`: it is
    /// the node itself, or is such a node for one of its children that are
    /// effects or scopes. `fuel` bounds the depth that is entered.
    pub open spec fn cleanup_owner(&self, node: NodeKey, fuel: nat, n: NodeKey) -> bool
        decreases fuel,
    {
        n == node || (fuel > 0 && exists|j: int|
            0 <= j < self.child_list(node).len() && self.nodes@[#[trigger] self.child_list(
                node,
            )[j]].inner.is_scope_like() && self.cleanup_owner(
                self.child_list(node)[j],
                (fuel - 1) as nat,
                n,
            ))
    }

    /// Whose cleanup callbacks are called hangs on the scope tree and the
    /// kinds of the nodes alone.
    pub proof fn lemma_same_cleanup_owner(
        &self,
        before: &ReactiveSystem,
        node: NodeKey,
        fuel: nat,
        n: NodeKey,
    )
        requires
            before.wf(),
            before.nodes@.contains_key(node),
            forall|m: NodeKey| #[trigger]
                before.nodes@.contains_key(m) ==> self.nodes@[m].child_list
                    == before.nodes@[m].child_list && self.nodes@[m].inner
                    == before.nodes@[m].inner,
        ensures
            self.cleanup_owner(node, fuel, n) == before.cleanup_owner(node, fuel, n),
        decreases fuel,
    {
        if fuel > 0 {
            assert(self.nodes@[node].child_list == before.nodes@[node].child_list);
            assert(before.node_wf(node, None));
            let kids = self.child_list(node);
            assert forall|j: int| 0 <= j < kids.len() implies self.nodes@[kids[j]].inner
                == before.nodes@[kids[j]].inner && self.cleanup_owner(
                kids[j],
                (fuel - 1) as nat,
                n,
            ) == before.cleanup_owner(kids[j], (fuel - 1) as nat, n) by {
                assert(before.nodes@.contains_key(kids[j]));
                self.lemma_same_cleanup_owner(before, kids[j], (fuel - 1) as nat, n);
                assert(self.nodes@[kids[j]].inner == before.nodes@[kids[j]].inner);
            }
            if self.cleanup_owner(node, fuel, n) && n != node {
                let j = choose|j: int|
                    0 <= j < kids.len() && self.nodes@[#[trigger] kids[j]].inner.is_scope_like()
                        && self.cleanup_owner(kids[j], (fuel - 1) as nat, n);
                assert(before.nodes@[kids[j]].inner.is_scope_like() && before.cleanup_owner(
                    kids[j],
                    (fuel - 1) as nat,
                    n,
                ));
            }
            if before.cleanup_owner(node, fuel, n) && n != node {
                let j = choose|j: int|
                    0 <= j < kids.len() && before.nodes@[#[trigger] kids[j]].inner.is_scope_like()
                        && before.cleanup_owner(kids[j], (fuel - 1) as nat, n);
                assert(self.nodes@[kids[j]].inner.is_scope_like() && self.cleanup_owner(
                    kids[j],
                    (fuel - 1) as nat,
                    n,
                ));
            }
        }
    }

    /// `self` is `before` with the cleanup callbacks that disposing of `node`
    /// calls forgotten: the lists of their owners are empty, and nothing else
    /// changed.
    pub open spec fn cleanups_taken(&self, before: &ReactiveSystem, node: NodeKey) -> bool {
        &&& self.same_but_cleanups(before)
        &&& forall|n: NodeKey| #[trigger]
            self.nodes@.contains_key(n) ==> self.nodes@[n].cleanups@ == (if before.cleanup_owner(
                node,
                before.room_below(node),
                n,
            ) {
                Seq::<u64>::empty()
            } else {
                before.nodes@[n].cleanups@
            })
    }

    /// The nodes differ at most in their lists of cleanup callbacks.
    pub open spec fn same_but_cleanups(&self, before: &ReactiveSystem) -> bool {
        &&& self.same_but_nodes(before)
        &&& self.nodes@.dom() =~= before.nodes@.dom()
        &&& forall|n: NodeKey| #[trigger]
            self.nodes@.contains_key(n) ==> self.nodes@[n] == (ReactiveNode {
                cleanups: self.nodes@[n].cleanups,
                ..before.nodes@[n]
            })
    }

    /// A graph stays consistent while only lists of cleanup callbacks change.
    pub proof fn lemma_keep_wf_cleanups(&self, before: &ReactiveSystem)
        requires
            before.wf(),
            self.same_but_cleanups(before),
        ensures
            self.wf(),
    {
        self.lemma_keep_inv_nodes(before, None);
    }

    /// Registers a cleanup callback, by its handle, on the current scope. It
    /// is called when that scope is disposed of, or, if the scope is an
    /// effect, before the effect runs again.
    pub fn on_cleanup(&mut self, callback: u64)
        requires
            old(self).wf(),
            old(self).nodes@.contains_key(old(self).current_scope),
        ensures
            final(self).wf(),
            final(self).same_but_cleanups(old(self)),
            forall|n: NodeKey| #[trigger]
                final(self).nodes@.contains_key(n) ==> final(self).nodes@[n].cleanups@ == (if n
                    == old(self).current_scope {
                    old(self).nodes@[n].cleanups@.push(callback)
                } else {
                    old(self).nodes@[n].cleanups@
                }),
    {
        let scope = self.current_scope;
        let n = self.nodes.slot_mut(scope);
        n.cleanups.push(callback);
        proof {
            self.lemma_keep_wf_cleanups(old(self));
        }
    }

    /// The order of the cleanup callbacks hangs on the scope tree, the kinds
    /// of the nodes and their lists of callbacks alone.
    pub proof fn lemma_same_cleanup_order(&self, before: &ReactiveSystem, node: NodeKey, fuel: nat)
        requires
            forall|n: NodeKey|
                (#[trigger] self.nodes@[n]).child_list == before.nodes@[n].child_list
                    && self.nodes@[n].inner == before.nodes@[n].inner && self.nodes@[n].cleanups
                    == before.nodes@[n].cleanups,
        ensures
            self.cleanup_order(node, fuel) == before.cleanup_order(node, fuel),
        decreases fuel, 0nat,
    {
        if fuel > 0 {
            assert(self.nodes@[node].child_list == before.nodes@[node].child_list);
            self.lemma_same_children_order(before, self.child_list(node), (fuel - 1) as nat);
        }
        assert(self.nodes@[node].cleanups == before.nodes@[node].cleanups);
    }

    /// The same, for the children taken one after the other.
    pub proof fn lemma_same_children_order(
        &self,
        before: &ReactiveSystem,
        kids: Seq<NodeKey>,
        fuel: nat,
    )
        requires
            forall|n: NodeKey|
                (#[trigger] self.nodes@[n]).child_list == before.nodes@[n].child_list
                    && self.nodes@[n].inner == before.nodes@[n].inner && self.nodes@[n].cleanups
                    == before.nodes@[n].cleanups,
        ensures
            self.children_order(kids, fuel) == before.children_order(kids, fuel),
        decreases fuel, kids.len() + 1,
    {
        if kids.len() > 0 {
            assert(self.nodes@[kids[0]].inner == before.nodes@[kids[0]].inner);
            self.lemma_same_cleanup_order(before, kids[0], fuel);
            self.lemma_same_children_order(before, kids.drop_first(), fuel);
        }
    }

    /// A child lies one level below its parent.
    pub proof fn lemma_child_depth(&self, node: NodeKey, i: int)
        requires
            self.wf(),
            self.nodes@.contains_key(node),
            0 <= i < self.child_list(node).len(),
        ensures
            self.nodes@.contains_key(self.child_list(node)[i]),
            self.room_below(self.child_list(node)[i]) + 1 == self.room_below(node),
            self.nodes@[self.child_list(node)[i]].next == crate::chain::opt_at(
                self.child_list(node),
                i + 1,
            ),
    {
        let c = self.child_list(node)[i];
        assert(self.node_wf(node, None));
        assert(self.nodes@.contains_key(c));
        assert(self.node_wf(c, None));
        lemma_chained_at(self.child_list(node), self.prev_of(), self.next_of(), i);
    }

    /// Appends to `out` the cleanup callbacks that disposing of `node` calls,
    /// in the order of the calls.
    fn gather_cleanups(&self, node: NodeKey, out: &mut Vec<u64>)
        requires
            self.wf(),
            self.nodes@.contains_key(node),
        ensures
            final(out)@ == old(out)@ + self.cleanup_order(node, self.room_below(node)),
        decreases self.room_below(node),
    {
        let ghost out0 = out@;
        let ghost kids = self.child_list(node);
        let ghost fuel = self.room_below(node);
        let n = match self.nodes.get(node) {
            Some(n) => n,
            None => {
                return ;
            },
        };
        let mut cur = n.child;
        let ghost mut i: int = 0;
        proof {
            assert(self.node_wf(node, None));
            assert(kids.skip(0) =~= kids);
            if kids.len() > 0 {
                self.lemma_child_depth(node, 0);
            }
        }
        loop
            invariant
                self.wf(),
                self.nodes@.contains_key(node),
                kids == self.child_list(node),
                fuel == self.room_below(node),
                0 <= i <= kids.len(),
                cur == crate::chain::opt_at(kids, i),
                kids.len() > 0 ==> fuel > 0,
                out@ + self.children_order(kids.skip(i), (fuel - 1) as nat) == out0
                    + self.children_order(kids, (fuel - 1) as nat),
            ensures
                out@ == out0 + self.children_order(kids, (fuel - 1) as nat),
            decreases kids.len() - i,
        {
            let child = match cur {
                Some(c) => c,
                None => {
                    proof {
                        assert(kids.skip(i).len() == 0);
                        assert(out@ + Seq::<u64>::empty() =~= out@);
                    }
                    break ;
                },
            };
            proof {
                self.lemma_child_depth(node, i);
                assert(kids.skip(i)[0] == child);
                assert(kids.skip(i).drop_first() =~= kids.skip(i + 1));
            }
            let (scope_like, next) = match self.nodes.get(child) {
                Some(c) => (c.inner.scope_like(), c.next),
                None => (false, None),
            };
            let ghost before = out@;
            if scope_like {
                self.gather_cleanups(child, out);
            }
            proof {
                let rest = self.children_order(kids.skip(i + 1), (fuel - 1) as nat);
                let mine = if scope_like {
                    self.cleanup_order(child, (fuel - 1) as nat)
                } else {
                    Seq::<u64>::empty()
                };
                assert(out@ =~= before + mine);
                assert(self.children_order(kids.skip(i), (fuel - 1) as nat) == mine + rest);
                assert(out@ + rest =~= before + (mine + rest));
                i = i + 1;
            }
            cur = next;
        }
        let own = &n.cleanups;
        let mut j = own.len();
        let ghost mid = out@;
        proof {
            assert(own@.skip(j as int).reverse() =~= Seq::<u64>::empty());
            assert(mid + Seq::<u64>::empty() =~= mid);
        }
        while j > 0
            invariant
                0 <= j <= own@.len(),
                out@ == mid + own@.skip(j as int).reverse(),
            decreases j,
        {
            j = j - 1;
            out.push(own[j]);
            proof {
                assert(own@.skip(j as int) =~= seq![own@[j as int]] + own@.skip(j as int + 1));
                assert(own@.skip(j as int).reverse() =~= own@.skip(j as int + 1).reverse().push(
                    own@[j as int],
                ));
            }
        }
        proof {
            assert(own@.skip(0) =~= own@);
            if fuel == 0 {
                assert(kids.len() == 0);
                assert(mid =~= out0);
            }
            assert(out@ =~= out0 + self.cleanup_order(node, fuel));
        }
    }

    /// Empties the list of cleanup callbacks of `node` and of the effects and
    /// scopes below it.
    fn clear_cleanups(&mut self, node: NodeKey)
        requires
            old(self).wf(),
            old(self).nodes@.contains_key(node),
        ensures
            final(self).wf(),
            final(self).cleanups_taken(old(self), node),
        decreases old(self).room_below(node),
    {
        let ghost kids = self.child_list(node);
        let ghost fuel = self.room_below(node);
        let mut cur = match self.nodes.get(node) {
            Some(n) => n.child,
            None => None,
        };
        let ghost mut i: int = 0;
        proof {
            assert(self.node_wf(node, None));
            if kids.len() > 0 {
                self.lemma_child_depth(node, 0);
            }
        }
        loop
            invariant
                self.wf(),
                old(self).wf(),
                self.same_but_cleanups(old(self)),
                old(self).nodes@.contains_key(node),
                kids == old(self).child_list(node),
                fuel == old(self).room_below(node),
                kids.len() > 0 ==> fuel > 0,
                0 <= i <= kids.len(),
                cur == crate::chain::opt_at(kids, i),
                forall|n: NodeKey| #[trigger]
                    self.nodes@.contains_key(n) ==> self.nodes@[n].cleanups@ == (if exists|
                        j: int,
                    |
                        0 <= j < i && old(self).nodes@[#[trigger] kids[j]].inner.is_scope_like()
                            && old(self).cleanup_owner(kids[j], (fuel - 1) as nat, n) {
                        Seq::<u64>::empty()
                    } else {
                        old(self).nodes@[n].cleanups@
                    }),
            ensures
                i == kids.len(),
            decreases kids.len() - i,
        {
            let child = match cur {
                Some(c) => c,
                None => {
                    break ;
                },
            };
            proof {
                old(self).lemma_child_depth(node, i);
                assert(self.nodes@.contains_key(child));
                assert(self.nodes@.contains_key(node));
                assert(self.room_below(child) == old(self).room_below(child));
            }
            let (scope_like, next) = match self.nodes.get(child) {
                Some(c) => (c.inner.scope_like(), c.next),
                None => (false, None),
            };
            let ghost mid = *self;
            if scope_like {
                self.clear_cleanups(child);
            }
            proof {
                assert(self.same_but_cleanups(old(self))) by {
                    assert forall|n: NodeKey| #[trigger]
                        self.nodes@.contains_key(n) implies self.nodes@[n] == (ReactiveNode {
                        cleanups: self.nodes@[n].cleanups,
                        ..old(self).nodes@[n]
                    }) by {
                        assert(mid.nodes@.contains_key(n));
                    }
                }
                assert forall|n: NodeKey| #[trigger]
                    self.nodes@.contains_key(n) implies self.nodes@[n].cleanups@ == (if exists|
                    j: int,
                |
                    0 <= j < i + 1 && old(self).nodes@[#[trigger] kids[j]].inner.is_scope_like()
                        && old(self).cleanup_owner(kids[j], (fuel - 1) as nat, n) {
                    Seq::<u64>::empty()
                } else {
                    old(self).nodes@[n].cleanups@
                }) by {
                    assert(mid.nodes@.contains_key(n));
                    let before_hit = exists|j: int|
                        0 <= j < i && old(self).nodes@[#[trigger] kids[j]].inner.is_scope_like()
                            && old(self).cleanup_owner(kids[j], (fuel - 1) as nat, n);
                    let after_hit = exists|j: int|
                        0 <= j < i + 1 && old(
                            self,
                        ).nodes@[#[trigger] kids[j]].inner.is_scope_like() && old(
                            self,
                        ).cleanup_owner(kids[j], (fuel - 1) as nat, n);
                    let here = old(self).nodes@[kids[i]].inner.is_scope_like() && old(
                        self,
                    ).cleanup_owner(kids[i], (fuel - 1) as nat, n);
                    assert forall|m: NodeKey| #[trigger]
                        old(self).nodes@.contains_key(m) implies mid.nodes@[m].child_list == old(
                        self,
                    ).nodes@[m].child_list && mid.nodes@[m].inner == old(
                        self,
                    ).nodes@[m].inner by {
                        assert(mid.nodes@.contains_key(m));
                    }
                    mid.lemma_same_cleanup_owner(old(self), child, (fuel - 1) as nat, n);
                    assert(mid.room_below(child) == (fuel - 1) as nat);
                    if before_hit {
                        let j = choose|j: int|
                            0 <= j < i && old(
                                self,
                            ).nodes@[#[trigger] kids[j]].inner.is_scope_like() && old(
                                self,
                            ).cleanup_owner(kids[j], (fuel - 1) as nat, n);
                        assert(0 <= j < i + 1 && old(self).nodes@[kids[j]].inner.is_scope_like());
                        assert(after_hit);
                    }
                    if here {
                        assert(0 <= i < i + 1 && old(self).nodes@[kids[i]].inner.is_scope_like());
                        assert(after_hit);
                    }
                    if after_hit && !here {
                        let j = choose|j: int|
                            0 <= j < i + 1 && old(
                                self,
                            ).nodes@[#[trigger] kids[j]].inner.is_scope_like() && old(
                                self,
                            ).cleanup_owner(kids[j], (fuel - 1) as nat, n);
                        assert(j < i);
                        assert(before_hit);
                    }
                }
                i = i + 1;
            }
            cur = next;
        }
        let ghost mid = *self;
        assert(self.nodes@.contains_key(node));
        let n = self.nodes.slot_mut(node);
        n.cleanups.clear();
        proof {
            assert(self.same_but_cleanups(&mid));
            assert(self.same_but_cleanups(old(self))) by {
                assert forall|n: NodeKey| #[trigger]
                    self.nodes@.contains_key(n) implies self.nodes@[n] == (ReactiveNode {
                    cleanups: self.nodes@[n].cleanups,
                    ..old(self).nodes@[n]
                }) by {
                    assert(mid.nodes@.contains_key(n));
                }
            }
            assert forall|n: NodeKey| #[trigger]
                self.nodes@.contains_key(n) implies self.nodes@[n].cleanups@ == (if old(
                self,
            ).cleanup_owner(node, fuel, n) {
                Seq::<u64>::empty()
            } else {
                old(self).nodes@[n].cleanups@
            }) by {
                assert(mid.nodes@.contains_key(n));
                if n != node && fuel > 0 {
                    let hit = exists|j: int|
                        0 <= j < kids.len() && old(
                            self,
                        ).nodes@[#[trigger] kids[j]].inner.is_scope_like() && old(
                            self,
                        ).cleanup_owner(kids[j], (fuel - 1) as nat, n);
                    assert(old(self).cleanup_owner(node, fuel, n) == hit);
                }
            }
            self.lemma_keep_wf_cleanups(old(self));
        }
    }

    /// Hands out the cleanup callbacks that disposing of `node` calls, in the
    /// order in which the caller is to call them, and forgets them: those of
    /// the effects and scopes among its children first, each with its own
    /// descendants first, then the node's own, the one registered last first.
    /// A key that names no node yields nothing.
    pub fn cleanup_scope(&mut self, node: NodeKey) -> (r: Vec<u64>)
        requires
            old(self).wf(),
        ensures
            final(self).wf(),
            final(self).same_but_cleanups(old(self)),
            r@ == (if old(self).nodes@.contains_key(node) {
                old(self).cleanup_order(node, old(self).room_below(node))
            } else {
                Seq::<u64>::empty()
            }),
            old(self).nodes@.contains_key(node) ==> final(self).nodes@[node].cleanups@.len() == 0,
            forall|n: NodeKey| #[trigger]
                final(self).nodes@.contains_key(n) ==> final(self).nodes@[n].cleanups@.len() == 0
                    || final(self).nodes@[n].cleanups@ == old(self).nodes@[n].cleanups@,
            if old(self).nodes@.contains_key(node) {
                final(self).cleanups_taken(old(self), node)
            } else {
                *final(self) == *old(self)
            },
    {
        let mut out: Vec<u64> = Vec::new();
        if self.nodes.contains_key(node) {
            self.gather_cleanups(node, &mut out);
            self.clear_cleanups(node);
            proof {
                assert(Seq::<u64>::empty() + old(self).cleanup_order(
                    node,
                    old(self).room_below(node),
                ) =~= old(self).cleanup_order(node, old(self).room_below(node)));
            }
        } else {
            proof {
                assert(self.same_but_cleanups(old(self)));
            }
        }
        out
    }

    /// `self` is what disposing of `node` makes of `before`: the node is
    /// purged as a scope is, and then, if that left it alive and it is not
    /// the root, it is dropped. So nothing was added, and the node is gone; a
    /// key that named no node changed nothing; the root stays, with no child
    /// and no link.
    pub open spec fn scope_disposed(&self, before: &ReactiveSystem, node: NodeKey) -> bool {
        &&& self.shrunk(before)
        &&& !before.nodes@.contains_key(node) ==> *self == *before
        &&& node != before.root ==> !self.nodes@.contains_key(node)
        &&& node == before.root ==> {
            &&& self.dep_list(node).len() == 0
            &&& self.sub_list(node).len() == 0
            &&& self.child_list(node).len() == 0
        }
        &&& before.nodes@.contains_key(node) ==> exists|a: ReactiveSystem|
            #[trigger] a.scope_purged(before, node) && if a.nodes@.contains_key(node) && node
                != before.root {
                self.node_dropped(&a, node)
            } else {
                *self == a
            }
    }

    /// Disposes of a scope or an effect, after its cleanup callbacks were
    /// called: destroys its children and its links, takes it out of its
    /// parent's list and out of the arena. A key that names no node does
    /// nothing. The root is emptied and stays.
    pub fn dispose_scope(&mut self, node: NodeKey)
        requires
            old(self).wf(),
        ensures
            final(self).wf(),
            final(self).scope_disposed(old(self), node),
    {
        if !self.nodes.contains_key(node) {
            return ;
        }
        self.purge_scope(node);
        let ghost mid = *self;
        let parent = match self.nodes.get(node) {
            Some(n) => n.parent,
            None => {
                proof {
                    assert(self.node_wf(self.root, None));
                    assert(mid.scope_purged(old(self), node));
                }
                return ;
            },
        };
        proof {
            assert(self.node_wf(node, None));
            assert(mid.scope_purged(old(self), node));
        }
        if parent.is_some() {
            self.unlink_child(node);
            let ghost cut = *self;
            assert(cut.nodes@.contains_key(node));
            self.remove_node(node);
            proof {
                assert(self.shrunk(&mid)) by {
                    let p = mid.nodes@[node].parent->0;
                    assert forall|n: NodeKey| #[trigger] self.nodes@.contains_key(n) implies {
                        let a = self.nodes@[n];
                        let b = mid.nodes@[n];
                        &&& a.inner == b.inner
                        &&& a.parent == b.parent
                        &&& a.depth == b.depth
                        &&& a.cleanups == b.cleanups
                        &&& a.contexts == b.contexts
                        &&& a.dep_list@.len() <= b.dep_list@.len()
                        &&& a.sub_list@.len() <= b.sub_list@.len()
                        &&& a.child_list@.len() <= b.child_list@.len()
                        &&& crate::teardown::demoted(a.flags, b.flags)
                    } by {
                        assert(cut.nodes@.contains_key(n));
                        assert(mid.node_wf(p, None));
                        assert(mid.child_list(p).contains(node));
                    }
                }
                self.lemma_shrunk_trans(&mid, old(self));
                let p = mid.nodes@[node].parent->0;
                assert(cut.child_cut(&mid, node, p, mid.child_list(p).index_of(node)));
                assert(self.node_dropped(&mid, node));
            }
        }
    }

    /// Where the root has no child, the root is the only node.
    pub proof fn lemma_only_root(&self, n: NodeKey)
        requires
            self.wf(),
            self.child_list(self.root).len() == 0,
            self.nodes@.contains_key(n),
        ensures
            n == self.root,
        decreases self.nodes@[n].depth@,
    {
        assert(self.node_wf(n, None));
        match self.nodes@[n].parent {
            Some(p) => {
                assert(self.child_list(p).contains(n));
                self.lemma_only_root(p);
            },
            None => {},
        }
    }

    /// `self` is what `cleanup` makes of `before`: the root is purged as a
    /// scope is. So nothing was added, the root is the only node, with no
    /// flag set, and there is no link.
    pub open spec fn cleaned(&self, before: &ReactiveSystem) -> bool {
        &&& self.shrunk(before)
        &&& self.scope_purged(before, before.root)
        &&& self.nodes@.dom() =~= set![self.root]
        &&& self.links@.dom() =~= Set::<LinkKey>::empty()
        &&& self.nodes@[self.root].flags.0 == 0
    }

    /// Disposes of everything but the root scope, after the cleanup callbacks
    /// of the root were called. The root is left alone in the arena, with no
    /// link.
    pub fn cleanup(&mut self)
        requires
            old(self).wf(),
        ensures
            final(self).wf(),
            final(self).cleaned(old(self)),
            final(self).nodes@.len() == 1,
            final(self).links@.len() == 0,
    {
        let root = self.root;
        self.purge_scope(root);
        proof {
            assert forall|n: NodeKey| self.nodes@.contains_key(n) implies n == self.root by {
                self.lemma_only_root(n);
            }
            assert(self.nodes@.dom() =~= set![self.root]);
            assert forall|l: LinkKey| !self.links@.contains_key(l) by {
                if self.links@.contains_key(l) {
                    assert(self.link_wf(l));
                    self.lemma_only_root(self.links@[l].dep);
                    assert(self.sub_list(self.root).contains(l));
                }
            }
            assert(self.links@.dom() =~= Set::<LinkKey>::empty());
        }
    }
}

} // verus!
