use crate::chain::lemma_chained_at;
use crate::flags::ReactiveFlags;
use crate::flags::BUSY;
use crate::flags::DIRTY;
use crate::flags::PENDING;
use crate::flags::RECURSED;
use crate::flags::RECURSED_CHECK;
use crate::flags::WATCHING;
use crate::keys::LinkKey;
use crate::keys::NodeKey;
use crate::system::ReactiveSystem;
use crate::types::ReactiveNode;
use vstd::prelude::*;

verus! {

/// The two nodes differ at most in their flags.
pub open spec fn same_but_flags(a: ReactiveNode, b: ReactiveNode) -> bool {
    a == (ReactiveNode { flags: a.flags, ..b })
}

/// Pending and not yet known to be dirty.
pub open spec fn only_pending(f: ReactiveFlags) -> bool {
    f.0 & (PENDING | DIRTY) == PENDING
}

/// Free of every mark that propagation leaves or respects: not executing,
/// not dirty, not pending.
pub open spec fn is_idle(f: ReactiveFlags) -> bool {
    f.0 & BUSY == 0
}

impl ReactiveSystem {
    /// The nodes have the flags that propagation may have given them; all else
    /// of the graph is as it was, and the queue only grew.
    pub open spec fn marked_from(&self, before: &ReactiveSystem) -> bool {
        &&& self.cycle == before.cycle
        &&& self.batch_depth == before.batch_depth
        &&& self.notify_index == before.notify_index
        &&& self.root == before.root
        &&& self.active_sub == before.active_sub
        &&& self.current_scope == before.current_scope
        &&& self.depth_bound == before.depth_bound
        &&& self.links == before.links
        &&& self.nodes@.dom() =~= before.nodes@.dom()
        &&& forall|n: NodeKey| #[trigger]
            self.nodes@.contains_key(n) ==> same_but_flags(self.nodes@[n], before.nodes@[n])
        &&& before.queue().is_prefix_of(self.queue())
    }

    /// The place of a link among the subscribers of its dependency.
    pub open spec fn sub_index(&self, l: LinkKey) -> int {
        self.sub_list(self.links@[l].dep).index_of(l)
    }

    /// `n` subscribes through `link` or through a link behind it in the same
    /// list of subscribers.
    pub open spec fn subscribes_from(&self, link: LinkKey, n: NodeKey) -> bool {
        let list = self.sub_list(self.links@[link].dep);
        exists|i: int|
            self.sub_index(link) <= i < list.len() && self.links@[#[trigger] list[i]].sub == n
    }

    /// The entries of the queue that are in use, oldest first.
    pub open spec fn queue(&self) -> Seq<NodeKey> {
        self.queued@.take(self.queued_length as int)
    }

    /// Everything but the queue's buffer and its length is as it was.
    pub open spec fn same_but_queue(&self, before: &ReactiveSystem) -> bool {
        &&& self.cycle == before.cycle
        &&& self.batch_depth == before.batch_depth
        &&& self.notify_index == before.notify_index
        &&& self.stack == before.stack
        &&& self.root == before.root
        &&& self.active_sub == before.active_sub
        &&& self.current_scope == before.current_scope
        &&& self.depth_bound == before.depth_bound
        &&& self.nodes == before.nodes
        &&& self.links == before.links
    }

    /// The subscriber at the head of the node's list, where that is a
    /// watching node.
    pub open spec fn watcher_above(&self, node: NodeKey) -> Option<NodeKey> {
        if self.nodes@.contains_key(node) && self.nodes@[node].subs is Some && self.links@.contains_key(
            self.nodes@[node].subs->0,
        ) && self.nodes@.contains_key(self.links@[self.nodes@[node].subs->0].sub)
            && self.nodes@[self.links@[self.nodes@[node].subs->0].sub].flags.has(WATCHING) {
            Some(self.links@[self.nodes@[node].subs->0].sub)
        } else {
            None
        }
    }

    /// The node, then the watching subscriber at the head of its list, then
    /// that one's, and so on, for `fuel` steps at most.
    pub open spec fn watch_chain(&self, node: NodeKey, fuel: nat) -> Seq<NodeKey>
        decreases fuel,
    {
        if fuel == 0 {
            seq![node]
        } else {
            match self.watcher_above(node) {
                Some(up) => seq![node] + self.watch_chain(up, (fuel - 1) as nat),
                None => seq![node],
            }
        }
    }

    /// Sets the flags of a node.
    pub(crate) fn set_flags(&mut self, node: NodeKey, flags: ReactiveFlags)
        requires
            old(self).wf(),
            old(self).nodes@.contains_key(node),
            !flags.any(RECURSED),
        ensures
            final(self).wf(),
            final(self).same_but_nodes(old(self)),
            final(self).nodes@ =~= old(self).nodes@.insert(
                node,
                (ReactiveNode { flags: flags, ..old(self).nodes@[node] }),
            ),
    {
        let n = self.nodes.slot_mut(node);
        n.flags = flags;
        proof {
            self.lemma_keep_inv_nodes(old(self), None);
        }
    }

    /// Queues an effect, and with it the chain of watching effects above it,
    /// so that the outermost comes first. The chain is followed for as many
    /// steps as there are nodes, which reaches the end of any chain that does
    /// not run in a circle.
    pub fn notify(&mut self, effect: NodeKey)
        requires
            old(self).wf(),
        ensures
            final(self).wf(),
            final(self).same_but_queue(old(self)),
            final(self).queue() == old(self).queue() + old(self).watch_chain(
                effect,
                old(self).nodes@.len(),
            ).reverse(),
    {
        let mut chain: Vec<NodeKey> = Vec::new();
        let mut cur = effect;
        let mut fuel: usize = self.nodes.len();
        let ghost total = self.watch_chain(effect, self.nodes@.len());
        loop
            invariant_except_break
                total == chain@ + self.watch_chain(cur, fuel as nat),
            invariant
                self.wf(),
                *self == *old(self),
            ensures
                total == chain@,
            decreases fuel,
        {
            let ghost rest = self.watch_chain(cur, fuel as nat);
            let ghost was = chain@;
            chain.push(cur);
            proof {
                if fuel == 0 || self.watcher_above(cur) is None {
                    assert(was + rest =~= chain@);
                }
            }
            if fuel == 0 {
                break ;
            }
            let head = match self.nodes.get(cur) {
                Some(n) => n.subs,
                None => None,
            };
            let up = match head {
                Some(l) => match self.links.get(l) {
                    Some(x) => x.sub,
                    None => {
                        assert(self.watcher_above(cur) is None);
                        break ;
                    },
                },
                None => {
                    assert(self.watcher_above(cur) is None);
                    break ;
                },
            };
            let watching = match self.nodes.get(up) {
                Some(n) => n.flags.contains(ReactiveFlags::watching()),
                None => false,
            };
            if !watching {
                assert(self.watcher_above(cur) is None);
                break ;
            }
            assert(self.watcher_above(cur) == Some(up));
            proof {
                let tail = self.watch_chain(up, (fuel - 1) as nat);
                assert(chain@ + tail =~= was + (seq![cur] + tail));
            }
            cur = up;
            fuel = fuel - 1;
        }
        let n = chain.len();
        let mut k: usize = 0;
        proof {
            assert(total.reverse().take(0) =~= Seq::<NodeKey>::empty());
            assert(self.queue() + Seq::<NodeKey>::empty() =~= self.queue());
        }
        while k < n
            invariant
                0 <= k <= n,
                n == chain@.len(),
                total == chain@,
                self.same_but_queue(old(self)),
                self.queue_wf(),
                self.queue() == old(self).queue() + total.reverse().take(k as int),
            decreases n - k,
        {
            let e = chain[n - 1 - k];
            let at = self.queued_length;
            let ghost before = self.queue();
            if at >= self.queued.len() {
                self.queued.push(e);
            } else {
                self.queued[at] = e;
            }
            let len = self.queued.len();
            assert(at < len);
            self.queued_length = at + 1;
            proof {
                assert(self.queue() =~= before.push(e));
                assert(total.reverse()[k as int] == e);
                assert(total.reverse().take(k as int + 1) =~= total.reverse().take(k as int).push(
                    e,
                ));
            }
            k = k + 1;
        }
        proof {
            assert(total.reverse().take(n as int) =~= total.reverse());
            old(self).lemma_node_facts(None);
            self.lemma_keep_inv(old(self), None);
        }
    }

    /// Whether `check_link` lies on the dependency list of `sub`, at the cursor
    /// or before it.
    pub fn is_valid_link(&self, check_link: LinkKey, sub: NodeKey) -> (r: bool)
        requires
            self.wf(),
        ensures
            r == (self.nodes@.contains_key(sub) && self.dep_list(sub).take(
                self.cursor_place(sub),
            ).contains(check_link)),
    {
        let mut link = match self.nodes.get(sub) {
            Some(n) => n.deps_tail,
            None => {
                return false;
            },
        };
        let ghost d = self.dep_list(sub);
        let ghost at = self.cursor_place(sub);
        let ghost mut i: int = at - 1;
        proof {
            assert(self.node_wf(sub, None));
            match link {
                Some(t) => {
                    assert(d.contains(t));
                },
                None => {},
            }
        }
        let mut found = false;
        loop
            invariant_except_break
                !found,
            invariant
                self.wf(),
                self.nodes@.contains_key(sub),
                d == self.dep_list(sub),
                -1 <= i < at <= d.len(),
                link == crate::chain::opt_at(d, i),
                forall|x: int| i < x < at ==> d[x] != check_link,
            ensures
                found == d.take(at).contains(check_link),
            decreases i + 1,
        {
            let key = match link {
                Some(k) => k,
                None => {
                    proof {
                        let t = d.take(at);
                        if t.contains(check_link) {
                            let x = choose|x: int| 0 <= x < t.len() && t[x] == check_link;
                            assert(d[x] == check_link);
                        }
                    }
                    break ;
                },
            };
            if key == check_link {
                proof {
                    assert(d.take(at)[i] == check_link);
                }
                found = true;
                break ;
            }
            proof {
                assert(self.node_wf(sub, None));
                lemma_chained_at(d, self.prev_dep_of(), self.next_dep_of(), i);
                assert(self.links@.contains_key(d[i]));
            }
            link = match self.links.get(key) {
                Some(x) => x.prev_dep,
                None => None,
            };
            proof {
                i = i - 1;
            }
        }
        found
    }

    /// Whether `shallow_propagate`, begun at place `from` of a list of
    /// subscriber links, queues the subscriber at place `at`: it is pending
    /// and not dirty, watching and not executing, and comes first at `at`.
    pub open spec fn shallow_noted(&self, list: Seq<LinkKey>, from: int, at: int) -> bool {
        let n = self.links@[list[at]].sub;
        &&& only_pending(self.nodes@[n].flags)
        &&& self.nodes@[n].flags.0 & (WATCHING | RECURSED_CHECK) == WATCHING
        &&& forall|j: int| from <= j < at ==> self.links@[#[trigger] list[j]].sub != n
    }

    /// What `shallow_propagate` adds to the queue for the places from `from`
    /// up to `upto` of a list of subscriber links: for each subscriber that it
    /// queues, in the order of the list, the chain of watching effects above
    /// it, the outermost first.
    pub open spec fn shallow_notes(&self, list: Seq<LinkKey>, from: int, upto: int) -> Seq<NodeKey>
        decreases upto - from,
    {
        if upto <= from {
            Seq::empty()
        } else {
            self.shallow_notes(list, from, upto - 1) + (if self.shallow_noted(
                list,
                from,
                upto - 1,
            ) {
                self.watch_chain(self.links@[list[upto - 1]].sub, self.nodes@.len()).reverse()
            } else {
                Seq::empty()
            })
        }
    }

    /// The chain of watching effects above a node hangs on the subscriber
    /// lists and on who is watching alone.
    pub proof fn lemma_watch_chain_same(&self, before: &ReactiveSystem, node: NodeKey, fuel: nat)
        requires
            self.nodes@.dom() =~= before.nodes@.dom(),
            self.links@ == before.links@,
            forall|n: NodeKey| #[trigger]
                self.nodes@.contains_key(n) ==> self.nodes@[n].subs == before.nodes@[n].subs
                    && self.nodes@[n].flags.has(WATCHING) == before.nodes@[n].flags.has(
                    WATCHING,
                ),
        ensures
            self.watch_chain(node, fuel) == before.watch_chain(node, fuel),
        decreases fuel,
    {
        if fuel > 0 {
            if self.nodes@.contains_key(node) {
                match self.nodes@[node].subs {
                    Some(l) => {
                        if self.links@.contains_key(l) {
                            let up = self.links@[l].sub;
                            if self.nodes@.contains_key(up) {
                                assert(self.nodes@[up].flags.has(WATCHING)
                                    == before.nodes@[up].flags.has(WATCHING));
                            }
                        }
                    },
                    None => {},
                }
            }
            assert(self.watcher_above(node) == before.watcher_above(node));
            match self.watcher_above(node) {
                Some(up) => {
                    self.lemma_watch_chain_same(before, up, (fuel - 1) as nat);
                },
                None => {},
            }
        }
    }

    /// `self` is what `shallow_propagate` makes of `before`: each subscriber
    /// from `link` on that was pending and not dirty is dirty now, no other
    /// flag changed, and the queue only grew.
    pub open spec fn shallow_marked(&self, before: &ReactiveSystem, link: LinkKey) -> bool {
        &&& self.marked_from(before)
        &&& forall|n: NodeKey| #[trigger]
            self.nodes@.contains_key(n) ==> self.nodes@[n].flags == (if only_pending(
                before.nodes@[n].flags,
            ) && before.subscribes_from(link, n) {
                before.nodes@[n].flags.spec_union(ReactiveFlags(DIRTY))
            } else {
                before.nodes@[n].flags
            })
        &&& self.queue() == before.queue() + before.shallow_notes(
            before.sub_list(before.links@[link].dep),
            before.sub_index(link),
            before.sub_list(before.links@[link].dep).len() as int,
        )
    }

    /// Goes once through the subscribers from `link` on. Each that is pending
    /// and not dirty becomes dirty, and is queued if it is a watching effect
    /// that is not executing.
    pub fn shallow_propagate(&mut self, link: LinkKey)
        requires
            old(self).wf(),
            old(self).links@.contains_key(link),
        ensures
            final(self).wf(),
            final(self).marked_from(old(self)),
            final(self).shallow_marked(old(self), link),
    {
        let ghost dep = self.links@[link].dep;
        let ghost list = self.sub_list(dep);
        let ghost start = self.sub_index(link);
        let ghost mut i: int = start;
        let mut cur = link;
        proof {
            assert(self.link_wf(link));
            assert(list.contains(link));
            assert(self.node_wf(dep, None));
        }
        proof {
            assert(self.queue() + Seq::<NodeKey>::empty() =~= self.queue());
        }
        loop
            invariant_except_break
                forall|n: NodeKey| #[trigger]
                    self.nodes@.contains_key(n) ==> self.nodes@[n].flags == (if only_pending(
                        old(self).nodes@[n].flags,
                    ) && (exists|j: int|
                        start <= j < i && old(self).links@[#[trigger] list[j]].sub == n) {
                        old(self).nodes@[n].flags.spec_union(ReactiveFlags(DIRTY))
                    } else {
                        old(self).nodes@[n].flags
                    }),
                self.queue() == old(self).queue() + old(self).shallow_notes(list, start, i),
            invariant
                self.wf(),
                self.marked_from(old(self)),
                old(self).wf(),
                old(self).links@.contains_key(link),
                list == old(self).sub_list(dep),
                old(self).nodes@.contains_key(dep),
                start == old(self).sub_index(link),
                dep == old(self).links@[link].dep,
                0 <= start <= i < list.len(),
                list[i] == cur,
            ensures
                self.wf(),
                self.marked_from(old(self)),
                forall|n: NodeKey| #[trigger]
                    self.nodes@.contains_key(n) ==> self.nodes@[n].flags == (if only_pending(
                        old(self).nodes@[n].flags,
                    ) && old(self).subscribes_from(link, n) {
                        old(self).nodes@[n].flags.spec_union(ReactiveFlags(DIRTY))
                    } else {
                        old(self).nodes@[n].flags
                    }),
                self.queue() == old(self).queue() + old(self).shallow_notes(
                    list,
                    start,
                    list.len() as int,
                ),
            decreases list.len() - i,
        {
            proof {
                assert(old(self).node_wf(dep, None));
                assert(old(self).links@.contains_key(list[i]));
                assert(old(self).link_wf(cur));
                lemma_chained_at(list, old(self).prev_sub_of(), old(self).next_sub_of(), i);
            }
            let (sub, next_sub) = match self.links.get(cur) {
                Some(x) => (x.sub, x.next_sub),
                None => {
                    assert(false);
                    break ;
                },
            };
            let flags = match self.nodes.get(sub) {
                Some(n) => n.flags,
                None => ReactiveFlags::none(),
            };
            let ghost mid = *self;
            let ghost mut mid2 = *self;
            let ghost f0 = old(self).nodes@[sub].flags;
            proof {
                assert(self.nodes@.contains_key(sub));
                assert(self.node_wf(sub, None));
                crate::flags::lemma_mark_dirty(flags.0);
                crate::flags::lemma_mark_dirty(f0.0);
            }
            if flags.intersection(ReactiveFlags::pending().union(ReactiveFlags::dirty())).same(
                &ReactiveFlags::pending(),
            ) {
                self.set_flags(sub, flags.union(ReactiveFlags::dirty()));
                if flags.intersection(
                    ReactiveFlags::watching().union(ReactiveFlags::recursed_check()),
                ).same(&ReactiveFlags::watching()) {
                    proof {
                        mid2 = *self;
                    }
                    self.notify(sub);
                    proof {
                        assert(mid2.queue().is_prefix_of(self.queue()));
                    }
                }
            }
            proof {
                let hit_before = exists|j: int|
                    start <= j < i && old(self).links@[#[trigger] list[j]].sub == sub;
                let cur_only = flags.0 & (PENDING | DIRTY) == PENDING;
                assert(mid.nodes@[sub].flags == flags);
                if hit_before && only_pending(f0) {
                    assert(!cur_only);
                }
                if cur_only {
                    assert(flags == f0);
                    assert(forall|j: int|
                        start <= j < i ==> old(self).links@[#[trigger] list[j]].sub != sub);
                }
                assert(old(self).links@[list[i]].sub == sub);
                assert(old(self).shallow_noted(list, start, i) == (cur_only && flags.0 & (WATCHING
                    | RECURSED_CHECK) == WATCHING)) by {
                    if only_pending(f0) && !hit_before {
                        assert(flags == f0);
                    }
                    if !only_pending(f0) {
                        assert(flags == f0 || flags == f0.spec_union(ReactiveFlags(DIRTY)));
                    }
                }
                if old(self).shallow_noted(list, start, i) {
                    let set = self.nodes@;
                    assert forall|n: NodeKey| #[trigger]
                        mid.nodes@.contains_key(n) implies mid.nodes@[n].subs == old(
                        self,
                    ).nodes@[n].subs && mid.nodes@[n].flags.has(WATCHING) == old(
                        self,
                    ).nodes@[n].flags.has(WATCHING) by {
                        crate::flags::lemma_set_bits(old(self).nodes@[n].flags.0, DIRTY, WATCHING);
                        crate::flags::lemma_patterns();
                    }
                    assert forall|n: NodeKey| #[trigger]
                        mid2.nodes@.contains_key(n) implies mid2.nodes@[n].subs == old(
                        self,
                    ).nodes@[n].subs && mid2.nodes@[n].flags.has(WATCHING) == old(
                        self,
                    ).nodes@[n].flags.has(WATCHING) by {
                        assert(mid.nodes@.contains_key(n));
                        crate::flags::lemma_set_bits(old(self).nodes@[n].flags.0, DIRTY, WATCHING);
                        crate::flags::lemma_set_bits(flags.0, DIRTY, WATCHING);
                        crate::flags::lemma_patterns();
                    }
                    mid2.lemma_watch_chain_same(old(self), sub, old(self).nodes@.len());
                    assert(mid2.nodes@.len() == old(self).nodes@.len());
                    assert(mid2.queue() == mid.queue());
                }
                assert(self.queue() == old(self).queue() + old(self).shallow_notes(
                    list,
                    start,
                    i + 1,
                )) by {
                    let base = old(self).queue();
                    let sofar = old(self).shallow_notes(list, start, i);
                    if old(self).shallow_noted(list, start, i) {
                        let add = old(self).watch_chain(sub, old(self).nodes@.len()).reverse();
                        assert((base + sofar) + add =~= base + (sofar + add));
                    } else {
                        assert(sofar + Seq::<NodeKey>::empty() =~= sofar);
                    }
                }
                assert(self.marked_from(old(self))) by {
                    assert forall|n: NodeKey| #[trigger] self.nodes@.contains_key(n) implies same_but_flags(
                        self.nodes@[n],
                        old(self).nodes@[n],
                    ) by {
                        assert(mid.nodes@.contains_key(n));
                    }
                }
                assert forall|n: NodeKey| #[trigger] self.nodes@.contains_key(n) implies self.nodes@[n].flags
                    == (if only_pending(old(self).nodes@[n].flags) && (exists|j: int|
                    start <= j < i + 1 && old(self).links@[#[trigger] list[j]].sub == n) {
                    old(self).nodes@[n].flags.spec_union(ReactiveFlags(DIRTY))
                } else {
                    old(self).nodes@[n].flags
                }) by {
                    assert(mid.nodes@.contains_key(n));
                    let hit_before = exists|j: int|
                        start <= j < i && old(self).links@[#[trigger] list[j]].sub == n;
                    let hit_after = exists|j: int|
                        start <= j < i + 1 && old(self).links@[#[trigger] list[j]].sub == n;
                    if n == sub {
                        assert(old(self).links@[list[i]].sub == n);
                        assert(hit_after);
                    } else {
                        if hit_after {
                            let j = choose|j: int|
                                start <= j < i + 1 && old(self).links@[#[trigger] list[j]].sub
                                    == n;
                            assert(j < i);
                            assert(hit_before);
                        }
                    }
                    if hit_before {
                        let j = choose|j: int|
                            start <= j < i && old(self).links@[#[trigger] list[j]].sub == n;
                        assert(start <= j < i + 1 && old(self).links@[list[j]].sub == n);
                        assert(hit_after);
                    }
                }
            }
            match next_sub {
                Some(nx) => {
                    cur = nx;
                    proof {
                        i = i + 1;
                    }
                },
                None => {
                    proof {
                        assert(i == list.len() - 1);
                        assert forall|n: NodeKey| #[trigger] self.nodes@.contains_key(n) implies (
                        old(self).subscribes_from(link, n) <==> (exists|j: int|
                            start <= j < i + 1 && old(self).links@[#[trigger] list[j]].sub
                                == n)) by {}
                    }
                    break ;
                },
            }
        }
    }
}

} // verus!
