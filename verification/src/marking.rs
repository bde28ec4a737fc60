use crate::chain::lemma_chained_at;
use crate::flags::lemma_mark_pending;
use crate::flags::ReactiveFlags;
use crate::flags::MUTABLE;
use crate::flags::PENDING;
use crate::flags::WATCHING;
use crate::keys::LinkKey;
use crate::keys::NodeKey;
use crate::propagation::is_idle;
use crate::system::ReactiveSystem;
use vstd::prelude::*;

verus! {

impl ReactiveSystem {
    /// `l` stands at `start` or behind it, in the same list of subscribers.
    pub open spec fn behind(&self, start: LinkKey, l: LinkKey) -> bool {
        &&& self.links@.contains_key(l)
        &&& self.links@[l].dep == self.links@[start].dep
        &&& self.sub_index(l) >= self.sub_index(start)
    }

    /// `l` is still to be visited: it stands behind `next`, or behind a link
    /// put aside on the stack.
    pub open spec fn waiting(&self, next: Option<LinkKey>, stack: Seq<LinkKey>, l: LinkKey) -> bool {
        ||| (next matches Some(x) && self.behind(x, l))
        ||| exists|i: int| 0 <= i < stack.len() && self.behind(#[trigger] stack[i], l)
    }

    /// The subscriber of `l` has been dealt with: it is not idle in `now`.
    pub open spec fn settled(&self, now: &ReactiveSystem, l: LinkKey) -> bool {
        !is_idle(now.nodes@[self.links@[l].sub].flags)
    }

    /// `n` was idle and mutable, and is marked in `now`.
    pub open spec fn newly_marked(&self, now: &ReactiveSystem, n: NodeKey) -> bool {
        &&& self.nodes@.contains_key(n)
        &&& is_idle(self.nodes@[n].flags)
        &&& self.nodes@[n].flags.has(MUTABLE)
        &&& !is_idle(now.nodes@[n].flags)
    }

    /// `l` is the link in hand, or waits, or is settled.
    pub open spec fn accounted(
        &self,
        now: &ReactiveSystem,
        at: Option<LinkKey>,
        next: Option<LinkKey>,
        stack: Seq<LinkKey>,
        l: LinkKey,
    ) -> bool {
        at == Some(l) || self.waiting(next, stack, l) || self.settled(now, l)
    }

    /// Nothing that the walk owes a visit is lost: each link from `first` on,
    /// and each subscriber link of a node that the walk marked (but for
    /// `exempt`, whose list is about to be entered), is accounted for.
    pub open spec fn covers(
        &self,
        now: &ReactiveSystem,
        first: LinkKey,
        at: Option<LinkKey>,
        next: Option<LinkKey>,
        stack: Seq<LinkKey>,
        exempt: Option<NodeKey>,
    ) -> bool {
        &&& forall|l: LinkKey| #[trigger]
            self.behind(first, l) ==> self.accounted(now, at, next, stack, l)
        &&& forall|n: NodeKey, l: LinkKey|
            self.newly_marked(now, n) && exempt != Some(n) && #[trigger] self.sub_list(
                n,
            ).contains(l) ==> self.accounted(now, at, next, stack, l)
    }

    /// The links in hand are alive.
    pub open spec fn walk_alive(
        &self,
        next: Option<LinkKey>,
        stack: Seq<LinkKey>,
    ) -> bool {
        &&& (next matches Some(x) ==> self.links@.contains_key(x))
        &&& forall|i: int| 0 <= i < stack.len() ==> self.links@.contains_key(#[trigger] stack[i])
    }

    /// How many links stand at `l` or behind it.
    pub open spec fn remaining(&self, l: Option<LinkKey>) -> nat {
        match l {
            Some(x) => (self.sub_list(self.links@[x].dep).len() - self.sub_index(x)) as nat,
            None => 0,
        }
    }

    /// How many links stand behind the links put aside on the stack.
    pub open spec fn stack_work(&self, stack: Seq<LinkKey>) -> nat
        decreases stack.len(),
    {
        if stack.len() == 0 {
            0
        } else {
            self.remaining(Some(stack.last())) + self.stack_work(stack.drop_last())
        }
    }

    /// The nodes that are idle.
    pub open spec fn idle_nodes(&self) -> Set<NodeKey> {
        self.nodes@.dom().filter(|n: NodeKey| is_idle(self.nodes@[n].flags))
    }

    /// A node's flags are as in `before`, or `before` had it idle and it
    /// gained the pending mark.
    pub open spec fn pending_added(&self, before: &ReactiveSystem) -> bool {
        forall|n: NodeKey| #[trigger]
            self.nodes@.contains_key(n) ==> {
                ||| self.nodes@[n].flags == before.nodes@[n].flags
                ||| (is_idle(before.nodes@[n].flags) && self.nodes@[n].flags
                    == before.nodes@[n].flags.spec_union(ReactiveFlags(PENDING)))
            }
    }

    /// The nodes that are idle and not among the marked.
    pub open spec fn unmarked(&self, marked: Set<NodeKey>) -> Set<NodeKey> {
        self.idle_nodes().difference(marked)
    }

    /// What a marking does that visits the subscribers from place `i` of
    /// `list` on, when the nodes in `marked` are marked already: the nodes
    /// marked at the end, and the watching nodes among the newly marked, in
    /// the order in which they are reached. Each subscriber is visited in
    /// turn; one that is idle and not yet marked is marked, and if it is
    /// mutable, its own subscribers are visited before the walk goes on to
    /// the next.
    pub open spec fn mark_from(&self, marked: Set<NodeKey>, list: Seq<LinkKey>, i: int) -> (
        Set<NodeKey>,
        Seq<NodeKey>,
    )
        decreases self.unmarked(marked).len(), list.len() - i,
        when self.nodes@.dom().finite() && 0 <= i
    {
        if i >= list.len() {
            (marked, Seq::empty())
        } else {
            let s = self.links@[list[i]].sub;
            let fresh = self.idle_nodes().contains(s) && !marked.contains(s);
            let here = if fresh {
                marked.insert(s)
            } else {
                marked
            };
            let note = if fresh && self.nodes@[s].flags.has(WATCHING) {
                seq![s]
            } else {
                Seq::empty()
            };
            let below = if fresh && self.nodes@[s].flags.has(MUTABLE) {
                proof {
                    self.lemma_unmarked_fewer(marked, s);
                }
                self.mark_from(here, self.sub_list(s), 0)
            } else {
                (here, Seq::empty())
            };
            let carried = marked.union(below.0);
            proof {
                self.lemma_unmarked_no_more(marked, carried);
            }
            let rest = self.mark_from(carried, list, i + 1);
            (rest.0, note + below.1 + rest.1)
        }
    }

    /// Marking one more idle node leaves fewer unmarked.
    pub proof fn lemma_unmarked_fewer(&self, marked: Set<NodeKey>, s: NodeKey)
        requires
            self.nodes@.dom().finite(),
            self.idle_nodes().contains(s),
            !marked.contains(s),
        ensures
            self.unmarked(marked.insert(s)).len() < self.unmarked(marked).len(),
    {
        self.nodes@.dom().lemma_len_filter(|n: NodeKey| is_idle(self.nodes@[n].flags));
        vstd::set_lib::lemma_len_subset(self.unmarked(marked), self.idle_nodes());
        assert(self.unmarked(marked.insert(s)) =~= self.unmarked(marked).remove(s));
        assert(self.unmarked(marked).contains(s));
    }

    /// With more marked, no more are unmarked.
    pub proof fn lemma_unmarked_no_more(&self, marked: Set<NodeKey>, more: Set<NodeKey>)
        requires
            self.nodes@.dom().finite(),
            marked.subset_of(more),
        ensures
            self.unmarked(more).len() <= self.unmarked(marked).len(),
    {
        self.nodes@.dom().lemma_len_filter(|n: NodeKey| is_idle(self.nodes@[n].flags));
        vstd::set_lib::lemma_len_subset(self.unmarked(marked), self.idle_nodes());
        vstd::set_lib::lemma_len_subset(self.unmarked(more), self.unmarked(marked));
    }

    /// A marking marks what was marked, and what it marks besides was idle.
    pub proof fn lemma_mark_from_grows(&self, marked: Set<NodeKey>, list: Seq<LinkKey>, i: int)
        requires
            self.nodes@.dom().finite(),
            0 <= i,
        ensures
            marked.subset_of(self.mark_from(marked, list, i).0),
            forall|n: NodeKey| #[trigger]
                self.mark_from(marked, list, i).0.contains(n) ==> marked.contains(n)
                    || self.idle_nodes().contains(n),
        decreases self.unmarked(marked).len(), list.len() - i,
    {
        if i < list.len() {
            let s = self.links@[list[i]].sub;
            let fresh = self.idle_nodes().contains(s) && !marked.contains(s);
            let here = if fresh {
                marked.insert(s)
            } else {
                marked
            };
            if fresh && self.nodes@[s].flags.has(MUTABLE) {
                self.lemma_unmarked_fewer(marked, s);
                self.lemma_mark_from_grows(here, self.sub_list(s), 0);
            }
            let below = if fresh && self.nodes@[s].flags.has(MUTABLE) {
                self.mark_from(here, self.sub_list(s), 0)
            } else {
                (here, Seq::<NodeKey>::empty())
            };
            let carried = marked.union(below.0);
            self.lemma_unmarked_no_more(marked, carried);
            self.lemma_mark_from_grows(carried, list, i + 1);
        }
    }

    /// What a marking does that visits the subscribers from `l` on; nothing,
    /// where there is no link.
    pub open spec fn mark_behind(&self, marked: Set<NodeKey>, l: Option<LinkKey>) -> (
        Set<NodeKey>,
        Seq<NodeKey>,
    ) {
        match l {
            Some(x) => self.mark_from(
                marked,
                self.sub_list(self.links@[x].dep),
                self.sub_index(x),
            ),
            None => (marked, Seq::empty()),
        }
    }

    /// What a marking does that takes up the links put aside on the stack,
    /// the one put aside last first, and visits the subscribers from each on.
    pub open spec fn mark_stack(&self, marked: Set<NodeKey>, stack: Seq<LinkKey>) -> (
        Set<NodeKey>,
        Seq<NodeKey>,
    )
        decreases stack.len(),
    {
        if stack.len() == 0 {
            (marked, Seq::empty())
        } else {
            let a = self.mark_behind(marked, Some(stack.last()));
            let b = self.mark_stack(a.0, stack.drop_last());
            (b.0, a.1 + b.1)
        }
    }

    /// What is still to come of a marking that has the link `cur` in hand,
    /// `next` waiting and `stack` put aside, when the nodes in `marked` are
    /// marked and those in `noted` are queued: the nodes marked at the end,
    /// and the nodes queued at the end, in the order of the queueing.
    pub open spec fn walk_total(
        &self,
        marked: Set<NodeKey>,
        noted: Seq<NodeKey>,
        cur: LinkKey,
        next: Option<LinkKey>,
        stack: Seq<LinkKey>,
    ) -> (Set<NodeKey>, Seq<NodeKey>) {
        let a = self.mark_behind(marked, Some(cur));
        let up = if self.links@[cur].next_sub is Some {
            None
        } else {
            next
        };
        let b = self.mark_behind(a.0, up);
        let c = self.mark_stack(b.0, stack);
        (c.0, noted + a.1 + b.1 + c.1)
    }

    /// Whether a visit of the subscriber of `cur` marks it: it is idle and
    /// not among the marked.
    pub open spec fn visit_marks(&self, marked: Set<NodeKey>, cur: LinkKey) -> bool {
        self.idle_nodes().contains(self.links@[cur].sub) && !marked.contains(self.links@[cur].sub)
    }

    /// The nodes marked once the subscriber of `cur` is visited.
    pub open spec fn visit_set(&self, marked: Set<NodeKey>, cur: LinkKey) -> Set<NodeKey> {
        if self.visit_marks(marked, cur) {
            marked.insert(self.links@[cur].sub)
        } else {
            marked
        }
    }

    /// What the visit of the subscriber of `cur` queues: the subscriber, if
    /// the visit marks it and it is watching.
    pub open spec fn visit_note(&self, marked: Set<NodeKey>, cur: LinkKey) -> Seq<NodeKey> {
        if self.visit_marks(marked, cur) && self.nodes@[self.links@[cur].sub].flags.has(WATCHING) {
            seq![self.links@[cur].sub]
        } else {
            Seq::empty()
        }
    }

    /// The link at which the walk enters the subscribers of the subscriber of
    /// `cur`, if the visit marks that node, it is mutable and it has
    /// subscribers.
    pub open spec fn visit_entry(&self, marked: Set<NodeKey>, cur: LinkKey) -> Option<LinkKey> {
        if self.visit_marks(marked, cur) && self.nodes@[self.links@[cur].sub].flags.has(MUTABLE) {
            self.nodes@[self.links@[cur].sub].subs
        } else {
            None
        }
    }

    /// A marking from a link on is: the visit of its subscriber, then the
    /// marking of that node's subscribers if the visit entered them, then the
    /// marking from the next link on.
    pub proof fn lemma_mark_visit(&self, marked: Set<NodeKey>, cur: LinkKey)
        requires
            self.wf(),
            self.links@.contains_key(cur),
        ensures
            ({
                let below = self.mark_behind(
                    self.visit_set(marked, cur),
                    self.visit_entry(marked, cur),
                );
                let rest = self.mark_behind(below.0, self.links@[cur].next_sub);
                self.mark_behind(marked, Some(cur)) == (
                    rest.0,
                    self.visit_note(marked, cur) + below.1 + rest.1,
                )
            }),
    {
        let list = self.sub_list(self.links@[cur].dep);
        let i = self.sub_index(cur);
        let s = self.links@[cur].sub;
        self.lemma_sub_place(cur);
        self.lemma_sub_head(s);
        let fresh = self.visit_marks(marked, cur);
        let here = self.visit_set(marked, cur);
        let enters = fresh && self.nodes@[s].flags.has(MUTABLE);
        let inner = if enters {
            self.mark_from(here, self.sub_list(s), 0)
        } else {
            (here, Seq::<NodeKey>::empty())
        };
        let below = self.mark_behind(here, self.visit_entry(marked, cur));
        assert(inner == below) by {
            if enters {
                match self.nodes@[s].subs {
                    Some(h) => {
                        self.lemma_sub_place(h);
                    },
                    None => {},
                }
            }
        }
        if enters {
            self.lemma_mark_from_grows(here, self.sub_list(s), 0);
        }
        let carried = marked.union(inner.0);
        assert(carried =~= inner.0);
        match self.links@[cur].next_sub {
            Some(x) => {
                self.lemma_sub_place(x);
            },
            None => {},
        }
        assert(self.mark_from(carried, list, i + 1) == self.mark_behind(
            below.0,
            self.links@[cur].next_sub,
        ));
    }

    /// The walk that has entered the subscribers of the node just visited has
    /// as much to come as it had before the visit.
    pub proof fn lemma_total_descend(
        &self,
        marked: Set<NodeKey>,
        noted: Seq<NodeKey>,
        cur: LinkKey,
        next: Option<LinkKey>,
        stack: Seq<LinkKey>,
        next2: Option<LinkKey>,
        stack2: Seq<LinkKey>,
    )
        requires
            self.wf(),
            self.links@.contains_key(cur),
            self.links@[cur].next_sub is Some ==> next == self.links@[cur].next_sub,
            self.visit_entry(marked, cur) is Some,
            match self.links@[self.visit_entry(marked, cur)->0].next_sub {
                Some(ns) => next2 == Some(ns) && stack2 == (match next {
                    Some(x) => stack.push(x),
                    None => stack,
                }),
                None => next2 == next && stack2 == stack,
            },
        ensures
            self.walk_total(
                self.visit_set(marked, cur),
                noted + self.visit_note(marked, cur),
                self.visit_entry(marked, cur)->0,
                next2,
                stack2,
            ) == self.walk_total(marked, noted, cur, next, stack),
    {
        let h = self.visit_entry(marked, cur)->0;
        let here = self.visit_set(marked, cur);
        let note = self.visit_note(marked, cur);
        self.lemma_mark_visit(marked, cur);
        let below = self.mark_behind(here, Some(h));
        let rest = self.mark_behind(below.0, self.links@[cur].next_sub);
        let up = if self.links@[cur].next_sub is Some {
            None
        } else {
            next
        };
        let b = self.mark_behind(rest.0, up);
        let c = self.mark_stack(b.0, stack);
        let up2 = if self.links@[h].next_sub is Some {
            None
        } else {
            next2
        };
        let b2 = self.mark_behind(below.0, up2);
        let c2 = self.mark_stack(b2.0, stack2);
        match self.links@[h].next_sub {
            Some(ns) => {
                match next {
                    Some(nv) => {
                        assert(stack2.last() == nv);
                        assert(stack2.drop_last() =~= stack);
                    },
                    None => {},
                }
            },
            None => {},
        }
        assert(c2.0 == c.0);
        assert(b2.1 + c2.1 =~= rest.1 + b.1 + c.1);
        assert((noted + note) + below.1 + b2.1 + c2.1 =~= noted + (note + below.1 + rest.1) + b.1
            + c.1) by {
            assert((noted + note) + below.1 + (b2.1 + c2.1) =~= (noted + note) + below.1 + b2.1
                + c2.1);
            assert(noted + (note + below.1 + rest.1) + b.1 + c.1 =~= (noted + note) + below.1 + (
            rest.1 + b.1 + c.1));
        }
    }

    /// The walk that has taken up the next link, the one that waited or the
    /// one put aside last, has as much to come as it had before the visit;
    /// and with no link left, the visit was the end.
    pub proof fn lemma_total_advance(
        &self,
        marked: Set<NodeKey>,
        noted: Seq<NodeKey>,
        cur: LinkKey,
        next: Option<LinkKey>,
        stack: Seq<LinkKey>,
    )
        requires
            self.wf(),
            self.links@.contains_key(cur),
            self.links@[cur].next_sub is Some ==> next == self.links@[cur].next_sub,
            self.visit_entry(marked, cur) is None,
            next matches Some(x) ==> self.links@.contains_key(x),
            stack.len() > 0 ==> self.links@.contains_key(stack.last()),
        ensures
            ({
                let here = self.visit_set(marked, cur);
                let noted2 = noted + self.visit_note(marked, cur);
                let total = self.walk_total(marked, noted, cur, next, stack);
                match next {
                    Some(nx) => self.walk_total(
                        here,
                        noted2,
                        nx,
                        self.links@[nx].next_sub,
                        stack,
                    ) == total,
                    None => if stack.len() > 0 {
                        self.walk_total(
                            here,
                            noted2,
                            stack.last(),
                            self.links@[stack.last()].next_sub,
                            stack.drop_last(),
                        ) == total
                    } else {
                        total == (here, noted2)
                    },
                }
            }),
    {
        let here = self.visit_set(marked, cur);
        let note = self.visit_note(marked, cur);
        self.lemma_mark_visit(marked, cur);
        let below = self.mark_behind(here, None);
        let rest = self.mark_behind(here, self.links@[cur].next_sub);
        let up = if self.links@[cur].next_sub is Some {
            None
        } else {
            next
        };
        let b = self.mark_behind(rest.0, up);
        let c = self.mark_stack(b.0, stack);
        assert(note + below.1 + rest.1 =~= note + rest.1);
        match next {
            Some(nx) => {
                let a2 = self.mark_behind(here, Some(nx));
                let up2: Option<LinkKey> = None;
                let c2 = self.mark_stack(a2.0, stack);
                assert((noted + note) + a2.1 + Seq::<NodeKey>::empty() + c2.1 =~= noted + (note
                    + rest.1) + b.1 + c.1);
            },
            None => {
                if stack.len() > 0 {
                    let top = stack.last();
                    let a2 = self.mark_behind(here, Some(top));
                    let c2 = self.mark_stack(a2.0, stack.drop_last());
                    assert((noted + note) + a2.1 + Seq::<NodeKey>::empty() + c2.1 =~= noted + (
                    note + rest.1) + b.1 + c.1);
                } else {
                    assert(noted + (note + rest.1) + b.1 + c.1 =~= noted + note);
                }
            },
        }
    }

    /// What queueing the given effects one after the other adds to the queue:
    /// for each, the chain of watching effects above it, the outermost first.
    pub open spec fn notes_of(&self, noted: Seq<NodeKey>) -> Seq<NodeKey>
        decreases noted.len(),
    {
        if noted.len() == 0 {
            Seq::empty()
        } else {
            self.notes_of(noted.drop_last()) + self.watch_chain(
                noted.last(),
                self.nodes@.len(),
            ).reverse()
        }
    }

    /// `noted` holds, each once, the watching nodes that were idle in `self`
    /// and are marked in `now`.
    pub open spec fn notes_marked(&self, now: &ReactiveSystem, noted: Seq<NodeKey>) -> bool {
        &&& noted.no_duplicates()
        &&& forall|n: NodeKey|
            #![trigger noted.contains(n)]
            noted.contains(n) <==> self.nodes@.contains_key(n) && is_idle(self.nodes@[n].flags)
                && self.nodes@[n].flags.has(WATCHING) && !is_idle(now.nodes@[n].flags)
    }

    /// `now` is `self` with the effects in `noted` queued one after the
    /// other, and `noted` holds the watching nodes that the marking reached.
    pub open spec fn queued_marked(&self, now: &ReactiveSystem, noted: Seq<NodeKey>) -> bool {
        &&& now.queue() == self.queue() + self.notes_of(noted)
        &&& self.notes_marked(now, noted)
    }

    /// A link's place and its successor in its list of subscribers.
    pub proof fn lemma_sub_place(&self, l: LinkKey)
        requires
            self.wf(),
            self.links@.contains_key(l),
        ensures
            0 <= self.sub_index(l) < self.sub_list(self.links@[l].dep).len(),
            self.sub_list(self.links@[l].dep)[self.sub_index(l)] == l,
            self.nodes@.contains_key(self.links@[l].dep),
            self.nodes@.contains_key(self.links@[l].sub),
            self.remaining(Some(l)) >= 1,
            match self.links@[l].next_sub {
                Some(x) => {
                    &&& self.links@.contains_key(x)
                    &&& self.links@[x].dep == self.links@[l].dep
                    &&& self.sub_index(x) == self.sub_index(l) + 1
                    &&& self.remaining(Some(x)) + 1 == self.remaining(Some(l))
                },
                None => self.sub_index(l) == self.sub_list(self.links@[l].dep).len() - 1,
            },
    {
        let dep = self.links@[l].dep;
        let list = self.sub_list(dep);
        assert(self.link_wf(l));
        assert(self.node_wf(dep, None));
        assert(list.contains(l));
        let i = list.index_of(l);
        lemma_chained_at(list, self.prev_sub_of(), self.next_sub_of(), i);
        match self.links@[l].next_sub {
            Some(x) => {
                assert(list[i + 1] == x);
                assert(self.links@.contains_key(list[i + 1]));
                assert(list.contains(x));
                let j = list.index_of(x);
                assert(list[j] == x);
                assert(j == i + 1);
            },
            None => {},
        }
    }

    /// The head of a node's list of subscribers stands first in it.
    pub proof fn lemma_sub_head(&self, n: NodeKey)
        requires
            self.wf(),
            self.nodes@.contains_key(n),
        ensures
            match self.nodes@[n].subs {
                Some(h) => {
                    &&& self.links@.contains_key(h)
                    &&& self.links@[h].dep == n
                    &&& self.sub_index(h) == 0
                    &&& self.sub_list(n).len() > 0
                },
                None => self.sub_list(n).len() == 0,
            },
            forall|l: LinkKey| #[trigger]
                self.sub_list(n).contains(l) ==> self.links@.contains_key(l) && self.links@[l].dep
                    == n && 0 <= self.sub_index(l),
    {
        let list = self.sub_list(n);
        assert(self.node_wf(n, None));
        match self.nodes@[n].subs {
            Some(h) => {
                assert(list[0] == h);
                assert(self.links@.contains_key(list[0]));
                assert(list.contains(h));
                let j = list.index_of(h);
                assert(list[j] == h);
            },
            None => {},
        }
        assert forall|l: LinkKey| #[trigger] list.contains(l) implies self.links@.contains_key(l)
            && self.links@[l].dep == n && 0 <= self.sub_index(l) by {
            let j = list.index_of(l);
            assert(list[j] == l);
            assert(self.links@.contains_key(list[j]));
        }
    }

    /// Marking an idle node leaves one idle node fewer.
    pub proof fn lemma_idle_marked(&self, before: &ReactiveSystem, s: NodeKey)
        requires
            before.nodes@.dom().finite(),
            before.nodes@.contains_key(s),
            is_idle(before.nodes@[s].flags),
            !is_idle(self.nodes@[s].flags),
            self.nodes@.dom() =~= before.nodes@.dom(),
            forall|n: NodeKey| #[trigger]
                self.nodes@.contains_key(n) && n != s ==> self.nodes@[n].flags
                    == before.nodes@[n].flags,
        ensures
            self.idle_nodes().len() + 1 == before.idle_nodes().len(),
            before.idle_nodes().finite(),
    {
        assert(self.idle_nodes() =~= before.idle_nodes().remove(s));
        before.nodes@.dom().lemma_len_filter(|n: NodeKey| is_idle(before.nodes@[n].flags));
        assert(before.idle_nodes().contains(s));
    }

    /// While no flag changes, as many nodes are idle as before.
    pub proof fn lemma_idle_same(&self, before: &ReactiveSystem)
        requires
            self.nodes@.dom() =~= before.nodes@.dom(),
            forall|n: NodeKey| #[trigger]
                self.nodes@.contains_key(n) ==> self.nodes@[n].flags == before.nodes@[n].flags,
        ensures
            self.idle_nodes() == before.idle_nodes(),
    {
        assert(self.idle_nodes() =~= before.idle_nodes());
    }

    /// Two links at the same place of the same list are one link.
    pub proof fn lemma_same_place(&self, a: LinkKey, b: LinkKey)
        requires
            self.wf(),
            self.links@.contains_key(a),
            self.links@.contains_key(b),
            self.links@[a].dep == self.links@[b].dep,
            self.sub_index(a) == self.sub_index(b),
        ensures
            a == b,
    {
        self.lemma_sub_place(a);
        self.lemma_sub_place(b);
    }

    /// What stands behind a link is the link itself or stands behind its
    /// successor.
    pub proof fn lemma_behind_step(&self, x: LinkKey, l: LinkKey)
        requires
            self.wf(),
            self.links@.contains_key(x),
            self.behind(x, l),
        ensures
            l == x || (self.links@[x].next_sub matches Some(y) && self.behind(y, l)),
    {
        self.lemma_sub_place(x);
        self.lemma_sub_place(l);
        if self.sub_index(l) == self.sub_index(x) {
            self.lemma_same_place(x, l);
        }
    }

    /// Once the link in hand is visited, its subscriber is settled, and that
    /// subscriber alone may have joined the marked.
    pub proof fn lemma_visit(
        &self,
        was: &ReactiveSystem,
        now: &ReactiveSystem,
        first: LinkKey,
        link: LinkKey,
        next: Option<LinkKey>,
        stack: Seq<LinkKey>,
    )
        requires
            self.wf(),
            self.links@.contains_key(link),
            !is_idle(now.nodes@[self.links@[link].sub].flags),
            forall|n: NodeKey|
                n != self.links@[link].sub ==> (#[trigger] now.nodes@[n]).flags
                    == was.nodes@[n].flags,
            !is_idle(was.nodes@[self.links@[link].sub].flags) ==> now.nodes@[self.links@[link].sub].flags
                == was.nodes@[self.links@[link].sub].flags,
            self.covers(was, first, Some(link), next, stack, None),
        ensures
            self.covers(
                now,
                first,
                None,
                next,
                stack,
                if is_idle(was.nodes@[self.links@[link].sub].flags) {
                    Some(self.links@[link].sub)
                } else {
                    None
                },
            ),
    {
        let exempt = if is_idle(was.nodes@[self.links@[link].sub].flags) {
            Some(self.links@[link].sub)
        } else {
            None
        };
        let s = self.links@[link].sub;
        assert forall|l: LinkKey| self.accounted(was, Some(link), next, stack, l)
            implies #[trigger] self.accounted(now, None, next, stack, l) by {
            if self.links@[l].sub != s {
                assert(now.nodes@[self.links@[l].sub].flags == was.nodes@[self.links@[l].sub].flags);
            }
        }
        assert forall|l: LinkKey| #[trigger] self.behind(first, l) implies self.accounted(
            now,
            None,
            next,
            stack,
            l,
        ) by {
            assert(self.accounted(was, Some(link), next, stack, l));
        }
        assert forall|n: NodeKey, l: LinkKey|
            self.newly_marked(now, n) && exempt != Some(n) && #[trigger] self.sub_list(
                n,
            ).contains(l) implies self.accounted(now, None, next, stack, l) by {
            assert(now.nodes@[n].flags == was.nodes@[n].flags);
            assert(self.newly_marked(was, n));
            assert(self.accounted(was, Some(link), next, stack, l));
        }
    }

    /// A node that was not marked just now, or has no subscriber, needs no
    /// exemption.
    pub proof fn lemma_release(
        &self,
        now: &ReactiveSystem,
        first: LinkKey,
        next: Option<LinkKey>,
        stack: Seq<LinkKey>,
        exempt: Option<NodeKey>,
    )
        requires
            self.covers(now, first, None, next, stack, exempt),
            exempt matches Some(s) ==> !self.newly_marked(now, s) || self.sub_list(s).len() == 0,
        ensures
            self.covers(now, first, None, next, stack, None),
    {
        assert forall|n: NodeKey, l: LinkKey|
            self.newly_marked(now, n) && #[trigger] self.sub_list(n).contains(l)
                implies self.accounted(now, None, next, stack, l) by {
            if exempt == Some(n) {
                assert(false);
            }
        }
    }

    /// Entering the list of subscribers of the node just visited accounts for
    /// all of that list; what waited goes on waiting.
    pub proof fn lemma_descend(
        &self,
        now: &ReactiveSystem,
        first: LinkKey,
        s: NodeKey,
        head: LinkKey,
        next: Option<LinkKey>,
        stack: Seq<LinkKey>,
        next2: Option<LinkKey>,
        stack2: Seq<LinkKey>,
    )
        requires
            self.wf(),
            self.nodes@.contains_key(s),
            self.nodes@[s].subs == Some(head),
            self.covers(now, first, None, next, stack, Some(s)),
            match self.links@[head].next_sub {
                Some(ns) => next2 == Some(ns) && stack2 == (match next {
                    Some(x) => stack.push(x),
                    None => stack,
                }),
                None => next2 == next && stack2 == stack,
            },
        ensures
            self.covers(now, first, Some(head), next2, stack2, None),
    {
        self.lemma_sub_head(s);
        self.lemma_sub_place(head);
        assert forall|l: LinkKey| self.waiting(next, stack, l) implies self.waiting(
            next2,
            stack2,
            l,
        ) by {
            match self.links@[head].next_sub {
                Some(ns) => {
                    if next matches Some(x) && self.behind(x, l) {
                        let x = next->0;
                        assert(stack2[stack.len() as int] == x);
                        assert(self.behind(stack2[stack.len() as int], l));
                    } else {
                        let i = choose|i: int|
                            0 <= i < stack.len() && self.behind(#[trigger] stack[i], l);
                        assert(stack2[i] == stack[i]);
                        assert(self.behind(stack2[i], l));
                    }
                },
                None => {},
            }
        }
        assert forall|l: LinkKey| self.accounted(now, None, next, stack, l)
            implies #[trigger] self.accounted(now, Some(head), next2, stack2, l) by {}
        assert forall|l: LinkKey| #[trigger] self.behind(first, l) implies self.accounted(
            now,
            Some(head),
            next2,
            stack2,
            l,
        ) by {
            assert(self.accounted(now, None, next, stack, l));
        }
        assert forall|n: NodeKey, l: LinkKey|
            self.newly_marked(now, n) && #[trigger] self.sub_list(n).contains(l)
                implies self.accounted(now, Some(head), next2, stack2, l) by {
            if n == s {
                assert(self.behind(head, l));
                self.lemma_behind_step(head, l);
            } else {
                assert(self.accounted(now, None, next, stack, l));
            }
        }
    }

    /// Taking up the link that waited next.
    pub proof fn lemma_advance(
        &self,
        now: &ReactiveSystem,
        first: LinkKey,
        x: LinkKey,
        stack: Seq<LinkKey>,
    )
        requires
            self.wf(),
            self.links@.contains_key(x),
            self.covers(now, first, None, Some(x), stack, None),
        ensures
            self.covers(now, first, Some(x), self.links@[x].next_sub, stack, None),
    {
        let next2 = self.links@[x].next_sub;
        assert forall|l: LinkKey| self.accounted(now, None, Some(x), stack, l)
            implies #[trigger] self.accounted(now, Some(x), next2, stack, l) by {
            if self.behind(x, l) {
                self.lemma_behind_step(x, l);
            }
        }
        assert forall|l: LinkKey| #[trigger] self.behind(first, l) implies self.accounted(
            now,
            Some(x),
            next2,
            stack,
            l,
        ) by {
            assert(self.accounted(now, None, Some(x), stack, l));
        }
        assert forall|n: NodeKey, l: LinkKey|
            self.newly_marked(now, n) && #[trigger] self.sub_list(n).contains(l)
                implies self.accounted(now, Some(x), next2, stack, l) by {
            assert(self.accounted(now, None, Some(x), stack, l));
        }
    }

    /// Taking up the link put aside last.
    pub proof fn lemma_resume(&self, now: &ReactiveSystem, first: LinkKey, stack: Seq<LinkKey>)
        requires
            self.wf(),
            stack.len() > 0,
            self.links@.contains_key(stack.last()),
            self.covers(now, first, None, None, stack, None),
        ensures
            self.covers(
                now,
                first,
                Some(stack.last()),
                self.links@[stack.last()].next_sub,
                stack.drop_last(),
                None,
            ),
            self.stack_work(stack) == self.stack_work(stack.drop_last()) + self.remaining(
                Some(stack.last()),
            ),
    {
        let x = stack.last();
        let next2 = self.links@[x].next_sub;
        let stack2 = stack.drop_last();
        assert forall|l: LinkKey| self.accounted(now, None, None, stack, l)
            implies #[trigger] self.accounted(now, Some(x), next2, stack2, l) by {
            if self.waiting(None, stack, l) {
                let i = choose|i: int| 0 <= i < stack.len() && self.behind(#[trigger] stack[i], l);
                if i == stack.len() - 1 {
                    self.lemma_behind_step(x, l);
                } else {
                    assert(stack2[i] == stack[i]);
                    assert(self.behind(stack2[i], l));
                }
            }
        }
        assert forall|l: LinkKey| #[trigger] self.behind(first, l) implies self.accounted(
            now,
            Some(x),
            next2,
            stack2,
            l,
        ) by {
            assert(self.accounted(now, None, None, stack, l));
        }
        assert forall|n: NodeKey, l: LinkKey|
            self.newly_marked(now, n) && #[trigger] self.sub_list(n).contains(l)
                implies self.accounted(now, Some(x), next2, stack2, l) by {
            assert(self.accounted(now, None, None, stack, l));
        }
    }

    /// `self` is what `propagate`, begun at `link`, makes of `before`. Only
    /// flags and the queue changed. The nodes that the marking from `link` on
    /// marks are pending now, and no other flag changed. The watching nodes
    /// among them are queued in the order in which the marking reached them,
    /// each with the chain of watching effects above it. So every subscriber
    /// from `link` on is marked or was not idle, and so is every subscriber of
    /// a mutable node that was marked.
    pub open spec fn propagated(&self, before: &ReactiveSystem, link: LinkKey) -> bool {
        let total = before.mark_behind(Set::empty(), Some(link));
        &&& self.marked_from(before)
        &&& self.pending_added(before)
        &&& forall|n: NodeKey| #[trigger]
            self.nodes@.contains_key(n) ==> self.nodes@[n].flags == (if total.0.contains(n) {
                before.nodes@[n].flags.spec_union(ReactiveFlags(PENDING))
            } else {
                before.nodes@[n].flags
            })
        &&& self.queue() == before.queue() + before.notes_of(total.1)
        &&& forall|l: LinkKey| #[trigger] before.behind(link, l) ==> before.settled(self, l)
        &&& forall|n: NodeKey, l: LinkKey|
            before.newly_marked(self, n) && #[trigger] before.sub_list(n).contains(l)
                ==> before.settled(self, l)
    }

    /// Marks what depends on a changed node. Starting with the subscribers
    /// from `link` on, each subscriber that is idle becomes pending; if it is
    /// a watching effect it is queued; if it is mutable its own subscribers
    /// are visited in turn. A subscriber that is executing, dirty or pending
    /// already is left alone, and nothing behind it is visited on its account.
    /// The walk also provides for a subscriber that carries the `RECURSED`
    /// flag; in a consistent graph there is none, so those two cases never
    /// arise.
    pub fn propagate(&mut self, link: LinkKey)
        requires
            old(self).wf(),
            old(self).links@.contains_key(link),
        ensures
            final(self).wf(),
            final(self).marked_from(old(self)),
            final(self).pending_added(old(self)),
            final(self).propagated(old(self), link),
            forall|l: LinkKey| #[trigger]
                old(self).behind(link, l) ==> old(self).settled(final(self), l),
            forall|n: NodeKey, l: LinkKey|
                old(self).newly_marked(final(self), n) && #[trigger] old(self).sub_list(
                    n,
                ).contains(l) ==> old(self).settled(final(self), l),
    {
        let ghost g = *old(self);
        let ghost mut noted: Seq<NodeKey> = Seq::empty();
        let ghost mut marked: Set<NodeKey> = Set::empty();
        let ghost total = g.mark_behind(Set::empty(), Some(link));
        let mut cur = link;
        let mut next = match self.links.get(cur) {
            Some(x) => x.next_sub,
            None => None,
        };
        self.stack.clear();
        proof {
            g.lemma_sub_place(link);
            assert forall|l: LinkKey| #[trigger] g.behind(link, l) implies g.accounted(
                self,
                Some(cur),
                next,
                self.stack@,
                l,
            ) by {
                g.lemma_behind_step(link, l);
            }
            assert(g.stack_work(self.stack@) == 0);
            g.lemma_node_facts(None);
            self.lemma_keep_inv(&g, None);
            assert(self.queue() + Seq::<NodeKey>::empty() =~= self.queue());
            assert(self.queue() == g.queue());
            let a = g.mark_behind(marked, Some(cur));
            assert(g.mark_behind(a.0, None) == (a.0, Seq::<NodeKey>::empty()));
            assert(g.mark_stack(a.0, self.stack@) == (a.0, Seq::<NodeKey>::empty()));
            assert(noted + a.1 + Seq::<NodeKey>::empty() + Seq::<NodeKey>::empty() =~= a.1);
            match g.links@[cur].next_sub {
                Some(x) => {},
                None => {},
            }
        }
        loop
            invariant_except_break
                g.walk_total(marked, noted, cur, next, self.stack@) == total,
                g.links@[cur].next_sub is Some ==> next == g.links@[cur].next_sub,
            invariant
                total == g.mark_behind(Set::empty(), Some(link)),
                forall|n: NodeKey|
                    #![trigger marked.contains(n)]
                    marked.contains(n) <==> g.nodes@.contains_key(n) && is_idle(g.nodes@[n].flags)
                        && !is_idle(self.nodes@[n].flags),
                g.queued_marked(self, noted),
                g == *old(self),
                g.wf(),
                g.links@.contains_key(link),
                self.wf(),
                self.marked_from(&g),
                self.pending_added(&g),
                self.links@.contains_key(cur),
                g.walk_alive(next, self.stack@),
                g.covers(self, link, Some(cur), next, self.stack@, None),
            ensures
                self.wf(),
                self.marked_from(&g),
                self.pending_added(&g),
                g.covers(self, link, None, None, Seq::<LinkKey>::empty(), None),
                g.queued_marked(self, noted),
                total == (marked, noted),
                forall|n: NodeKey|
                    #![trigger marked.contains(n)]
                    marked.contains(n) <==> g.nodes@.contains_key(n) && is_idle(g.nodes@[n].flags)
                        && !is_idle(self.nodes@[n].flags),
            decreases self.idle_nodes().len(), g.remaining(next) + g.stack_work(self.stack@),
        {
            let ghost was = *self;
            proof {
                g.lemma_sub_place(cur);
            }
            let sub_key = match self.links.get(cur) {
                Some(x) => x.sub,
                None => {
                    assert(false);
                    break ;
                },
            };
            assert(self.nodes@.contains_key(sub_key));
            let flags = match self.nodes.get(sub_key) {
                Some(n) => n.flags,
                None => ReactiveFlags::none(),
            };
            let mut carry = flags;
            let busy = ReactiveFlags::recursed_check().union(ReactiveFlags::recursed()).union(
                ReactiveFlags::dirty(),
            ).union(ReactiveFlags::pending());
            let both = ReactiveFlags::recursed_check().union(ReactiveFlags::recursed());
            proof {
                assert(self.node_wf(sub_key, None));
                lemma_mark_pending(flags.0);
            }
            if !flags.intersects(busy) {
                self.set_flags(sub_key, flags.union(ReactiveFlags::pending()));
            } else if !flags.contains(both) {
                carry = ReactiveFlags::none();
            } else if !flags.contains(ReactiveFlags::recursed_check()) {
                self.set_flags(
                    sub_key,
                    flags.intersection(ReactiveFlags::recursed().complement()).union(
                        ReactiveFlags::pending(),
                    ),
                );
            } else if !flags.contains(ReactiveFlags::dirty().union(ReactiveFlags::pending()))
                && self.is_valid_link(cur, sub_key) {
                self.set_flags(
                    sub_key,
                    flags.union(ReactiveFlags::recursed().union(ReactiveFlags::pending())),
                );
                carry = flags.intersection(ReactiveFlags::mutable());
            } else {
                carry = ReactiveFlags::none();
            }
            let ghost marked_state = *self;
            let ghost exempt = if is_idle(flags) {
                Some(sub_key)
            } else {
                None
            };
            proof {
                assert(marked_state.marked_from(&g)) by {
                    assert forall|n: NodeKey| #[trigger] marked_state.nodes@.contains_key(n) implies crate::propagation::same_but_flags(
                        marked_state.nodes@[n],
                        g.nodes@[n],
                    ) by {
                        assert(was.nodes@.contains_key(n));
                    }
                }
                assert(marked_state.pending_added(&g)) by {
                    assert forall|n: NodeKey| #[trigger] marked_state.nodes@.contains_key(n) implies (
                    marked_state.nodes@[n].flags == g.nodes@[n].flags || (is_idle(g.nodes@[n].flags)
                        && marked_state.nodes@[n].flags == g.nodes@[n].flags.spec_union(
                        ReactiveFlags(PENDING),
                    ))) by {
                        assert(was.nodes@.contains_key(n));
                        lemma_mark_pending(g.nodes@[n].flags.0);
                        if n == sub_key && is_idle(flags) {
                            assert(was.nodes@[n].flags == g.nodes@[n].flags);
                        }
                    }
                }
                lemma_mark_pending(g.nodes@[sub_key].flags.0);
                crate::flags::lemma_empty_flags();
                assert(is_idle(flags) <==> !flags.spec_intersects(busy));
                assert(!flags.spec_contains(both));
                g.lemma_visit(&was, &marked_state, link, cur, next, self.stack@);
                if is_idle(flags) {
                    marked_state.lemma_idle_marked(&was, sub_key);
                } else {
                    marked_state.lemma_idle_same(&was);
                }
                assert(carry.has(MUTABLE) ==> is_idle(flags) && flags.has(MUTABLE));
                if is_idle(flags) {
                    assert(was.nodes@[sub_key].flags == g.nodes@[sub_key].flags);
                }
                was.nodes@.dom().lemma_len_filter(|n: NodeKey| is_idle(was.nodes@[n].flags));
            }
            let ghost noted_was = noted;
            let ghost marked_was = marked;
            let ghost next_was = next;
            let ghost stack_was = self.stack@;
            let ghost cur_was = cur;
            if carry.contains(ReactiveFlags::watching()) {
                self.notify(sub_key);
                proof {
                    noted = noted.push(sub_key);
                }
            }
            proof {
                assert(g.visit_marks(marked_was, cur_was) == is_idle(flags)) by {
                    lemma_mark_pending(g.nodes@[sub_key].flags.0);
                    assert(was.nodes@.contains_key(sub_key));
                }
                if is_idle(flags) {
                    marked = marked.insert(sub_key);
                }
                assert(marked == g.visit_set(marked_was, cur_was));
                assert(noted =~= noted_was + g.visit_note(marked_was, cur_was));
                assert forall|n: NodeKey|
                    #![trigger marked.contains(n)]
                    marked.contains(n) <==> g.nodes@.contains_key(n) && is_idle(g.nodes@[n].flags)
                        && !is_idle(self.nodes@[n].flags) by {
                    assert(marked_was.contains(n) <==> g.nodes@.contains_key(n) && is_idle(
                        g.nodes@[n].flags,
                    ) && !is_idle(was.nodes@[n].flags));
                    if n != sub_key {
                        assert(self.nodes@[n].flags == was.nodes@[n].flags);
                    }
                }
            }
            proof {
                assert(carry.has(WATCHING) ==> is_idle(flags) && flags.has(WATCHING));
                assert(g.notes_marked(self, noted)) by {
                    assert(g.notes_marked(&was, noted_was));
                    assert forall|n: NodeKey|
                        #![trigger noted.contains(n)]
                        noted.contains(n) <==> g.nodes@.contains_key(n) && is_idle(
                            g.nodes@[n].flags,
                        ) && g.nodes@[n].flags.has(WATCHING) && !is_idle(self.nodes@[n].flags) by {
                        assert(noted_was.contains(n) <==> g.nodes@.contains_key(n) && is_idle(
                            g.nodes@[n].flags,
                        ) && g.nodes@[n].flags.has(WATCHING) && !is_idle(was.nodes@[n].flags));
                        if carry.has(WATCHING) {
                            assert(noted[noted_was.len() as int] == sub_key);
                            if noted.contains(n) && n != sub_key {
                                let i = choose|i: int| 0 <= i < noted.len() && noted[i] == n;
                                assert(noted_was[i] == n);
                            }
                            if noted_was.contains(n) {
                                let i = choose|i: int| 0 <= i < noted_was.len() && noted_was[i]
                                    == n;
                                assert(noted[i] == n);
                            }
                        }
                        if n != sub_key {
                            assert(self.nodes@[n].flags == was.nodes@[n].flags);
                        } else {
                            if is_idle(flags) {
                                assert(was.nodes@[n].flags == g.nodes@[n].flags);
                            }
                        }
                    }
                    if carry.has(WATCHING) {
                        assert(!noted_was.contains(sub_key));
                        assert forall|i: int, j: int|
                            0 <= i < noted.len() && 0 <= j < noted.len() && i != j implies noted[i]
                            != noted[j] by {
                            if i < noted_was.len() {
                                assert(noted_was.contains(noted_was[i]));
                            }
                            if j < noted_was.len() {
                                assert(noted_was.contains(noted_was[j]));
                            }
                        }
                    }
                }
                assert(self.queue() == g.queue() + g.notes_of(noted)) by {
                    if carry.has(WATCHING) {
                        assert forall|n: NodeKey| #[trigger]
                            marked_state.nodes@.contains_key(n) implies marked_state.nodes@[n].subs
                            == g.nodes@[n].subs && marked_state.nodes@[n].flags.has(WATCHING)
                            == g.nodes@[n].flags.has(WATCHING) by {
                            lemma_mark_pending(g.nodes@[n].flags.0);
                        }
                        marked_state.lemma_watch_chain_same(&g, sub_key, g.nodes@.len());
                        assert(marked_state.nodes@.len() == g.nodes@.len());
                        assert(noted.drop_last() =~= noted_was);
                        assert(noted.last() == sub_key);
                        let add = g.watch_chain(sub_key, g.nodes@.len()).reverse();
                        assert((g.queue() + g.notes_of(noted_was)) + add =~= g.queue() + (
                        g.notes_of(noted_was) + add));
                        assert(marked_state.queue() == was.queue());
                    } else {
                        assert(self.queue() == was.queue());
                    }
                }
                assert(self.nodes == marked_state.nodes);
                self.lemma_idle_same(&marked_state);
                assert(self.marked_from(&g)) by {
                    assert(marked_state.queue().is_prefix_of(self.queue()));
                }
                assert(g.covers(self, link, None, next, self.stack@, exempt)) by {
                    assert forall|l: LinkKey| g.accounted(&marked_state, None, next, self.stack@, l)
                        implies #[trigger] g.accounted(self, None, next, self.stack@, l) by {}
                    assert forall|l: LinkKey| #[trigger] g.behind(link, l) implies g.accounted(
                        self,
                        None,
                        next,
                        self.stack@,
                        l,
                    ) by {
                        assert(g.accounted(&marked_state, None, next, self.stack@, l));
                    }
                    assert forall|n: NodeKey, l: LinkKey|
                        g.newly_marked(self, n) && exempt != Some(n) && #[trigger] g.sub_list(
                            n,
                        ).contains(l) implies g.accounted(self, None, next, self.stack@, l) by {
                        assert(g.newly_marked(&marked_state, n));
                        assert(g.accounted(&marked_state, None, next, self.stack@, l));
                    }
                }
            }
            let head = if carry.contains(ReactiveFlags::mutable()) {
                match self.nodes.get(sub_key) {
                    Some(n) => n.subs,
                    None => None,
                }
            } else {
                None
            };
            proof {
                assert(head == g.visit_entry(marked_was, cur_was)) by {
                    assert(self.nodes@.contains_key(sub_key));
                    if is_idle(flags) {
                        assert(flags == g.nodes@[sub_key].flags);
                    }
                }
            }
            if let Some(subs) = head {
                proof {
                    g.lemma_sub_head(sub_key);
                    g.lemma_sub_place(subs);
                    assert(g.nodes@[sub_key].subs == Some(subs));
                }
                let next_sub = match self.links.get(subs) {
                    Some(x) => x.next_sub,
                    None => None,
                };
                let ghost stack_was = self.stack@;
                let ghost next_was = next;
                cur = subs;
                if let Some(ns) = next_sub {
                    if let Some(nv) = next {
                        self.stack.push(nv);
                    }
                    next = Some(ns);
                }
                proof {
                    g.lemma_descend(
                        self,
                        link,
                        sub_key,
                        subs,
                        next_was,
                        stack_was,
                        next,
                        self.stack@,
                    );
                    marked_state.lemma_node_facts(None);
                    self.lemma_keep_inv(&marked_state, None);
                    g.lemma_total_descend(
                        marked_was,
                        noted_was,
                        cur_was,
                        next_was,
                        stack_was,
                        next,
                        self.stack@,
                    );
                }
                continue ;
            }
            proof {
                if carry.has(MUTABLE) {
                    g.lemma_sub_head(sub_key);
                }
                g.lemma_release(self, link, next, self.stack@, exempt);
            }
            proof {
                g.lemma_total_advance(marked_was, noted_was, cur_was, next_was, stack_was);
            }
            if let Some(nx) = next {
                proof {
                    g.lemma_advance(self, link, nx, self.stack@);
                    g.lemma_sub_place(nx);
                }
                cur = nx;
                next = match self.links.get(cur) {
                    Some(x) => x.next_sub,
                    None => None,
                };
                continue ;
            }
            if self.stack.len() > 0 {
                let ghost stack_was = self.stack@;
                proof {
                    g.lemma_resume(self, link, stack_was);
                    g.lemma_sub_place(stack_was.last());
                }
                let top = match self.stack.pop() {
                    Some(l) => l,
                    None => cur,
                };
                cur = top;
                next = match self.links.get(cur) {
                    Some(x) => x.next_sub,
                    None => None,
                };
                proof {
                    marked_state.lemma_node_facts(None);
                    self.lemma_keep_inv(&marked_state, None);
                }
                continue ;
            }
            proof {
                assert(self.stack@ =~= Seq::<LinkKey>::empty());
            }
            break ;
        }
        proof {
            assert forall|l: LinkKey| #[trigger] g.behind(link, l) implies g.settled(self, l) by {
                assert(g.accounted(self, None, None, Seq::<LinkKey>::empty(), l));
            }
            assert forall|n: NodeKey, l: LinkKey|
                g.newly_marked(self, n) && #[trigger] g.sub_list(n).contains(l) implies g.settled(
                self,
                l,
            ) by {
                assert(g.accounted(self, None, None, Seq::<LinkKey>::empty(), l));
            }
            assert(g.queued_marked(self, noted));
            assert forall|n: NodeKey| #[trigger] self.nodes@.contains_key(n) implies self.nodes@[n].flags
                == (if total.0.contains(n) {
                g.nodes@[n].flags.spec_union(ReactiveFlags(PENDING))
            } else {
                g.nodes@[n].flags
            }) by {
                lemma_mark_pending(g.nodes@[n].flags.0);
                assert(marked.contains(n) <==> g.nodes@.contains_key(n) && is_idle(
                    g.nodes@[n].flags,
                ) && !is_idle(self.nodes@[n].flags));
            }
            assert(self.propagated(&g, link));
        }
    }
}

} // verus!
