use crate::arena::ARENA_CAPACITY;
use crate::flags::ReactiveFlags;
use crate::flags::DIRTY;
use crate::flags::MUTABLE;
use crate::flags::WATCHING;
use crate::keys::NodeKey;
use crate::system::ReactiveSystem;
use vstd::prelude::*;

verus! {

impl ReactiveSystem {
    /// The subscriber at the head of the node's list.
    pub open spec fn subscriber_above(&self, node: NodeKey) -> Option<NodeKey> {
        match self.nodes@[node].subs {
            Some(l) => Some(self.links@[l].sub),
            None => None,
        }
    }

    /// The node that a read is booked on: `start` if that is mutable or
    /// watching, else the first such node on the way up from it through the
    /// heads of the subscriber lists, `fuel` steps at most.
    pub open spec fn tracker(&self, start: Option<NodeKey>, fuel: nat) -> Option<NodeKey>
        decreases fuel,
    {
        match start {
            None => None,
            Some(k) => if !self.nodes@.contains_key(k) {
                None
            } else if self.nodes@[k].flags.any(MUTABLE | WATCHING) {
                Some(k)
            } else if fuel == 0 {
                None
            } else {
                self.tracker(self.subscriber_above(k), (fuel - 1) as nat)
            },
        }
    }

    /// The node that a read made now is booked on, if any. The way up from
    /// the active subscriber is followed for as many steps as there are
    /// nodes.
    pub open spec fn reader(&self) -> Option<NodeKey> {
        self.tracker(self.active_sub, self.nodes@.len())
    }

    /// `self` is `before` with a read of `node` booked on the reader.
    pub open spec fn read_booked(&self, before: &ReactiveSystem, node: NodeKey) -> bool {
        match before.reader() {
            Some(t) => self.link_done(before, node, t, before.cycle),
            None => *self == *before,
        }
    }

    /// A read is booked on a node that is alive.
    pub proof fn lemma_tracker_alive(&self, start: Option<NodeKey>, fuel: nat)
        ensures
            self.tracker(start, fuel) matches Some(t) ==> self.nodes@.contains_key(t),
        decreases fuel,
    {
        match start {
            None => {},
            Some(k) => {
                if self.nodes@.contains_key(k) && !self.nodes@[k].flags.any(MUTABLE | WATCHING)
                    && fuel > 0 {
                    self.lemma_tracker_alive(self.subscriber_above(k), (fuel - 1) as nat);
                }
            },
        }
    }

    /// Booking a read changes no node but in its link lists, and nothing of
    /// the scheduler.
    pub proof fn lemma_read_booked_keeps(&self, before: &ReactiveSystem, node: NodeKey)
        requires
            self.read_booked(before, node),
        ensures
            self.same_but_graph(before),
            self.nodes@.dom() =~= before.nodes@.dom(),
            forall|n: NodeKey| #[trigger]
                self.nodes@.contains_key(n) ==> crate::links::same_but_links(
                    self.nodes@[n],
                    before.nodes@[n],
                ),
    {
        before.lemma_tracker_alive(before.active_sub, before.nodes@.len());
        match before.reader() {
            Some(t) => {
                self.lemma_link_done_keeps(before, node, t, before.cycle);
            },
            None => {},
        }
    }

    /// Finds the node that a read made now is booked on.
    pub fn find_reader(&self) -> (r: Option<NodeKey>)
        requires
            self.wf(),
        ensures
            r == self.reader(),
            r matches Some(t) ==> self.nodes@.contains_key(t),
    {
        let mut cur = self.active_sub;
        let mut fuel: usize = self.nodes.len();
        let mut found: Option<NodeKey> = None;
        loop
            invariant_except_break
                self.reader() == self.tracker(cur, fuel as nat),
                found is None,
            invariant
                self.wf(),
            ensures
                found == self.reader(),
                found matches Some(t) ==> self.nodes@.contains_key(t),
            decreases fuel,
        {
            let k = match cur {
                Some(k) => k,
                None => {
                    break ;
                },
            };
            let (flags, subs) = match self.nodes.get(k) {
                Some(n) => (n.flags, n.subs),
                None => {
                    break ;
                },
            };
            if flags.intersects(ReactiveFlags::mutable().union(ReactiveFlags::watching())) {
                found = Some(k);
                break ;
            }
            if fuel == 0 {
                break ;
            }
            proof {
                self.lemma_sub_head(k);
            }
            cur = match subs {
                Some(l) => match self.links.get(l) {
                    Some(x) => Some(x.sub),
                    None => None,
                },
                None => None,
            };
            fuel = fuel - 1;
        }
        found
    }

    /// Books a read of `node` on the reader, if there is one. The arena of
    /// links must have room only where there is a reader.
    pub fn track(&mut self, node: NodeKey)
        requires
            old(self).wf(),
            old(self).nodes@.contains_key(node),
            old(self).reader() is Some ==> old(self).links@.len() < ARENA_CAPACITY,
        ensures
            final(self).wf(),
            final(self).read_booked(old(self), node),
    {
        match self.find_reader() {
            Some(t) => {
                let version = self.cycle;
                self.link(node, t, version);
            },
            None => {},
        }
    }

    /// `self` is `before` after a dirty signal was settled: the signal is
    /// mutable and nothing else, and, where it has subscribers, those of them
    /// that were pending are dirty, and the watching effects among these are
    /// queued. Nothing beyond the signal's own subscribers is touched.
    pub open spec fn signal_settled(&self, before: &ReactiveSystem, node: NodeKey) -> bool {
        &&& self.wf()
        &&& match before.nodes@[node].subs {
            Some(subs) => exists|mid: ReactiveSystem|
                mid.flags_set(before, node, ReactiveFlags(MUTABLE))
                    && #[trigger] self.shallow_marked(&mid, subs),
            None => self.flags_set(before, node, ReactiveFlags(MUTABLE)),
        }
    }

    /// Records a read of a signal. A signal that was written since it was
    /// read last is settled first, and its pending subscribers are made
    /// dirty. Then the read is booked on the reader. The arena of links must
    /// have room only where a subscriber is active.
    pub fn signal_track(&mut self, node: NodeKey)
        requires
            old(self).wf(),
            old(self).nodes@.contains_key(node),
            old(self).active_sub is Some ==> old(self).links@.len() < ARENA_CAPACITY,
        ensures
            final(self).wf(),
            !old(self).nodes@[node].flags.has(DIRTY) ==> final(self).read_booked(old(self), node),
            old(self).nodes@[node].flags.has(DIRTY) ==> exists|mid: ReactiveSystem|
                mid.signal_settled(old(self), node) && #[trigger] final(self).read_booked(&mid, node),
    {
        let (flags, subs) = match self.nodes.get(node) {
            Some(n) => (n.flags, n.subs),
            None => (ReactiveFlags::none(), None),
        };
        if flags.contains(ReactiveFlags::dirty()) {
            self.update_signal(node);
            let ghost set = *self;
            if let Some(subs) = subs {
                proof {
                    set.lemma_sub_head(node);
                    set.lemma_sub_place(subs);
                }
                self.shallow_propagate(subs);
                proof {
                    assert(self.shallow_marked(&set, subs));
                }
            }
            let ghost mid = *self;
            assert(mid.signal_settled(old(self), node));
            self.track(node);
            assert(self.read_booked(&mid, node));
        } else {
            self.track(node);
        }
    }
}

} // verus!
