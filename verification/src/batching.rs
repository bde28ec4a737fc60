use crate::keys::NodeKey;
use crate::system::ReactiveSystem;
use vstd::prelude::*;

verus! {

impl ReactiveSystem {
    /// No effect is queued and none is being drained.
    pub open spec fn drained(&self) -> bool {
        self.queued_length == 0 && self.notify_index == 0
    }

    /// The queued effects that are still to run, in the order they will run.
    pub open spec fn pending_effects(&self) -> Seq<NodeKey> {
        self.queued@.subrange(self.notify_index as int, self.queued_length as int)
    }

    /// `self` with another number of open batches.
    pub open spec fn with_depth(&self, depth: usize) -> ReactiveSystem {
        ReactiveSystem { batch_depth: depth, ..*self }
    }

    /// What `flush` returns on `self`.
    pub open spec fn next_effect(&self) -> Option<NodeKey> {
        if self.notify_index < self.queued_length {
            Some(self.queued@[self.notify_index as int])
        } else {
            None
        }
    }

    /// What `flush` makes of `self`.
    pub open spec fn flushed_once(&self) -> ReactiveSystem {
        if self.notify_index < self.queued_length {
            ReactiveSystem { notify_index: (self.notify_index + 1) as usize, ..*self }
        } else {
            ReactiveSystem { notify_index: 0, queued_length: 0, ..*self }
        }
    }

    /// Opens a batch: until it is closed again, writes queue effects and run
    /// none.
    pub fn start_batch(&mut self)
        requires
            old(self).batch_depth < usize::MAX,
        ensures
            *final(self) == old(self).with_depth((old(self).batch_depth + 1) as usize),
            old(self).wf() ==> final(self).wf(),
    {
        self.batch_depth = self.batch_depth + 1;
        proof {
            if old(self).wf() {
                self.lemma_keep_wf(old(self));
            }
        }
    }

    /// Closes a batch. Returns whether it was the outermost one, in which case
    /// the queue is to be flushed now.
    pub fn end_batch(&mut self) -> (r: bool)
        requires
            old(self).batch_depth > 0,
        ensures
            *final(self) == old(self).with_depth((old(self).batch_depth - 1) as usize),
            r == (old(self).batch_depth == 1),
            old(self).wf() ==> final(self).wf(),
    {
        self.batch_depth = self.batch_depth - 1;
        proof {
            if old(self).wf() {
                self.lemma_keep_wf(old(self));
            }
        }
        self.batch_depth == 0
    }

    /// One step of a flush. Hands out the next queued effect, for the caller
    /// to run, or, when none is left, resets the queue and returns nothing.
    /// Effects that get queued while one runs are handed out by later calls,
    /// so a flush is: call until nothing is returned.
    pub fn flush(&mut self) -> (r: Option<NodeKey>)
        requires
            old(self).queue_wf(),
        ensures
            final(self).queue_wf(),
            r == old(self).next_effect(),
            *final(self) == old(self).flushed_once(),
            r is Some ==> final(self).pending_effects() == old(self).pending_effects().drop_first(),
            r is None ==> final(self).drained(),
            old(self).wf() ==> final(self).wf(),
    {
        if self.notify_index < self.queued_length {
            let effect = self.queued[self.notify_index];
            self.notify_index = self.notify_index + 1;
            proof {
                assert(self.pending_effects() =~= old(self).pending_effects().drop_first());
                if old(self).wf() {
                    self.lemma_keep_wf(old(self));
                }
            }
            Some(effect)
        } else {
            self.notify_index = 0;
            self.queued_length = 0;
            proof {
                if old(self).wf() {
                    self.lemma_keep_wf(old(self));
                }
            }
            None
        }
    }
}

} // verus!
