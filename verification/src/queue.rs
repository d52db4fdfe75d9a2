//! The value-creation queue.
//!
//! Graph mutations (registration of new sub-DAGs into a change set) must be
//! serialized so that concurrent registrations see consistent state.  Each
//! change set owns one `ValueCreationQueue`: at most one reply channel holds
//! the mutation slot at a time, and waiting channels are admitted in FIFO
//! order.

use vstd::prelude::*;

use crate::{remove_all, Error};

verus! {

/// Mathematical state of a `ValueCreationQueue`: the channel currently
/// holding the mutation slot, if any, and the channels waiting for it,
/// oldest first.
#[verifier::ext_equal]
pub ghost struct QueueModel {
    pub processing: Option<Seq<char>>,
    pub pending: Seq<Seq<char>>,
}

/// An idle queue: no slot holder, nobody waiting.
pub open spec fn empty_queue() -> QueueModel {
    QueueModel { processing: Option::<Seq<char>>::None, pending: Seq::<Seq<char>>::empty() }
}

/// State after `ch` is enqueued: the slot holder is unchanged and `ch`
/// joins the back of the waiting line.
pub open spec fn queue_push(m: QueueModel, ch: Seq<char>) -> QueueModel {
    QueueModel { processing: m.processing, pending: m.pending.push(ch) }
}

/// State and result of `fetch_next`: while some channel holds the slot
/// nothing is handed out; otherwise the head of the waiting line (if any)
/// takes the slot and is returned.
pub open spec fn queue_fetch(m: QueueModel) -> (QueueModel, Option<Seq<char>>) {
    if m.processing is Some || m.pending.len() == 0 {
        (m, None)
    } else {
        (
            QueueModel { processing: Some(m.pending.first()), pending: m.pending.drop_first() },
            Some(m.pending.first()),
        )
    }
}

/// State and result of `finished_processing`: only the current slot holder
/// may release the slot; anyone else gets `UnexpectedJobId` and the queue
/// is left unchanged.
pub open spec fn queue_finish(m: QueueModel, ch: Seq<char>) -> (QueueModel, Result<(), Error>) {
    if m.processing == Some(ch) {
        (QueueModel { processing: None, pending: m.pending }, Ok(()))
    } else {
        (m, Err(Error::UnexpectedJobId))
    }
}

/// State after `ch` withdraws (cancellation or disconnect): the slot is
/// released if `ch` held it, and every waiting entry equal to `ch` leaves
/// the line.
pub open spec fn queue_remove(m: QueueModel, ch: Seq<char>) -> QueueModel {
    QueueModel {
        processing: if m.processing == Some(ch) {
            None
        } else {
            m.processing
        },
        pending: remove_all(m.pending, ch),
    }
}

/// Serialization queue for the graph-mutation slot of one change set.
pub struct ValueCreationQueue {
    processing: Option<String>,
    queue: Vec<String>,
}

impl View for ValueCreationQueue {
    type V = QueueModel;

    closed spec fn view(&self) -> QueueModel {
        QueueModel { processing: self.processing.deep_view(), pending: self.queue.deep_view() }
    }
}

impl Default for ValueCreationQueue {
    /// An idle queue: no slot holder, nobody waiting.
    fn default() -> (q: Self)
        ensures
            q@ == empty_queue(),
    {
        let q = ValueCreationQueue { processing: None, queue: Vec::new() };
        proof {
            assert(q@.pending =~= Seq::<Seq<char>>::empty());
        }
        q
    }
}

impl ValueCreationQueue {
    /// Enqueue `reply_channel` at the back of the waiting line.
    pub fn push(&mut self, reply_channel: String)
        ensures
            final(self)@ == queue_push(old(self)@, reply_channel@),
    {
        self.queue.push(reply_channel);
        proof {
            assert(self@.pending =~= old(self)@.pending.push(reply_channel@));
        }
    }

    /// Whether some channel currently holds the mutation slot.
    pub fn is_busy(&self) -> (r: bool)
        ensures
            r == (self@.processing is Some),
    {
        self.processing.is_some()
    }

    /// Hand the slot to the head of the waiting line, unless the slot is
    /// already held.
    pub fn fetch_next(&mut self) -> (r: Option<String>)
        ensures
            final(self)@ == queue_fetch(old(self)@).0,
            r.deep_view() == queue_fetch(old(self)@).1,
    {
        if self.is_busy() {
            return None;
        }
        if self.queue.len() == 0 {
            return None;
        }
        let next = self.queue.remove(0);
        self.processing = Some(next.clone());
        proof {
            assert(self@.pending =~= old(self)@.pending.drop_first());
        }
        Some(next)
    }

    /// Release the mutation slot.  Fails with `UnexpectedJobId` unless
    /// `reply_channel` is the current holder.
    pub fn finished_processing(&mut self, reply_channel: &String) -> (r: Result<(), Error>)
        ensures
            final(self)@ == queue_finish(old(self)@, reply_channel@).0,
            r == queue_finish(old(self)@, reply_channel@).1,
    {
        let matches_holder = match &self.processing {
            Some(p) => *p == *reply_channel,
            None => false,
        };
        if !matches_holder {
            return Err(Error::UnexpectedJobId);
        }
        self.processing = None;
        Ok(())
    }

    /// Withdraw `reply_channel` entirely: release the slot if it holds it
    /// and drop it from the waiting line.
    pub fn remove(&mut self, reply_channel: &String)
        ensures
            final(self)@ == queue_remove(old(self)@, reply_channel@),
    {
        let clear = match &self.processing {
            Some(p) => *p == *reply_channel,
            None => false,
        };
        if clear {
            self.processing = None;
        }
        let ghost orig = self.queue.deep_view();
        let mut kept: Vec<String> = Vec::new();
        let mut i: usize = 0;
        proof {
            assert(orig.take(0) =~= Seq::<Seq<char>>::empty());
            assert(kept.deep_view() =~= Seq::<Seq<char>>::empty());
        }
        while i < self.queue.len()
            invariant
                i <= self.queue@.len(),
                orig == self.queue.deep_view(),
                self@.processing == queue_remove(old(self)@, reply_channel@).processing,
                kept.deep_view() == remove_all(orig.take(i as int), reply_channel@),
            decreases self.queue@.len() - i,
        {
            let s = &self.queue[i];
            if !(*s == *reply_channel) {
                let ghost before = kept.deep_view();
                kept.push(s.clone());
                proof {
                    assert(kept.deep_view() =~= before.push(s@));
                }
            }
            proof {
                let t = orig.take(i as int + 1);
                assert(t.drop_last() =~= orig.take(i as int));
                assert(t.last() == s@);
                assert(kept.deep_view() == remove_all(t, reply_channel@));
            }
            i = i + 1;
        }
        proof {
            assert(orig.take(orig.len() as int) =~= orig);
        }
        self.queue = kept;
    }
}

} // verus!
