//! The hand-over of drawn frames from the logic thread to the runtime thread,
//! and which allocation sequences each end retires on the way.

use vstd::prelude::*;

verus! {

/// The logic thread's end: remembers the allocation sequence of the frame it
/// sent last.
pub struct SenderState {
    pub sent_alloc_seq: usize,
}

/// The runtime thread's end: remembers the allocation sequence of the frame it
/// holds.
pub struct ReceiverState {
    pub fresh_alloc_seq: usize,
}

impl SenderState {
    /// Nothing sent yet.
    pub fn new() -> (s: SenderState)
        ensures
            s.sent_alloc_seq == 0,
    {
        SenderState { sent_alloc_seq: 0 }
    }

    /// Records that the frame of sequence `seq` was sent. If it replaced a
    /// frame the receiver never took (`replaced_unseen`), that frame is drawn by
    /// no one, and its sequence is returned to be retired early.
    pub fn on_send(&mut self, seq: usize, replaced_unseen: bool) -> (retire_early: Option<usize>)
        ensures
            final(self).sent_alloc_seq == seq,
            retire_early == (if replaced_unseen { Some(old(self).sent_alloc_seq) } else { None::<usize> }),
    {
        let prev = self.sent_alloc_seq;
        self.sent_alloc_seq = seq;
        if replaced_unseen {
            Some(prev)
        } else {
            None
        }
    }
}

impl ReceiverState {
    /// Holding no frame yet: the placeholder frame of sequence 0.
    pub fn new() -> (s: ReceiverState)
        ensures
            s.fresh_alloc_seq == 0,
    {
        ReceiverState { fresh_alloc_seq: 0 }
    }

    /// Records what was taken from the hand-over: a newer frame of sequence
    /// `seq`, or nothing. When a newer frame replaces the one held, every
    /// sequence up to the replaced one's is returned to be retired.
    pub fn on_take(&mut self, taken: Option<usize>) -> (retire_up_to: Option<usize>)
        ensures
            match taken {
                Some(seq) => final(self).fresh_alloc_seq == seq && retire_up_to == Some(
                    old(self).fresh_alloc_seq,
                ),
                None => final(self).fresh_alloc_seq == old(self).fresh_alloc_seq && retire_up_to
                    == None::<usize>,
            },
    {
        match taken {
            Some(seq) => {
                let retired = self.fresh_alloc_seq;
                self.fresh_alloc_seq = seq;
                Some(retired)
            },
            None => None,
        }
    }
}

} // verus!
