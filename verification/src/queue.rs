//! The queue itself: a header and a buffer of entries, with the two
//! operations on it.

use vstd::prelude::*;
use crate::counter::{
    lemma_capacity_valid, lemma_position_bounds, lemma_slot_is_remainder, position, slot_of,
};
use crate::entry::{EntryView, QueueEntry};
use crate::error::{ReceiveError, SubmissionError};
use crate::flags::{ReceiveFlags, SubmissionFlags};
use crate::hdr::RawQueueHdr;
use crate::model::{
    lemma_new_queue_is_empty, lemma_receive_refused_when_empty, lemma_receive_takes_first,
    lemma_served_iff_waiting, lemma_space_iff_not_full, lemma_submit_adds_last,
    lemma_waiting_bit_is_apart, QueueView,
};
use crate::step::{Reception, Reservation, Step};

verus! {

/// What the entries of a buffer hold, slot by slot.
pub open spec fn entries_view<T>(buf: Seq<QueueEntry<T>>) -> Seq<EntryView<T>> {
    Seq::new(buf.len(), |i: int| buf[i]@)
}

/// What the result of a round of reception holds.
pub open spec fn taken_view<T>(step: Step<(QueueEntry<T>, bool)>) -> Step<(EntryView<T>, bool)> {
    match step {
        Step::Done((entry, wake)) => Step::Done((entry@, wake)),
        Step::WouldBlock => Step::WouldBlock,
        Step::Spin => Step::Spin,
        Step::Wait(b) => Step::Wait(b),
    }
}

/// A raw queue, comprising of a header to track the algorithm and a buffer to
/// hold queue entries.
pub struct RawQueue<T> {
    hdr: RawQueueHdr,
    buf: Vec<QueueEntry<T>>,
}

impl<T> View for RawQueue<T> {
    type V = QueueView<T>;

    closed spec fn view(&self) -> QueueView<T> {
        QueueView { hdr: self.hdr@, slots: entries_view(self.buf@) }
    }
}

impl<T: Copy> RawQueue<T> {
    /// Construct a new raw queue out of a header and a buffer. A new header
    /// with a buffer of as many entries as the header says, none of them
    /// stamped yet, makes a settled queue that holds nothing.
    pub fn new(hdr: RawQueueHdr, buf: Vec<QueueEntry<T>>) -> (q: Self)
        ensures
            q@ == (QueueView { hdr: hdr@, slots: entries_view(buf@) }),
            ({
                &&& hdr@.wf()
                &&& hdr@.head == 0
                &&& hdr@.bell == 0
                &&& hdr@.tail == 0
                &&& buf@.len() == hdr@.cap()
                &&& forall|i: int|
                    0 <= i < buf@.len() ==> (#[trigger] buf@[i])@.cmd_slot < 0x8000_0000
            }) ==> q@.settled() && q@.pending() == Seq::<(u32, T)>::empty() && !q@.hdr.full(),
    {
        let q = Self { hdr, buf };
        proof {
            let unstamped = forall|i: int|
                0 <= i < buf@.len() ==> (#[trigger] buf@[i])@.cmd_slot < 0x8000_0000;
            if q@.wf() && hdr@.head == 0 && hdr@.bell == 0 && hdr@.tail == 0 && unstamped {
                assert forall|s: int| 0 <= s < q@.slots.len() implies (#[trigger] q@.slots[
                    s
                ]).cmd_slot < 0x8000_0000 by {
                    assert(buf@[s]@.cmd_slot < 0x8000_0000);
                }
                lemma_new_queue_is_empty(q@);
                lemma_space_iff_not_full(q@);
                lemma_capacity_valid(q@.hdr.l2len);
            }
        }
        q
    }

    /// The header of the queue.
    pub fn hdr(&self) -> (hdr: &RawQueueHdr)
        ensures
            hdr@ == self@.hdr,
    {
        &self.hdr
    }

    /// The entry in the slot that the offset `off` falls on.
    fn get_buf(&self, off: usize) -> (item: &QueueEntry<T>)
        requires
            self@.wf(),
        ensures
            item@ == self@.slots[(off as int) % self@.cap()],
    {
        let idx: usize = self.hdr.slot(off);
        &self.buf[idx]
    }

    /// One round of a submission of `item`. A round that finds space draws
    /// the next position, writes the entry into the slot of that position,
    /// stamps it with the position and its turn bit, and rings the doorbell;
    /// `Done` then says whether the consumer sleeps and is to be woken on the
    /// doorbell word. A round that finds no space draws no position, leaves
    /// the buffer alone and says what the producer is to do; a round that is
    /// refused leaves the queue and the producer's state as they were.
    pub fn poll_submit(
        &mut self,
        item: QueueEntry<T>,
        flags: SubmissionFlags,
        r: &mut Reservation,
    ) -> (step: Step<bool>)
        requires
            old(self)@.wf(),
        ensures
            (final(self)@, *final(r), step) == old(self)@.submit_round(
                item@.info,
                item@.data,
                *old(r),
                flags.non_block(),
            ),
            final(self)@.wf(),
            step is WouldBlock ==> final(self)@ == old(self)@ && *final(r) == *old(r),
    {
        proof {
            lemma_position_bounds(self@.hdr.head as int);
        }
        match self.hdr.reserve_slot(flags, r) {
            Step::Done(h) => {
                let idx: usize = self.hdr.slot(h as usize);
                let turn: bool = self.hdr.get_turn(h);
                let bit: u32 = if turn {
                    1u32 << 31
                } else {
                    0
                };
                let mut entry = item;
                entry.set_cmd_slot(h | bit);
                proof {
                    reveal(slot_of);
                    assert(h < 0x8000_0000);
                    assert(h | (1u32 << 31) == h + 0x8000_0000) by (bit_vector)
                        requires
                            h < 0x8000_0000,
                    ;
                    assert(h | 0 == h) by (bit_vector);
                    lemma_position_bounds(h as int);
                }
                let ghost before = self@;
                self.buf.set(idx, entry);
                let wake = self.hdr.ring();
                proof {
                    assert(entries_view(self.buf@) =~= before.slots.update(idx as int, entry@));
                }
                Step::Done(wake)
            },
            Step::WouldBlock => Step::WouldBlock,
            Step::Spin => Step::Spin,
            Step::Wait(t) => Step::Wait(t),
        }
    }

    /// One round of a reception. A round that finds the entry at the tail
    /// published and stamped for this trip copies it out and advances the
    /// tail; `Done` then holds the entry and says whether a producer sleeps
    /// and is to be woken on the tail word. The slot keeps what it held.
    /// Another round leaves the tail where it is and says what the consumer is
    /// to do.
    pub fn poll_receive(&mut self, flags: ReceiveFlags, w: &mut Reception) -> (step: Step<
        (QueueEntry<T>, bool),
    >)
        requires
            old(self)@.wf(),
        ensures
            (final(self)@, *final(w), taken_view(step)) == old(self)@.receive_round(
                *old(w),
                flags.non_block(),
            ),
            final(self)@.wf(),
    {
        proof {
            lemma_capacity_valid(self@.hdr.l2len);
            lemma_slot_is_remainder(self@.cap(), self@.hdr.tail as int);
            lemma_position_bounds(self@.hdr.tail as int);
        }
        match self.hdr.get_next_ready(flags, &self.buf, w) {
            Step::Done(t) => {
                proof {
                    reveal(slot_of);
                }
                let item: QueueEntry<T> = *self.get_buf(t as usize);
                let wake = self.hdr.advance_tail();
                Step::Done((item, wake))
            },
            Step::WouldBlock => Step::WouldBlock,
            Step::Spin => Step::Spin,
            Step::Wait(b) => Step::Wait(b),
        }
    }

    /// Submit a data item of type T, wrapped in a QueueEntry, to the queue.
    ///
    /// The call tests once whether the next position has space. With space it
    /// draws that position, writes the entry into its slot, stamps it and
    /// rings the doorbell. Without space it returns `WouldBlock` and leaves
    /// the queue as it was: no position is drawn, so nothing is left for the
    /// consumer to wait on.
    ///
    /// A call that is to wait for space does not return before the consumer
    /// has made some. A queue that is borrowed for the call has no consumer at
    /// work, so such a call is left to `poll_submit` and the caller's own
    /// loop: without `NON_BLOCK`, the queue must have space.
    ///
    /// On any queue the contract gives the result and the queue's new state.
    /// On a settled queue it says the same in terms of the entries that wait:
    /// the call succeeds exactly if fewer entries wait than the queue has
    /// slots, and then the entry is the last of those that wait.
    pub fn submit(&mut self, item: QueueEntry<T>, flags: SubmissionFlags) -> (res: Result<
        (),
        SubmissionError,
    >)
        requires
            old(self)@.wf(),
            flags.non_block() || !old(self)@.hdr.full(),
        ensures
            final(self)@.wf(),
            final(self)@ == old(self)@.submit_round(
                item@.info,
                item@.data,
                Reservation::fresh(),
                flags.non_block(),
            ).0,
            res is Ok <==> !old(self)@.hdr.full(),
            res matches Err(e) ==> e == SubmissionError::WouldBlock && final(self)@ == old(self)@,
            old(self)@.settled() ==> final(self)@.settled(),
            old(self)@.settled() ==> (res is Ok <==> old(self)@.pending().len() < old(
                self,
            )@.cap()),
            old(self)@.settled() && res is Ok ==> final(self)@.pending() == old(
                self,
            )@.pending().push((item@.info, item@.data)),
            old(self)@.settled() ==> (final(self)@.hdr.full() <==> final(self)@.pending().len()
                == final(self)@.cap()),
            old(self)@.settled() ==> (final(self)@.entry_served() <==> final(self)@.pending().len()
                > 0),
    {
        proof {
            if self@.settled() {
                lemma_space_iff_not_full(self@);
                if self@.pending().len() < self@.cap() {
                    lemma_submit_adds_last(
                        self@,
                        item@.info,
                        item@.data,
                        Reservation::fresh(),
                        flags.non_block(),
                    );
                }
            }
        }
        let mut r = Reservation::new();
        let step = self.poll_submit(item, flags, &mut r);
        proof {
            if old(self)@.settled() {
                lemma_space_iff_not_full(self@);
                lemma_served_iff_waiting(self@);
            }
        }
        match step {
            Step::Done(_) => Ok(()),
            _ => Err(SubmissionError::WouldBlock),
        }
    }

    /// Receive data from the queue, returning either that data or an error.
    ///
    /// The call looks once at the slot of the tail. If the doorbell has left
    /// the tail and the slot carries the stamp of this trip, it copies the
    /// entry out and advances the tail. Else it returns `WouldBlock` and
    /// leaves the queue as it was.
    ///
    /// A call that is to wait for an entry does not return before a producer
    /// has published one. A queue that is borrowed for the call has no
    /// producer at work, so such a call is left to `poll_receive` and the
    /// caller's own loop: without `NON_BLOCK`, the entry must be there.
    ///
    /// On any queue the contract gives the result and the queue's new state.
    /// On a queue that keeps the invariant it says the same in terms of the
    /// entries that wait: the call succeeds exactly if an entry waits, and
    /// then it hands out the oldest and leaves the others in their order.
    pub fn receive(&mut self, flags: ReceiveFlags) -> (res: Result<QueueEntry<T>, ReceiveError>)
        requires
            old(self)@.wf(),
            flags.non_block() || old(self)@.entry_served(),
        ensures
            final(self)@.wf(),
            final(self)@ == old(self)@.receive_round(Reception::fresh(), flags.non_block()).0,
            res is Ok <==> old(self)@.entry_served(),
            res matches Ok(entry) ==> {
                &&& entry@ == old(self)@.slot_at(0)
                &&& final(self)@ == old(self)@.advanced()
            },
            res matches Err(e) ==> e == ReceiveError::WouldBlock && final(self)@ == old(self)@,
            old(self)@.inv() ==> final(self)@.inv(),
            old(self)@.settled() ==> final(self)@.settled(),
            old(self)@.inv() ==> (res is Ok <==> old(self)@.pending().len() > 0),
            old(self)@.inv() ==> (res matches Ok(entry) ==> {
                &&& (entry@.info, entry@.data) == old(self)@.pending()[0]
                &&& final(self)@.pending() == old(self)@.pending().drop_first()
            }),
            old(self)@.inv() ==> (final(self)@.entry_served() <==> final(self)@.pending().len()
                > 0),
            old(self)@.settled() ==> (final(self)@.hdr.full() <==> final(self)@.pending().len()
                == final(self)@.cap()),
    {
        proof {
            if self@.inv() {
                if self@.pending().len() > 0 {
                    lemma_receive_takes_first(self@, Reception::fresh(), flags.non_block());
                } else {
                    lemma_receive_refused_when_empty(self@, Reception::fresh());
                }
            }
            lemma_waiting_bit_is_apart(self@, false);
        }
        let mut w = Reception::new();
        let step = self.poll_receive(flags, &mut w);
        proof {
            if old(self)@.inv() {
                lemma_served_iff_waiting(self@);
            }
            if old(self)@.settled() {
                lemma_space_iff_not_full(self@);
            }
        }
        match step {
            Step::Done((entry, _)) => Ok(entry),
            _ => Err(ReceiveError::WouldBlock),
        }
    }
}

} // verus!
