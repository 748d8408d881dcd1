//! The queue's header: the counters that producers and the consumer
//! coordinate through, and the tests and steps that work on them.

use vstd::prelude::*;
use vstd::arithmetic::power2::lemma_pow2_pos;
use vstd::bits::{
    low_bits_mask, lemma_usize_low_bits_mask_is_mod, lemma_usize_pow2_no_overflow,
    lemma_usize_shl_is_mul,
};
use crate::counter::{
    capacity, distance, lemma_distance_is, lemma_position_bounds, position, ready, slot_of,
    turn_of, waiting_bit, with_waiting_bit,
};
use crate::entry::QueueEntry;
use crate::flags::{ReceiveFlags, SubmissionFlags};
use crate::step::{Reception, Reservation, Step};

verus! {

/// What a queue header holds.
pub struct HdrView {
    /// The capacity exponent: the buffer has `1 << l2len` slots.
    pub l2len: usize,
    /// The size of one entry in bytes. The algorithm does not read it.
    pub stride: usize,
    /// The reservation counter of the producers.
    pub head: u32,
    /// The number of producers that sleep until there is space.
    pub waiters: u32,
    /// The doorbell, which producers advance after they have published.
    pub bell: u64,
    /// The consumer's counter, with the consumer's waiting flag in bit 31.
    pub tail: u64,
}

impl HdrView {
    /// The number of slots of the buffer that goes with the header.
    pub open spec fn cap(self) -> int {
        capacity(self.l2len)
    }

    /// A header whose capacity the 31-bit counters can serve.
    pub open spec fn wf(self) -> bool {
        self.l2len <= 30
    }

    /// Whether the position `h` finds no space: it is a whole buffer or more
    /// ahead of the tail.
    pub open spec fn blocked(self, h: u32) -> bool {
        distance(h as int, self.tail as int) >= self.cap()
    }

    /// Whether the consumer finds its next entry in a slot whose control word
    /// is `cmd`: the doorbell has left the tail, and the slot carries the
    /// stamp of this trip.
    pub open spec fn served(self, cmd: u32) -> bool {
        position(self.bell as int) != position(self.tail as int) && ready(
            self.cap(),
            position(self.tail as int),
            cmd,
        )
    }

    /// Whether the next position that a producer would draw finds no space.
    pub open spec fn full(self) -> bool {
        self.blocked(self.head)
    }

    /// One round of a producer's reservation: the header and the producer's
    /// state after it, and what the producer is to do next. The head counter
    /// moves only in a round that finds space: a round that is refused, or
    /// that tells the producer to wait, draws no position.
    pub open spec fn reserve_round(self, r: Reservation, non_block: bool) -> (
        HdrView,
        Reservation,
        Step<u32>,
    ) {
        if !self.full() {
            (
                HdrView {
                    head: u32::wrapping_add(self.head, 1),
                    waiters: if r.waiter {
                        u32::wrapping_sub(self.waiters, 1)
                    } else {
                        self.waiters
                    },
                    ..self
                },
                Reservation { waiter: false, ..r },
                Step::Done(position(self.head as int) as u32),
            )
        } else if non_block {
            (self, r, Step::WouldBlock)
        } else if r.attempts != 0 {
            (self, Reservation { attempts: (r.attempts - 1) as u32, ..r }, Step::Spin)
        } else {
            (
                HdrView {
                    waiters: if r.waiter {
                        self.waiters
                    } else {
                        u32::wrapping_add(self.waiters, 1)
                    },
                    ..self
                },
                Reservation { waiter: true, ..r },
                Step::Wait(self.tail),
            )
        }
    }

    /// One round of the consumer's wait, where `cmd` is the control word of
    /// the slot at the tail: the header and the consumer's state after it,
    /// and what the consumer is to do next.
    pub open spec fn ready_round(self, cmd: u32, w: Reception, non_block: bool) -> (
        HdrView,
        Reception,
        Step<u64>,
    ) {
        if self.served(cmd) {
            (
                if w.attempts == 0 {
                    HdrView { tail: with_waiting_bit(self.tail, false), ..self }
                } else {
                    self
                },
                w,
                Step::Done(position(self.tail as int) as u64),
            )
        } else if non_block {
            (self, w, Step::WouldBlock)
        } else if w.attempts != 0 {
            (self, Reception { attempts: (w.attempts - 1) as u32 }, Step::Spin)
        } else {
            (
                HdrView { tail: with_waiting_bit(self.tail, true), ..self },
                w,
                Step::Wait(self.bell),
            )
        }
    }
}

/// A raw queue header. This contains all the necessary counters and info to
/// run the queue algorithm.
pub struct RawQueueHdr {
    l2len: usize,
    stride: usize,
    head: u32,
    waiters: u32,
    bell: u64,
    tail: u64,
}

impl View for RawQueueHdr {
    type V = HdrView;

    closed spec fn view(&self) -> HdrView {
        HdrView {
            l2len: self.l2len,
            stride: self.stride,
            head: self.head,
            waiters: self.waiters,
            bell: self.bell,
            tail: self.tail,
        }
    }
}

impl RawQueueHdr {
    /// Construct a new raw queue header: every counter starts at zero.
    pub fn new(l2len: usize, stride: usize) -> (hdr: Self)
        ensures
            hdr@ == (HdrView { l2len, stride, head: 0, waiters: 0, bell: 0, tail: 0 }),
    {
        Self { l2len, stride, head: 0, waiters: 0, bell: 0, tail: 0 }
    }

    /// Construct the header of a queue that is in use, out of the words that
    /// it holds.
    pub fn from_parts(
        l2len: usize,
        stride: usize,
        head: u32,
        waiters: u32,
        bell: u64,
        tail: u64,
    ) -> (hdr: Self)
        ensures
            hdr@ == (HdrView { l2len, stride, head, waiters, bell, tail }),
    {
        Self { l2len, stride, head, waiters, bell, tail }
    }

    /// The head word: the counter that producers draw their positions from.
    pub fn head(&self) -> (word: u32)
        ensures
            word == self@.head,
    {
        self.head
    }

    /// The size of one entry in bytes, as it was given when the header was
    /// made. The queue does not read it; it is there for whoever lays the
    /// buffer out.
    pub fn stride(&self) -> (stride: usize)
        ensures
            stride == self@.stride,
    {
        self.stride
    }

    /// The tail word: the word that producers sleep on.
    pub fn tail(&self) -> (word: u64)
        ensures
            word == self@.tail,
    {
        self.tail
    }

    /// The doorbell word: the word that the consumer sleeps on.
    pub fn bell(&self) -> (word: u64)
        ensures
            word == self@.bell,
    {
        self.bell
    }

    /// The number of slots of the buffer.
    pub fn len(&self) -> (n: usize)
        requires
            self@.l2len < usize::BITS,
        ensures
            n == self@.cap(),
            n > 0,
    {
        proof {
            lemma_usize_pow2_no_overflow(self.l2len as nat);
            lemma_pow2_pos(self.l2len as nat);
            lemma_usize_shl_is_mul(1, self.l2len);
        }
        1usize << self.l2len
    }

    /// Whether the position `h` finds no space while the tail word reads
    /// `t`: `h` is a whole buffer or more ahead of `t`.
    pub fn is_full(&self, h: u32, t: u64) -> (full: bool)
        requires
            self@.l2len < usize::BITS,
        ensures
            full == (distance(h as int, t as int) >= self@.cap()),
    {
        let hp: u64 = (h & 0x7fffffff) as u64;
        let tp: u64 = t & 0x7fffffff;
        assert(hp == h % 0x8000_0000) by (bit_vector)
            requires
                hp == (h & 0x7fffffff) as u64,
        ;
        assert(tp == t % 0x8000_0000) by (bit_vector)
            requires
                tp == t & 0x7fffffff,
        ;
        proof {
            reveal(position);
            lemma_distance_is(h as int, t as int);
        }
        let ahead: u64 = if hp >= tp {
            hp - tp
        } else {
            hp + 0x8000_0000 - tp
        };
        ahead >= self.len() as u64
    }

    /// Whether the doorbell word `bell` and the tail word `tail` stand at the
    /// same position: nothing is published that the consumer has not taken.
    pub fn is_empty(&self, bell: u64, tail: u64) -> (empty: bool)
        ensures
            empty == (position(bell as int) == position(tail as int)),
    {
        proof {
            reveal(position);
        }
        assert(bell & 0x7fffffff == bell % 0x8000_0000) by (bit_vector);
        assert(tail & 0x7fffffff == tail % 0x8000_0000) by (bit_vector);
        (bell & 0x7fffffff) == (tail & 0x7fffffff)
    }

    /// Whether the consumer at tail `t` accepts `item`: the entry's turn bit
    /// is the one that producers stamp on the trip that `t` belongs to.
    pub fn is_turn<T>(&self, t: u64, item: &QueueEntry<T>) -> (accepted: bool)
        requires
            self@.l2len < usize::BITS,
        ensures
            accepted == ready(self@.cap(), t as int, item@.cmd_slot),
    {
        proof {
            reveal(turn_of);
        }
        let turn: u64 = (t / (self.len() as u64)) % 2;
        let cmd: u32 = item.get_cmd_slot();
        let val: u32 = cmd >> 31;
        assert(val == cmd / 0x8000_0000) by (bit_vector)
            requires
                val == cmd >> 31,
        ;
        (val == 0) == (turn == 1)
    }

    /// Whether the producer of position `h` is to set the turn bit in its
    /// stamp: it does so on even trips round the buffer.
    pub fn get_turn(&self, h: u32) -> (set: bool)
        requires
            self@.l2len < u32::BITS,
        ensures
            set == (turn_of(self@.cap(), h as int) == 0),
    {
        proof {
            reveal(turn_of);
            vstd::bits::lemma_u32_pow2_no_overflow(self.l2len as nat);
        }
        (h / (self.len() as u32)) % 2 == 0
    }

    /// Whether the consumer has announced that it sleeps.
    pub fn consumer_waiting(&self) -> (waiting: bool)
        ensures
            waiting == waiting_bit(self@.tail),
    {
        let t: u64 = self.tail;
        assert(((t & (1u64 << 31)) != 0) == ((t / 0x8000_0000) % 2 == 1)) by (bit_vector);
        (t & (1u64 << 31)) != 0
    }

    /// Whether any producer has announced that it sleeps.
    pub fn submitter_waiting(&self) -> (waiting: bool)
        ensures
            waiting == (self@.waiters > 0),
    {
        self.waiters > 0
    }

    /// Set or clear the consumer's waiting flag.
    pub fn consumer_set_waiting(&mut self, waiting: bool)
        ensures
            final(self)@ == (HdrView {
                tail: with_waiting_bit(old(self)@.tail, waiting),
                ..old(self)@
            }),
    {
        let t: u64 = self.tail;
        if waiting {
            assert(t | (1u64 << 31) == if (t / 0x8000_0000) % 2 == 1 {
                t
            } else {
                (t + 0x8000_0000) as u64
            }) by (bit_vector);
            self.tail = t | (1u64 << 31);
        } else {
            assert(t & !(1u64 << 31) == if (t / 0x8000_0000) % 2 == 1 {
                (t - 0x8000_0000) as u64
            } else {
                t
            }) by (bit_vector);
            self.tail = t & !(1u64 << 31);
        }
    }

    /// Count one more sleeping producer.
    pub fn inc_submit_waiting(&mut self)
        ensures
            final(self)@ == (HdrView {
                waiters: u32::wrapping_add(old(self)@.waiters, 1),
                ..old(self)@
            }),
    {
        self.waiters = self.waiters.wrapping_add(1);
    }

    /// Count one sleeping producer less.
    pub fn dec_submit_waiting(&mut self)
        ensures
            final(self)@ == (HdrView {
                waiters: u32::wrapping_sub(old(self)@.waiters, 1),
                ..old(self)@
            }),
    {
        self.waiters = self.waiters.wrapping_sub(1);
    }

    /// Ring the doorbell: advance it by one. The result says whether the
    /// consumer sleeps and is to be woken on the doorbell word.
    pub fn ring(&mut self) -> (wake: bool)
        ensures
            final(self)@ == (HdrView {
                bell: u64::wrapping_add(old(self)@.bell, 1),
                ..old(self)@
            }),
            wake == waiting_bit(old(self)@.tail),
    {
        self.bell = self.bell.wrapping_add(1);
        self.consumer_waiting()
    }

    /// Move the tail to the next position and clear the consumer's waiting
    /// flag. The result says whether a producer sleeps and is to be woken on
    /// the tail word.
    pub fn advance_tail(&mut self) -> (wake: bool)
        ensures
            final(self)@ == (HdrView {
                tail: position(old(self)@.tail + 1) as u64,
                ..old(self)@
            }),
            wake == (old(self)@.waiters > 0),
    {
        proof {
            reveal(position);
        }
        let t: u64 = self.tail;
        let next: u64 = t.wrapping_add(1) & 0x7fffffff;
        assert(next == (t + 1) % 0x8000_0000) by (bit_vector)
            requires
                next == t.wrapping_add(1) & 0x7fffffff,
        ;
        self.tail = next;
        self.submitter_waiting()
    }

    /// The slot of the buffer that the offset `off` falls on.
    pub fn slot(&self, off: usize) -> (idx: usize)
        requires
            self@.l2len < usize::BITS,
        ensures
            idx == (off as int) % self@.cap(),
            idx < self@.cap(),
    {
        let n: usize = self.len();
        proof {
            lemma_usize_pow2_no_overflow(self.l2len as nat);
            lemma_pow2_pos(self.l2len as nat);
            assert(n - 1 == low_bits_mask(self.l2len as nat));
            lemma_usize_low_bits_mask_is_mod(off, self.l2len as nat);
        }
        off & (n - 1)
    }

    /// One round of a producer's reservation. The round tests whether the
    /// next position has space. With space it draws that position from the
    /// head counter and grants its slot. Without space it draws nothing: the
    /// producer is told to give up, to spin, or, once it has spun long enough
    /// and has been counted among the sleeping producers, to sleep on the tail
    /// word. A round that is refused leaves header and producer as they were.
    pub fn reserve_slot(&mut self, flags: SubmissionFlags, r: &mut Reservation) -> (step: Step<u32>)
        requires
            old(self)@.l2len < usize::BITS,
        ensures
            (final(self)@, *final(r), step) == old(self)@.reserve_round(
                *old(r),
                flags.non_block(),
            ),
            step is WouldBlock ==> final(self)@ == old(self)@ && *final(r) == *old(r),
    {
        let h: u32 = self.head;
        let t: u64 = self.tail;
        if !self.is_full(h, t) {
            self.head = h.wrapping_add(1);
            if r.waiter {
                r.waiter = false;
                self.dec_submit_waiting();
            }
            proof {
                reveal(position);
            }
            assert(h & 0x7fffffff == h % 0x8000_0000) by (bit_vector);
            return Step::Done(h & 0x7fffffff);
        }
        if flags.contains(SubmissionFlags::NON_BLOCK) {
            return Step::WouldBlock;
        }
        if r.attempts != 0 {
            r.attempts = r.attempts - 1;
            return Step::Spin;
        }
        if !r.waiter {
            r.waiter = true;
            self.inc_submit_waiting();
        }
        Step::Wait(self.tail)
    }

    /// One round of the consumer's wait for the entry at the tail, where
    /// `buf` is the queue's buffer. With the entry there the round hands out
    /// the tail position; without it the consumer is told to give up, to
    /// spin, or, once it has spun long enough and has set its waiting flag, to
    /// sleep on the doorbell word. A round that finds the entry after the
    /// consumer has spun its rounds out clears the waiting flag.
    pub fn get_next_ready<T>(
        &mut self,
        flags: ReceiveFlags,
        buf: &Vec<QueueEntry<T>>,
        w: &mut Reception,
    ) -> (step: Step<u64>)
        requires
            old(self)@.l2len < usize::BITS,
            buf@.len() == old(self)@.cap(),
        ensures
            (final(self)@, *final(w), step) == old(self)@.ready_round(
                buf@[slot_of(old(self)@.cap(), old(self)@.tail as int)]@.cmd_slot,
                *old(w),
                flags.non_block(),
            ),
    {
        proof {
            reveal(position);
            lemma_position_bounds(self.tail as int);
        }
        let word: u64 = self.tail;
        let t: u64 = word & 0x7fffffff;
        assert(t == word % 0x8000_0000) by (bit_vector)
            requires
                t == word & 0x7fffffff,
        ;
        let b: u64 = self.bell;
        let idx: usize = self.slot(t as usize);
        proof {
            reveal(slot_of);
        }
        let item: &QueueEntry<T> = &buf[idx];
        if !self.is_empty(b, t) && self.is_turn(t, item) {
            if w.attempts == 0 {
                self.consumer_set_waiting(false);
            }
            return Step::Done(t);
        }
        if flags.contains(ReceiveFlags::NON_BLOCK) {
            return Step::WouldBlock;
        }
        if w.attempts != 0 {
            w.attempts = w.attempts - 1;
            return Step::Spin;
        }
        self.consumer_set_waiting(true);
        Step::Wait(self.bell)
    }
}

} // verus!
