//! The queue as a mathematical value: the header's counters and the slots of
//! the buffer, the invariant of the protocol, the entries that wait for the
//! consumer, and what each operation makes of them.

use vstd::prelude::*;
use crate::counter::{
    distance, lemma_capacity_valid, lemma_distance_by_position, lemma_distance_is,
    lemma_distance_steps, lemma_first_trip, lemma_position_adds, lemma_position_bounds,
    lemma_ready_next_trip, lemma_same_position, lemma_slot_is_remainder, lemma_slots_distinct,
    lemma_stamp_is_ready, lemma_waiting_bit_keeps_position, lemma_wrapping_steps, position,
    ready, slot_of, stamp, waiting_bit, with_waiting_bit,
};
use crate::entry::EntryView;
use crate::hdr::HdrView;
use crate::step::{Reception, Reservation, Step};

verus! {

/// What a queue holds: its header and the entries in the slots of its buffer.
pub struct QueueView<T> {
    /// The header.
    pub hdr: HdrView,
    /// The buffer, slot by slot.
    pub slots: Seq<EntryView<T>>,
}

impl<T> QueueView<T> {
    /// The number of slots.
    pub open spec fn cap(self) -> int {
        self.hdr.cap()
    }

    /// The header's capacity is one that the counters can serve, and the
    /// buffer has that many slots.
    pub open spec fn wf(self) -> bool {
        &&& self.hdr.wf()
        &&& self.slots.len() == self.cap()
    }

    /// The number of positions that producers have reserved and the consumer
    /// has not passed.
    pub open spec fn reserved(self) -> int {
        distance(self.hdr.head as int, self.hdr.tail as int)
    }

    /// The number of entries that producers have rung the doorbell for and
    /// the consumer has not taken.
    pub open spec fn published(self) -> int {
        distance(self.hdr.bell as int, self.hdr.tail as int)
    }

    /// The entry in the slot that lies `i` positions after the tail.
    pub open spec fn slot_at(self, i: int) -> EntryView<T> {
        self.slots[slot_of(self.cap(), self.hdr.tail + i)]
    }

    /// Whether the slot `i` positions after the tail carries the stamp of the
    /// trip that the consumer is on when it gets there.
    pub open spec fn fresh(self, i: int) -> bool {
        ready(self.cap(), position(self.hdr.tail + i), self.slot_at(i).cmd_slot)
    }

    /// Whether the consumer finds its next entry: the doorbell has left the
    /// tail, and the slot at the tail carries the stamp of this trip.
    pub open spec fn entry_served(self) -> bool {
        self.hdr.served(self.slot_at(0).cmd_slot)
    }

    /// The invariant of a queue whose producers publish in the order of
    /// their reservations: the published entries lie in the slots right after
    /// the tail, stamped for the consumer, no other slot is, and every
    /// published entry was reserved.
    pub open spec fn inv(self) -> bool {
        &&& self.wf()
        &&& self.published() <= self.reserved()
        &&& self.published() <= self.cap()
        &&& forall|i: int| 0 <= i < self.cap() ==> (#[trigger] self.fresh(i) <==> i < self.published())
    }

    /// The invariant holds and no reservation is open: every position that a
    /// producer drew has been published.
    pub open spec fn settled(self) -> bool {
        &&& self.inv()
        &&& self.reserved() == self.published()
    }

    /// The entries that wait for the consumer, oldest first, each as its tag
    /// and its payload.
    pub open spec fn pending(self) -> Seq<(u32, T)> {
        Seq::new(
            self.published() as nat,
            |i: int| (self.slot_at(i).info, self.slot_at(i).data),
        )
    }

    /// The queue after the producer of position `pos` has written an entry
    /// into its slot and stamped it.
    pub open spec fn filled(self, pos: int, info: u32, data: T) -> QueueView<T> {
        QueueView {
            slots: self.slots.update(
                slot_of(self.cap(), pos),
                EntryView { cmd_slot: stamp(self.cap(), pos) as u32, info, data },
            ),
            ..self
        }
    }

    /// The queue after the doorbell was rung once.
    pub open spec fn rung(self) -> QueueView<T> {
        QueueView {
            hdr: HdrView { bell: u64::wrapping_add(self.hdr.bell, 1), ..self.hdr },
            ..self
        }
    }

    /// The queue after the consumer has moved its tail to the next position.
    pub open spec fn advanced(self) -> QueueView<T> {
        QueueView {
            hdr: HdrView { tail: position(self.hdr.tail + 1) as u64, ..self.hdr },
            ..self
        }
    }

    /// One round of a submission of the entry `(info, data)`: the queue and
    /// the producer's state after it, and what the producer is to do next.
    /// `Done` says whether the consumer is to be woken on the doorbell word.
    pub open spec fn submit_round(self, info: u32, data: T, r: Reservation, non_block: bool) -> (
        QueueView<T>,
        Reservation,
        Step<bool>,
    ) {
        let (hdr, r2, step) = self.hdr.reserve_round(r, non_block);
        let q = QueueView { hdr, ..self };
        match step {
            Step::Done(pos) => (
                q.filled(pos as int, info, data).rung(),
                r2,
                Step::Done(waiting_bit(hdr.tail)),
            ),
            Step::WouldBlock => (q, r2, Step::WouldBlock),
            Step::Spin => (q, r2, Step::Spin),
            Step::Wait(t) => (q, r2, Step::Wait(t)),
        }
    }

    /// One round of a reception: the queue and the consumer's state after it,
    /// and what the consumer is to do next. `Done` holds the entry that was
    /// taken, and says whether producers are to be woken on the tail word.
    pub open spec fn receive_round(self, w: Reception, non_block: bool) -> (
        QueueView<T>,
        Reception,
        Step<(EntryView<T>, bool)>,
    ) {
        let (hdr, w2, step) = self.hdr.ready_round(self.slot_at(0).cmd_slot, w, non_block);
        let q = QueueView { hdr, ..self };
        match step {
            Step::Done(t) => (q.advanced(), w2, Step::Done((self.slot_at(0), hdr.waiters > 0))),
            Step::WouldBlock => (q, w2, Step::WouldBlock),
            Step::Spin => (q, w2, Step::Spin),
            Step::Wait(b) => (q, w2, Step::Wait(b)),
        }
    }
}

/// A queue whose header is new and whose slots all have a clear turn bit is
/// settled and holds nothing.
pub proof fn lemma_new_queue_is_empty<T>(q: QueueView<T>)
    requires
        q.wf(),
        q.hdr.head == 0,
        q.hdr.bell == 0,
        q.hdr.tail == 0,
        forall|s: int| 0 <= s < q.slots.len() ==> (#[trigger] q.slots[s]).cmd_slot < 0x8000_0000,
    ensures
        q.settled(),
        q.pending() == Seq::<(u32, T)>::empty(),
{
    lemma_capacity_valid(q.hdr.l2len);
    let cap = q.cap();
    lemma_distance_is(0, 0);
    assert forall|i: int| 0 <= i < cap implies !#[trigger] q.fresh(i) by {
        lemma_slot_is_remainder(cap, i);
        lemma_first_trip(cap, i);
        assert(q.slots[slot_of(cap, i)].cmd_slot < 0x8000_0000);
    }
    assert(q.pending() =~= Seq::<(u32, T)>::empty());
}

/// A settled queue gives the next producer space exactly when it holds
/// fewer entries than it has slots.
pub proof fn lemma_space_iff_not_full<T>(q: QueueView<T>)
    requires
        q.settled(),
    ensures
        q.hdr.full() <==> q.pending().len() == q.cap(),
        q.pending().len() <= q.cap(),
        q.pending().len() == q.published(),
{
    lemma_distance_is(q.hdr.bell as int, q.hdr.tail as int);
}

/// A queue that keeps the invariant serves the consumer an entry exactly
/// when an entry waits.
pub proof fn lemma_served_iff_waiting<T>(q: QueueView<T>)
    requires
        q.inv(),
    ensures
        q.entry_served() <==> q.pending().len() > 0,
{
    lemma_distance_is(q.hdr.bell as int, q.hdr.tail as int);
    if q.published() > 0 {
        lemma_take_oldest(q);
    }
}

/// What the window of slots after the tail looks like once the producer of
/// position `pos`, which lies `p` positions after the tail, has filled its
/// slot: that slot holds the new entry, every other slot what it held.
pub proof fn lemma_window_after_fill<T>(q: QueueView<T>, pos: int, p: int, info: u32, data: T)
    requires
        q.wf(),
        0 <= p < q.cap(),
        position(pos) == position(q.hdr.tail + p),
    ensures
        forall|i: int|
            0 <= i < q.cap() ==> #[trigger] q.filled(pos, info, data).slot_at(i) == (if i == p {
                EntryView { cmd_slot: stamp(q.cap(), pos) as u32, info, data }
            } else {
                q.slot_at(i)
            }),
{
    lemma_capacity_valid(q.hdr.l2len);
    let cap = q.cap();
    let tail = q.hdr.tail as int;
    lemma_same_position(cap, pos, tail + p);
    lemma_slot_is_remainder(cap, tail + p);
    assert forall|i: int| 0 <= i < cap implies #[trigger] q.filled(pos, info, data).slot_at(i)
        == (if i == p {
        EntryView { cmd_slot: stamp(cap, pos) as u32, info, data }
    } else {
        q.slot_at(i)
    }) by {
        lemma_slot_is_remainder(cap, tail + i);
        if i != p {
            lemma_slots_distinct(cap, tail, i, p);
        }
    }
}

/// On a queue that keeps the invariant, a producer whose position is the
/// next one to publish fills the slot right after the published entries: the
/// invariant holds again once it has rung the doorbell, and its entry is the
/// last of those that wait.
pub proof fn lemma_publish_in_order<T>(q: QueueView<T>, h: u32, info: u32, data: T)
    requires
        q.inv(),
        distance(h as int, q.hdr.tail as int) == q.published(),
        q.published() < q.cap(),
        q.published() < q.reserved(),
    ensures
        q.filled(position(h as int), info, data).rung().inv(),
        q.filled(position(h as int), info, data).rung().pending() == q.pending().push((info, data)),
        q.filled(position(h as int), info, data).rung().reserved() == q.reserved(),
        q.filled(position(h as int), info, data).rung().published() == q.published() + 1,
{
    lemma_capacity_valid(q.hdr.l2len);
    let cap = q.cap();
    let p = q.published();
    let pos = position(h as int);
    let q1 = q.filled(pos, info, data);
    let q2 = q1.rung();
    let tail = q.hdr.tail as int;
    let bell = q.hdr.bell as int;
    let entry = EntryView { cmd_slot: stamp(cap, pos) as u32, info, data };
    lemma_distance_is(bell, tail);
    lemma_distance_steps(h as int, tail);
    lemma_position_bounds(h as int);
    lemma_stamp_is_ready(cap, pos);
    lemma_window_after_fill(q, pos, p, info, data);
    assert(q2.published() == p + 1) by {
        lemma_wrapping_steps(0, q.hdr.bell);
        lemma_distance_by_position(q2.hdr.bell as int, bell + 1, tail, tail);
        lemma_distance_steps(bell, tail);
    }
    assert forall|i: int| 0 <= i < cap implies #[trigger] q2.slot_at(i) == q1.slot_at(i) by {}
    assert forall|i: int| 0 <= i < cap implies (#[trigger] q2.fresh(i) <==> i < q2.published()) by {
        assert(q2.slot_at(i) == q1.slot_at(i));
        if i != p {
            assert(q.fresh(i) <==> i < p);
        }
    }
    assert(q2.wf()) by {
        lemma_slot_is_remainder(cap, pos);
    }
    assert(q2.pending() =~= q.pending().push((info, data))) by {
        assert forall|i: int| 0 <= i < p + 1 implies q2.pending()[i] == q.pending().push(
            (info, data),
        )[i] by {
            assert(q2.slot_at(i) == q1.slot_at(i));
        }
    }
}

/// What the window of slots after the tail looks like once the tail has
/// moved on by one: every slot has come one place nearer.
pub proof fn lemma_window_after_advance<T>(q: QueueView<T>)
    requires
        q.wf(),
    ensures
        forall|i: int|
            #![trigger q.advanced().slot_at(i)]
            #![trigger q.advanced().fresh(i)]
            q.advanced().slot_at(i) == q.slot_at(i + 1) && q.advanced().fresh(i) == q.fresh(
                i + 1,
            ),
        q.published() > 0 ==> q.advanced().published() == q.published() - 1,
        q.reserved() > 0 ==> q.advanced().reserved() == q.reserved() - 1,
{
    lemma_capacity_valid(q.hdr.l2len);
    let cap = q.cap();
    let q2 = q.advanced();
    let tail = q.hdr.tail as int;
    let tail2 = q2.hdr.tail as int;
    lemma_position_bounds(tail + 1);
    assert(tail2 == position(tail + 1));
    lemma_distance_by_position(q.hdr.bell as int, q.hdr.bell as int, tail2, tail + 1);
    lemma_distance_by_position(q.hdr.head as int, q.hdr.head as int, tail2, tail + 1);
    lemma_distance_steps(q.hdr.bell as int, tail);
    lemma_distance_steps(q.hdr.head as int, tail);
    assert forall|i: int|
        #![trigger q.advanced().slot_at(i)]
        #![trigger q.advanced().fresh(i)]
        q2.slot_at(i) == q.slot_at(i + 1) && q2.fresh(i) == q.fresh(i + 1) by {
        lemma_position_adds(tail + 1, i);
        lemma_same_position(cap, tail2 + i, tail + (i + 1));
    }
}

/// On a queue that keeps the invariant and holds an entry, the consumer
/// finds the oldest entry served; once it has advanced its tail the
/// invariant holds again, the oldest entry is gone from those that wait, and
/// one reservation less is open.
pub proof fn lemma_take_oldest<T>(q: QueueView<T>)
    requires
        q.inv(),
        q.published() > 0,
    ensures
        q.hdr.served(q.slot_at(0).cmd_slot),
        (q.slot_at(0).info, q.slot_at(0).data) == q.pending()[0],
        q.advanced().inv(),
        q.advanced().pending() == q.pending().drop_first(),
        q.advanced().reserved() == q.reserved() - 1,
        q.advanced().published() == q.published() - 1,
{
    lemma_capacity_valid(q.hdr.l2len);
    let cap = q.cap();
    let p = q.published();
    let q2 = q.advanced();
    let tail = q.hdr.tail as int;
    assert(q.fresh(0));
    lemma_distance_is(q.hdr.bell as int, tail);
    lemma_window_after_advance(q);
    assert(!q.fresh(cap)) by {
        lemma_ready_next_trip(cap, tail, q.slot_at(0).cmd_slot);
    }
    assert forall|i: int| 0 <= i < cap implies (#[trigger] q2.fresh(i) <==> i < q2.published()) by {
        assert(q2.fresh(i) == q.fresh(i + 1));
        if i + 1 < cap {
            assert(q.fresh(i + 1) <==> i + 1 < p);
        }
    }
    assert(q2.pending() =~= q.pending().drop_first()) by {
        assert forall|i: int| 0 <= i < p - 1 implies q2.pending()[i] == q.pending().drop_first()[i] by {
            assert(q2.slot_at(i) == q.slot_at(i + 1));
        }
    }
}

/// The window of slots after the tail depends on the slots and on the
/// tail's position alone.
pub proof fn lemma_window_by_tail<T>(q: QueueView<T>, q2: QueueView<T>)
    requires
        q.wf(),
        q2.slots == q.slots,
        q2.hdr.l2len == q.hdr.l2len,
        position(q2.hdr.tail as int) == position(q.hdr.tail as int),
    ensures
        forall|i: int|
            #![trigger q2.slot_at(i)]
            #![trigger q2.fresh(i)]
            q2.slot_at(i) == q.slot_at(i) && q2.fresh(i) == q.fresh(i),
{
    lemma_capacity_valid(q.hdr.l2len);
    let cap = q.cap();
    let tail = q.hdr.tail as int;
    let tail2 = q2.hdr.tail as int;
    assert forall|i: int|
        #![trigger q2.slot_at(i)]
        #![trigger q2.fresh(i)]
        q2.slot_at(i) == q.slot_at(i) && q2.fresh(i) == q.fresh(i) by {
        lemma_position_adds(tail, i);
        lemma_position_adds(tail2, i);
        lemma_same_position(cap, tail2 + i, tail + i);
    }
}

/// Two queues with the same slots and capacity whose counters stand at the
/// same positions keep the invariant together and hold the same entries.
pub proof fn lemma_positions_decide<T>(q: QueueView<T>, q2: QueueView<T>)
    requires
        q.wf(),
        q2.slots == q.slots,
        q2.hdr.l2len == q.hdr.l2len,
        position(q2.hdr.head as int) == position(q.hdr.head as int),
        position(q2.hdr.bell as int) == position(q.hdr.bell as int),
        position(q2.hdr.tail as int) == position(q.hdr.tail as int),
    ensures
        q2.inv() == q.inv(),
        q2.settled() == q.settled(),
        q2.pending() == q.pending(),
        q2.reserved() == q.reserved(),
        q2.published() == q.published(),
        forall|i: int| #[trigger] q2.slot_at(i) == q.slot_at(i),
        forall|i: int| #[trigger] q2.fresh(i) == q.fresh(i),
{
    lemma_capacity_valid(q.hdr.l2len);
    let cap = q.cap();
    let tail = q.hdr.tail as int;
    let tail2 = q2.hdr.tail as int;
    lemma_distance_by_position(q2.hdr.head as int, q.hdr.head as int, tail2, tail);
    lemma_distance_by_position(q2.hdr.bell as int, q.hdr.bell as int, tail2, tail);
    lemma_window_by_tail(q, q2);
    if q.inv() {
        assert forall|i: int| 0 <= i < cap implies (#[trigger] q2.fresh(i) <==> i < q2.published()) by {
            assert(q2.fresh(i) == q.fresh(i));
        }
    }
    if q2.inv() {
        assert forall|i: int| 0 <= i < cap implies (#[trigger] q.fresh(i) <==> i < q.published()) by {
            assert(q2.fresh(i) == q.fresh(i));
        }
    }
    assert(q2.pending() =~= q.pending()) by {
        assert forall|i: int| 0 <= i < q.published() implies q2.pending()[i] == q.pending()[i] by {
            assert(q2.slot_at(i) == q.slot_at(i));
        }
    }
}

/// The invariant and the entries that wait depend on the tail's position
/// alone, not on the consumer's waiting flag.
pub proof fn lemma_waiting_bit_is_apart<T>(q: QueueView<T>, waiting: bool)
    requires
        q.wf(),
    ensures
        ({
            let q2 = QueueView {
                hdr: HdrView { tail: with_waiting_bit(q.hdr.tail, waiting), ..q.hdr },
                ..q
            };
            &&& q2.inv() == q.inv()
            &&& q2.settled() == q.settled()
            &&& q2.pending() == q.pending()
            &&& q2.reserved() == q.reserved()
            &&& q2.published() == q.published()
            &&& q2.advanced() == q.advanced()
            &&& q2.slot_at(0) == q.slot_at(0)
            &&& q2.fresh(0) == q.fresh(0)
        }),
{
    let q2 = QueueView {
        hdr: HdrView { tail: with_waiting_bit(q.hdr.tail, waiting), ..q.hdr },
        ..q
    };
    lemma_waiting_bit_keeps_position(q.hdr.tail, waiting);
    lemma_positions_decide(q, q2);
    lemma_position_adds(q.hdr.tail as int, 1);
    lemma_position_adds(q2.hdr.tail as int, 1);
}

/// The invariant and the entries that wait do not depend on the count of
/// sleeping producers.
pub proof fn lemma_waiters_are_apart<T>(q: QueueView<T>, waiters: u32)
    requires
        q.wf(),
    ensures
        ({
            let q2 = QueueView { hdr: HdrView { waiters, ..q.hdr }, ..q };
            &&& q2.inv() == q.inv()
            &&& q2.settled() == q.settled()
            &&& q2.pending() == q.pending()
            &&& q2.reserved() == q.reserved()
            &&& q2.published() == q.published()
        }),
{
    let q2 = QueueView { hdr: HdrView { waiters, ..q.hdr }, ..q };
    lemma_positions_decide(q, q2);
}

/// A round of submission to a settled queue that holds fewer entries than
/// it has slots is done, whatever the flags and however long the producer
/// has waited: the entry becomes the last of those that wait, all that
/// waited before stay as they were, and the queue is settled again.
pub proof fn lemma_submit_adds_last<T>(
    q: QueueView<T>,
    info: u32,
    data: T,
    r: Reservation,
    non_block: bool,
)
    requires
        q.settled(),
        q.pending().len() < q.cap(),
    ensures
        ({
            let (q2, r2, step) = q.submit_round(info, data, r, non_block);
            &&& step == Step::Done(waiting_bit(q.hdr.tail))
            &&& q2.settled()
            &&& q2.pending() == q.pending().push((info, data))
        }),
{
    lemma_capacity_valid(q.hdr.l2len);
    let h = q.hdr.head;
    let tail = q.hdr.tail as int;
    let (hdr, _, _) = q.hdr.reserve_round(r, non_block);
    let drawn = QueueView { hdr, ..q };
    let counted = QueueView { hdr: HdrView { waiters: hdr.waiters, ..q.hdr }, ..q };
    lemma_space_iff_not_full(q);
    lemma_waiters_are_apart(q, hdr.waiters);
    assert(drawn == QueueView {
        hdr: HdrView { head: u32::wrapping_add(h, 1), ..counted.hdr },
        ..counted
    });
    assert(drawn.reserved() == q.reserved() + 1) by {
        lemma_wrapping_steps(h, 0);
        lemma_distance_by_position(drawn.hdr.head as int, h + 1, tail, tail);
        lemma_distance_steps(h as int, tail);
    }
    assert(drawn.inv()) by {
        assert forall|i: int| 0 <= i < drawn.cap() implies (#[trigger] drawn.fresh(i) <==> i
            < drawn.published()) by {
            assert(counted.fresh(i) <==> i < counted.published());
        }
    }
    assert(drawn.pending() =~= q.pending());
    lemma_position_bounds(h as int);
    lemma_publish_in_order(drawn, h, info, data);
}

/// Backpressure: a round of submission to a settled queue that holds as
/// many entries as it has slots finds no space. A producer that asked not to
/// wait is refused, and the queue and the producer's state are as they were:
/// no position is drawn. A producer that waits is told to spin or to sleep;
/// nothing but the count of sleepers changes.
pub proof fn lemma_submit_refused_when_full<T>(q: QueueView<T>, info: u32, data: T, r: Reservation)
    requires
        q.settled(),
        q.pending().len() == q.cap(),
    ensures
        q.submit_round(info, data, r, true) == (q, r, Step::<bool>::WouldBlock),
        ({
            let (q2, r2, step) = q.submit_round(info, data, r, false);
            &&& step is Spin || step is Wait
            &&& q2.settled()
            &&& q2.pending() == q.pending()
            &&& q2.slots == q.slots
        }),
{
    lemma_space_iff_not_full(q);
    let (q2, _, _) = q.submit_round(info, data, r, false);
    lemma_waiters_are_apart(q, q2.hdr.waiters);
}

/// A reception from a queue that keeps the invariant and holds an entry is
/// over in one round, whatever the flags: it hands out the oldest entry, the
/// others stay in their order, and the invariant holds again. A settled queue
/// stays settled.
pub proof fn lemma_receive_takes_first<T>(q: QueueView<T>, w: Reception, non_block: bool)
    requires
        q.inv(),
        q.pending().len() > 0,
    ensures
        ({
            let (q2, w2, step) = q.receive_round(w, non_block);
            &&& step == Step::Done((q.slot_at(0), q.hdr.waiters > 0))
            &&& (q.slot_at(0).info, q.slot_at(0).data) == q.pending()[0]
            &&& q2 == q.advanced()
            &&& q2.inv()
            &&& q2.pending() == q.pending().drop_first()
            &&& q2.reserved() == q.reserved() - 1
            &&& q2.published() == q.published() - 1
            &&& (q.settled() ==> q2.settled())
        }),
{
    lemma_distance_is(q.hdr.bell as int, q.hdr.tail as int);
    lemma_take_oldest(q);
    lemma_waiting_bit_is_apart(q, false);
}

/// A round of reception from a queue that keeps the invariant and holds
/// nothing hands out nothing. A consumer that asked not to wait is refused,
/// and the queue stays as it was. A consumer that waits is told to spin or,
/// once it has spun its rounds out, to sleep; nothing but its waiting flag
/// changes.
pub proof fn lemma_receive_refused_when_empty<T>(q: QueueView<T>, w: Reception)
    requires
        q.inv(),
        q.pending().len() == 0,
    ensures
        q.receive_round(w, true) == (q, w, Step::<(EntryView<T>, bool)>::WouldBlock),
        ({
            let (q2, w2, step) = q.receive_round(w, false);
            &&& step is Spin || step is Wait
            &&& step is Wait <==> w.attempts == 0
            &&& q2.inv()
            &&& q2.settled() == q.settled()
            &&& q2.pending() == q.pending()
            &&& q2.slots == q.slots
        }),
{
    lemma_distance_is(q.hdr.bell as int, q.hdr.tail as int);
    lemma_waiting_bit_is_apart(q, true);
}

} // verus!
