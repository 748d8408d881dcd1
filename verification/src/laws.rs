//! What holds of the queue over whole runs of rounds: entries come out in
//! the order in which they went in, each side's progress frees the other,
//! and every producer's entries arrive in that producer's order.

use vstd::prelude::*;
use crate::counter::{lemma_capacity_valid, lemma_waiting_bit_keeps_position, waiting_bit};
use crate::ledger::{
    good, lemma_good_run, lemma_progress_ends, lemma_run_add, lemma_tags_tell_producers,
    lemma_turns_get_on, lemma_with_tag_add, producer_ok,
};
use crate::model::{
    lemma_receive_refused_when_empty, lemma_receive_takes_first, lemma_space_iff_not_full,
    lemma_submit_adds_last, lemma_submit_refused_when_full, QueueView,
};
use crate::step::{Reception, Reservation, Step};
use crate::tally::{lemma_total_uniform, total};
use crate::world::{
    by_producer, entries_of, lengths, tagged, turns, with_tag, Event, World,
};

verus! {

/// One round by some party, which may have waited for any time before it.
pub enum Op<T> {
    /// A round of a submission of an entry with this tag and this payload,
    /// by a producer in the state `r`.
    Submit { info: u32, data: T, r: Reservation, non_block: bool },
    /// A round of a reception, by the consumer in the state `w`.
    Receive { w: Reception, non_block: bool },
}

impl<T> QueueView<T> {
    /// The queue after one round.
    pub open spec fn apply(self, op: Op<T>) -> QueueView<T> {
        match op {
            Op::Submit { info, data, r, non_block } => self.submit_round(
                info,
                data,
                r,
                non_block,
            ).0,
            Op::Receive { w, non_block } => self.receive_round(w, non_block).0,
        }
    }

    /// The entry that a round puts into the queue, if it is a round of
    /// submission that is done.
    pub open spec fn taken_in(self, op: Op<T>) -> Option<(u32, T)> {
        match op {
            Op::Submit { info, data, r, non_block } => {
                if self.submit_round(info, data, r, non_block).2 is Done {
                    Some((info, data))
                } else {
                    None
                }
            },
            Op::Receive { .. } => None,
        }
    }

    /// The entry that a round hands out, if it is a round of reception that
    /// is done.
    pub open spec fn handed_out(self, op: Op<T>) -> Option<(u32, T)> {
        match op {
            Op::Submit { .. } => None,
            Op::Receive { w, non_block } => match self.receive_round(w, non_block).2 {
                Step::Done((entry, _)) => Some((entry.info, entry.data)),
                _ => None,
            },
        }
    }

    /// The queue after the rounds `ops`, one after the other.
    pub open spec fn after(self, ops: Seq<Op<T>>) -> QueueView<T>
        decreases ops.len(),
    {
        if ops.len() == 0 {
            self
        } else {
            self.after(ops.drop_last()).apply(ops.last())
        }
    }

    /// The entries that the rounds `ops` put into the queue, in the order of
    /// the rounds.
    pub open spec fn accepted(self, ops: Seq<Op<T>>) -> Seq<(u32, T)>
        decreases ops.len(),
    {
        if ops.len() == 0 {
            Seq::empty()
        } else {
            let before = self.accepted(ops.drop_last());
            match self.after(ops.drop_last()).taken_in(ops.last()) {
                Some(entry) => before.push(entry),
                None => before,
            }
        }
    }

    /// The entries that the rounds `ops` hand out, in the order of the
    /// rounds.
    pub open spec fn delivered(self, ops: Seq<Op<T>>) -> Seq<(u32, T)>
        decreases ops.len(),
    {
        if ops.len() == 0 {
            Seq::empty()
        } else {
            let before = self.delivered(ops.drop_last());
            match self.after(ops.drop_last()).handed_out(ops.last()) {
                Some(entry) => before.push(entry),
                None => before,
            }
        }
    }
}

/// First in, first out. Take a settled queue and any rounds of submission
/// and reception whatever, by parties that wait or do not, in any order.
/// Then the entries that waited at the start, followed by the entries that
/// the rounds put in, are the entries handed out, followed by the entries
/// that wait at the end: nothing is lost, nothing comes twice, nothing
/// changes its tag or its payload, and nothing overtakes. The queue stays
/// settled. This holds for runs of any length, so through any number of trips
/// round the buffer and of the counters round their ring.
pub proof fn lemma_first_in_first_out<T>(q: QueueView<T>, ops: Seq<Op<T>>)
    requires
        q.settled(),
    ensures
        q.after(ops).settled(),
        q.pending() + q.accepted(ops) == q.delivered(ops) + q.after(ops).pending(),
    decreases ops.len(),
{
    if ops.len() == 0 {
        assert(q.pending() + q.accepted(ops) =~= q.delivered(ops) + q.after(ops).pending());
    } else {
        let pre = ops.drop_last();
        lemma_first_in_first_out(q, pre);
        let q1 = q.after(pre);
        let q2 = q.after(ops);
        lemma_space_iff_not_full(q1);
        match ops.last() {
            Op::Submit { info, data, r, non_block } => {
                if q1.pending().len() < q1.cap() {
                    lemma_submit_adds_last(q1, info, data, r, non_block);
                    assert(q.pending() + q.accepted(ops) =~= (q.pending() + q.accepted(pre)).push(
                        (info, data),
                    ));
                    assert(q.delivered(ops) + q2.pending() =~= (q.delivered(pre)
                        + q1.pending()).push((info, data)));
                } else {
                    lemma_submit_refused_when_full(q1, info, data, r);
                }
            },
            Op::Receive { w, non_block } => {
                if q1.pending().len() > 0 {
                    lemma_receive_takes_first(q1, w, non_block);
                    assert(q.delivered(ops) + q2.pending() =~= q.delivered(pre) + q1.pending());
                } else {
                    lemma_receive_refused_when_empty(q1, w);
                }
            },
        }
    }
}

/// Round trip: an entry submitted to a settled queue that holds nothing is
/// the entry that the next reception hands out, tag and payload as they were
/// submitted, and the queue holds nothing again.
pub proof fn lemma_round_trip<T>(q: QueueView<T>, info: u32, data: T, r: Reservation, w: Reception)
    requires
        q.settled(),
        q.pending().len() == 0,
    ensures
        ({
            let (q1, _, put) = q.submit_round(info, data, r, true);
            let (q2, _, got) = q1.receive_round(w, true);
            &&& put is Done
            &&& got matches Step::Done((entry, _)) && (entry.info, entry.data) == (info, data)
            &&& q2.settled()
            &&& q2.pending().len() == 0
        }),
{
    lemma_capacity_valid(q.hdr.l2len);
    lemma_submit_adds_last(q, info, data, r, true);
    let q1 = q.submit_round(info, data, r, true).0;
    lemma_receive_takes_first(q1, w, true);
}

/// A blocked producer goes on after one reception. Take a settled queue
/// that is full and a producer that waits for space. Its round tells it to
/// spin or to sleep and draws no position. The consumer's next round hands
/// out the oldest entry and says whether producers sleep and are to be woken.
/// After it the producer's next round is done, and its entry is the last of
/// those that wait, behind the ones that were there.
pub proof fn lemma_reception_frees_producer<T>(
    q: QueueView<T>,
    r: Reservation,
    w: Reception,
    info: u32,
    data: T,
    non_block: bool,
)
    requires
        q.settled(),
        q.pending().len() == q.cap(),
    ensures
        ({
            let (q0, r1, blocked) = q.submit_round(info, data, r, false);
            let (q1, _, taken) = q0.receive_round(w, non_block);
            let (q2, _, step) = q1.submit_round(info, data, r1, false);
            &&& blocked is Spin || blocked is Wait
            &&& q0.hdr.head == q.hdr.head
            &&& taken == Step::Done((q.slot_at(0), q0.hdr.waiters > 0))
            &&& step is Done
            &&& q2.settled()
            &&& q2.pending() == q.pending().drop_first().push((info, data))
        }),
{
    lemma_capacity_valid(q.hdr.l2len);
    lemma_submit_refused_when_full(q, info, data, r);
    let (q0, r1, _) = q.submit_round(info, data, r, false);
    lemma_receive_takes_first(q0, w, non_block);
    let q1 = q0.receive_round(w, non_block).0;
    assert(q0.slot_at(0) == q.slot_at(0));
    lemma_submit_adds_last(q1, info, data, r1, false);
}

/// A blocked consumer goes on after one submission. Take a settled queue
/// that holds nothing, and a consumer that waits for an entry. Its round
/// tells it to spin or, once it has set its waiting flag, to sleep. The next
/// round of a submission is done, and says that the consumer is to be woken
/// if it has set its flag. After it the consumer's next round hands out the
/// entry that was submitted, and the waiting flag is clear again.
pub proof fn lemma_submission_frees_consumer<T>(
    q: QueueView<T>,
    w: Reception,
    r: Reservation,
    info: u32,
    data: T,
    non_block: bool,
)
    requires
        q.settled(),
        q.pending().len() == 0,
    ensures
        ({
            let (q0, w1, blocked) = q.receive_round(w, false);
            let (q1, _, rung) = q0.submit_round(info, data, r, non_block);
            let (q2, _, taken) = q1.receive_round(w1, false);
            &&& blocked is Spin || blocked is Wait
            &&& blocked is Wait <==> w.attempts == 0
            &&& rung == Step::Done(w.attempts == 0 || waiting_bit(q.hdr.tail))
            &&& taken matches Step::Done((entry, _)) && (entry.info, entry.data) == (info, data)
            &&& q2.settled()
            &&& q2.pending().len() == 0
            &&& !waiting_bit(q2.hdr.tail)
        }),
{
    lemma_capacity_valid(q.hdr.l2len);
    lemma_receive_refused_when_empty(q, w);
    let (q0, w1, _) = q.receive_round(w, false);
    lemma_waiting_bit_keeps_position(q.hdr.tail, true);
    lemma_submit_adds_last(q0, info, data, r, non_block);
    let q1 = q0.submit_round(info, data, r, non_block).0;
    lemma_receive_takes_first(q1, w1, false);
    assert(q1.pending()[0] == (info, data));
    assert(q1.pending().drop_first().len() == 0);
    lemma_waiting_bit_keeps_position(q1.hdr.tail, false);
    lemma_waiting_bit_keeps_position(q1.hdr.tail, false);
    crate::counter::lemma_position_bounds(q1.hdr.tail + 1);
    lemma_waiting_bit_keeps_position(crate::counter::position(q1.hdr.tail + 1) as u64, false);
    crate::counter::lemma_position_bounds(crate::counter::position(q1.hdr.tail + 1));
}

/// Many producers, one consumer. Take a settled queue that holds nothing,
/// any number of producers, each with the entries that it is to submit in
/// order, and one consumer. Let the parties run the rounds of their
/// operations in any order whatever, each waiting where it must. Then at
/// every moment:
///
/// - the queue is settled, and what the consumer has received, followed by
///   what waits, is what the producers have submitted, in the order in which
///   their submissions were done;
/// - the submissions of one producer that are done are the first entries of
///   that producer, in the producer's order;
/// - where every producer tags its entries with its own number, what the
///   consumer has received under one tag is the first entries of that
///   producer, in the producer's order, and no more than it has submitted;
/// - once every producer has submitted all its entries and the consumer's
///   round hands out nothing, nothing waits, the consumer has received as
///   many entries as were submitted in all, and under each tag all entries
///   of that producer.
pub proof fn lemma_every_producer_in_order<T>(
    q: QueueView<T>,
    programs: Seq<Seq<(u32, T)>>,
    events: Seq<Event>,
)
    requires
        q.settled(),
        q.pending().len() == 0,
    ensures
        ({
            let w = World::start(q, programs.len()).run(programs, events);
            &&& w.q.settled()
            &&& w.sent.len() == programs.len()
            &&& w.out + w.q.pending() == entries_of(programs, w.log)
            &&& w.out.len() + w.q.pending().len() == total(w.sent)
            &&& forall|p: int|
                0 <= p < programs.len() ==> #[trigger] by_producer(programs, w.log, p as nat)
                    == programs[p].take(w.sent[p] as int)
            &&& (tagged(programs) ==> forall|p: int|
                0 <= p < programs.len() ==> #[trigger] w.in_order(programs, p))
            &&& (w.all_sent(programs) && !w.entry_ready() ==> {
                &&& w.q.pending().len() == 0
                &&& w.out.len() == total(w.sent)
                &&& (tagged(programs) ==> forall|p: int|
                    0 <= p < programs.len() ==> with_tag(w.out, p as u32) == #[trigger] programs[p])
            })
        }),
{
    let w = World::start(q, programs.len()).run(programs, events);
    lemma_good_run(q, programs, events);
    assert((w.out + w.q.pending()).len() == entries_of(programs, w.log).len());
    assert forall|p: int| 0 <= p < programs.len() implies #[trigger] by_producer(
        programs,
        w.log,
        p as nat,
    ) == programs[p].take(w.sent[p] as int) by {
        assert(producer_ok(programs, w, p));
    }
    if tagged(programs) {
        assert forall|p: int| 0 <= p < programs.len() implies #[trigger] w.in_order(
            programs,
            p,
        ) by {
            lemma_received_under_tag(programs, w, p);
        }
    }
    if w.all_sent(programs) && !w.entry_ready() {
        if w.q.pending().len() > 0 {
            lemma_receive_takes_first(w.q, w.rx, false);
        }
        assert(w.out + w.q.pending() =~= w.out);
        if tagged(programs) {
            assert forall|p: int| 0 <= p < programs.len() implies with_tag(w.out, p as u32)
                == #[trigger] programs[p] by {
                lemma_received_under_tag(programs, w, p);
                assert(w.sent[p] == programs[p].len());
                assert(programs[p].take(programs[p].len() as int) =~= programs[p]);
            }
        }
    }
}

/// Under the invariant, and where every producer tags its entries with its
/// own number: what the consumer has received under the tag of `p`,
/// followed by what waits under that tag, is what `p` has submitted.
proof fn lemma_received_under_tag<T>(programs: Seq<Seq<(u32, T)>>, w: World<T>, p: int)
    requires
        good(programs, w),
        tagged(programs),
        0 <= p < programs.len(),
    ensures
        w.in_order(programs, p),
        with_tag(w.out, p as u32) + with_tag(w.q.pending(), p as u32) == programs[p].take(
            w.sent[p] as int,
        ),
{
    let tag = p as u32;
    let done = programs[p].take(w.sent[p] as int);
    let got = with_tag(w.out, tag);
    assert(producer_ok(programs, w, p));
    lemma_tags_tell_producers(programs, w, w.log.len() as int, p);
    assert(w.log.take(w.log.len() as int) =~= w.log);
    lemma_with_tag_add(w.out, w.q.pending(), tag);
    assert(got + with_tag(w.q.pending(), tag) == done);
    assert(got =~= programs[p].take(got.len() as int)) by {
        assert forall|i: int| 0 <= i < got.len() implies got[i] == programs[p][i] by {
            assert((got + with_tag(w.q.pending(), tag))[i] == done[i]);
        }
    }
}

/// With `producers` producers that have submitted all their entries, `each`
/// entries each: what the consumer has received and what waits are
/// `producers * each` entries together. Once the consumer has received that
/// many, its round hands out nothing more, a reception that is not to wait
/// is refused, and, where every producer tags its entries with its own
/// number, the consumer has received under each tag all entries of that
/// producer, in the producer's order.
pub proof fn lemma_all_entries_arrive<T>(
    q: QueueView<T>,
    programs: Seq<Seq<(u32, T)>>,
    events: Seq<Event>,
    each: nat,
)
    requires
        q.settled(),
        q.pending().len() == 0,
        forall|p: int| 0 <= p < programs.len() ==> (#[trigger] programs[p]).len() == each,
        World::start(q, programs.len()).run(programs, events).all_sent(programs),
    ensures
        ({
            let w = World::start(q, programs.len()).run(programs, events);
            &&& w.out.len() + w.q.pending().len() == programs.len() * each
            &&& w.entry_ready() <==> w.out.len() < programs.len() * each
            &&& (w.out.len() == programs.len() * each ==> {
                &&& w.q.receive_round(Reception::fresh(), true).2 is WouldBlock
                &&& (tagged(programs) ==> forall|p: int|
                    0 <= p < programs.len() ==> with_tag(w.out, p as u32) == #[trigger] programs[p])
            })
        }),
{
    let w = World::start(q, programs.len()).run(programs, events);
    lemma_every_producer_in_order(q, programs, events);
    assert forall|p: int| 0 <= p < w.sent.len() implies w.sent[p] == each by {
        assert(w.sent[p] == programs[p].len());
    }
    lemma_total_uniform(w.sent, each);
    if w.q.pending().len() > 0 {
        lemma_receive_takes_first(w.q, w.rx, false);
    } else {
        lemma_receive_refused_when_empty(w.q, w.rx);
        lemma_receive_refused_when_empty(w.q, Reception::fresh());
    }
}

/// One producer, one consumer. Whatever tags the producer gives its
/// entries, and in whatever order the two parties run their rounds: what the
/// consumer has received, followed by what waits, is the first entries of the
/// producer, in the producer's order. So the consumer receives the
/// producer's entries one by one in that order, and the last of them last.
pub proof fn lemma_one_producer_in_order<T>(
    q: QueueView<T>,
    programs: Seq<Seq<(u32, T)>>,
    events: Seq<Event>,
)
    requires
        q.settled(),
        q.pending().len() == 0,
        programs.len() == 1,
    ensures
        ({
            let w = World::start(q, 1).run(programs, events);
            &&& w.out + w.q.pending() == programs[0].take(w.sent[0] as int)
            &&& w.out == programs[0].take(w.out.len() as int)
            &&& w.out.len() <= w.sent[0] <= programs[0].len()
        }),
{
    let w = World::start(q, 1).run(programs, events);
    lemma_good_run(q, programs, events);
    assert(producer_ok(programs, w, 0));
    lemma_all_by_one(programs, w, w.log.len() as int);
    assert(w.log.take(w.log.len() as int) =~= w.log);
    let all = w.out + w.q.pending();
    let done = programs[0].take(w.sent[0] as int);
    assert(by_producer(programs, w.log, 0) == done);
    assert(all == done);
    assert(all.len() == w.out.len() + w.q.pending().len());
    assert(done.len() == w.sent[0]);
    assert(w.out =~= programs[0].take(w.out.len() as int)) by {
        assert forall|i: int| 0 <= i < w.out.len() implies w.out[i] == programs[0][i] by {
            assert(all[i] == done[i]);
        }
    }
}

/// Where there is one producer, every entry of the log is that producer's.
proof fn lemma_all_by_one<T>(programs: Seq<Seq<(u32, T)>>, w: World<T>, n: int)
    requires
        good(programs, w),
        programs.len() == 1,
        0 <= n <= w.log.len(),
    ensures
        by_producer(programs, w.log.take(n), 0) == entries_of(programs, w.log.take(n)),
    decreases n,
{
    let log = w.log.take(n);
    if n == 0 {
        assert(entries_of(programs, log) =~= Seq::<(u32, T)>::empty());
    } else {
        lemma_all_by_one(programs, w, n - 1);
        assert(crate::ledger::item_ok(programs, w, n - 1));
        assert(log.drop_last() =~= w.log.take(n - 1));
        assert(log.last() == w.log[n - 1]);
        assert(entries_of(programs, log) =~= entries_of(programs, w.log.take(n - 1)).push(
            programs[0][w.log[n - 1].1 as int],
        ));
    }
}

/// No party is stuck. In a world that the parties have reached by any
/// rounds, take a producer that has an entry left. Either its next round is
/// done; or the queue is full, and then the consumer's next round hands out
/// an entry and the producer's round after that is done. And where the
/// consumer's next round hands out nothing, the producer's next round is done
/// and the consumer's round after that hands out an entry. So a party waits
/// no longer than until the other has run one round.
pub proof fn lemma_no_party_is_stuck<T>(
    q: QueueView<T>,
    programs: Seq<Seq<(u32, T)>>,
    events: Seq<Event>,
    p: nat,
)
    requires
        q.settled(),
        q.pending().len() == 0,
        World::start(q, programs.len()).run(programs, events).at_work(programs, p),
    ensures
        ({
            let w = World::start(q, programs.len()).run(programs, events);
            let fed = w.step(programs, Event::Consume);
            let filled = w.step(programs, Event::Produce(p));
            &&& w.producer_round(programs, p).2 is Done || (w.entry_ready()
                && fed.producer_round(programs, p).2 is Done)
            &&& w.entry_ready() || (w.producer_round(programs, p).2 is Done
                && filled.entry_ready())
            &&& !(w.producer_round(programs, p).2 is WouldBlock)
        }),
{
    let w = World::start(q, programs.len()).run(programs, events);
    let entry = programs[p as int][w.sent[p as int] as int];
    lemma_good_run(q, programs, events);
    lemma_capacity_valid(w.q.hdr.l2len);
    lemma_space_iff_not_full(w.q);
    if w.q.pending().len() < w.q.cap() {
        lemma_submit_adds_last(w.q, entry.0, entry.1, w.res[p as int], false);
        let filled = w.step(programs, Event::Produce(p));
        lemma_receive_takes_first(filled.q, filled.rx, false);
    } else {
        lemma_submit_refused_when_full(w.q, entry.0, entry.1, w.res[p as int]);
    }
    if w.q.pending().len() > 0 {
        lemma_receive_takes_first(w.q, w.rx, false);
        let fed = w.step(programs, Event::Consume);
        if w.q.pending().len() == w.q.cap() {
            lemma_submit_adds_last(fed.q, entry.0, entry.1, fed.res[p as int], false);
        }
    } else {
        lemma_receive_refused_when_empty(w.q, w.rx);
    }
}

/// Taking turns ends. Let the parties have run any rounds in any order,
/// and from then on let them take turns: in each turn every producer runs
/// one round and then the consumer runs one. After twice as many turns as
/// there are entries in all, and often sooner, every producer has submitted
/// all its entries, the consumer has received them all, and nothing waits.
/// No submission and no reception waits for ever, however far one side has
/// run ahead of the other.
pub proof fn lemma_taking_turns_ends<T>(
    q: QueueView<T>,
    programs: Seq<Seq<(u32, T)>>,
    events: Seq<Event>,
    n: nat,
)
    requires
        q.settled(),
        q.pending().len() == 0,
        n >= 2 * total(lengths(programs)),
    ensures
        ({
            let w = World::start(q, programs.len()).run(
                programs,
                events + turns(programs.len(), n),
            );
            &&& w.all_sent(programs)
            &&& w.out.len() == total(lengths(programs))
            &&& w.q.pending().len() == 0
            &&& !w.entry_ready()
            &&& w.out == entries_of(programs, w.log)
            &&& (programs.len() == 1 ==> w.out == programs[0])
            &&& (tagged(programs) ==> forall|p: int|
                0 <= p < programs.len() ==> with_tag(w.out, p as u32) == #[trigger] programs[p])
        }),
{
    let start = World::start(q, programs.len());
    let all = events + turns(programs.len(), n);
    let w = start.run(programs, all);
    lemma_good_run(q, programs, events);
    lemma_run_add(programs, start, events, turns(programs.len(), n));
    lemma_turns_get_on(programs, start.run(programs, events), n);
    lemma_progress_ends(programs, start.run(programs, events));
    lemma_progress_ends(programs, w);
    lemma_every_producer_in_order(q, programs, all);
    assert(w.out + w.q.pending() =~= w.out);
    if programs.len() == 1 {
        lemma_one_producer_in_order(q, programs, all);
        assert(w.sent[0] == programs[0].len());
        assert(programs[0].take(programs[0].len() as int) =~= programs[0]);
    }
}

} // verus!
