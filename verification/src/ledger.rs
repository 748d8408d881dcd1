//! The invariant of a world of producers and one consumer, and why every
//! round keeps it.

use vstd::prelude::*;
use crate::model::{
    lemma_receive_refused_when_empty, lemma_receive_takes_first, lemma_space_iff_not_full,
    lemma_submit_adds_last, lemma_submit_refused_when_full, QueueView,
};
use crate::tally::{lemma_total_after_increment, lemma_total_below, lemma_total_zero, total};
use crate::world::{
    by_producer, entries_of, lengths, one_turn, turns, with_tag, Event, World,
};

verus! {

/// What the invariant says of producer `p`: the submissions of `p` that are
/// done are the first entries of `p`, in the order of `p`.
pub open spec fn producer_ok<T>(programs: Seq<Seq<(u32, T)>>, w: World<T>, p: int) -> bool {
    &&& w.sent[p] <= programs[p].len()
    &&& by_producer(programs, w.log, p as nat) == programs[p].take(w.sent[p] as int)
}

/// What the invariant says of item `i` of the log: it names an entry of a
/// producer.
pub open spec fn item_ok<T>(programs: Seq<Seq<(u32, T)>>, w: World<T>, i: int) -> bool {
    &&& w.log[i].0 < programs.len()
    &&& w.log[i].1 < programs[w.log[i].0 as int].len()
}

/// The invariant of a world of producers and one consumer: the queue is
/// settled, and the entries of the submissions that are done, in the order
/// in which they were done, are the entries received followed by the entries
/// that wait.
pub open spec fn good<T>(programs: Seq<Seq<(u32, T)>>, w: World<T>) -> bool {
    &&& w.q.settled()
    &&& w.sent.len() == programs.len()
    &&& w.res.len() == programs.len()
    &&& w.log.len() == total(w.sent)
    &&& entries_of(programs, w.log) == w.out + w.q.pending()
    &&& forall|i: int| 0 <= i < w.log.len() ==> #[trigger] item_ok(programs, w, i)
    &&& forall|p: int| 0 <= p < programs.len() ==> #[trigger] producer_ok(programs, w, p)
}

/// What a new last item does to the entries of one producer in a log.
pub proof fn lemma_by_producer_push<T>(
    programs: Seq<Seq<(u32, T)>>,
    log: Seq<(nat, nat)>,
    item: (nat, nat),
    p: nat,
)
    ensures
        by_producer(programs, log.push(item), p) == if item.0 == p {
            by_producer(programs, log, p).push(programs[p as int][item.1 as int])
        } else {
            by_producer(programs, log, p)
        },
{
    assert(log.push(item).drop_last() =~= log);
}

/// The invariant holds at the start, over a settled queue that holds
/// nothing.
pub proof fn lemma_good_at_start<T>(q: QueueView<T>, programs: Seq<Seq<(u32, T)>>)
    requires
        q.settled(),
        q.pending().len() == 0,
    ensures
        good(programs, World::start(q, programs.len())),
{
    let w = World::start(q, programs.len());
    lemma_total_zero(w.sent);
    assert(entries_of(programs, w.log) =~= w.out + w.q.pending());
    assert forall|p: int| 0 <= p < programs.len() implies #[trigger] producer_ok(
        programs,
        w,
        p,
    ) by {
        assert(programs[p].take(0) =~= Seq::<(u32, T)>::empty());
    }
}

/// Every round keeps the invariant.
pub proof fn lemma_good_step<T>(programs: Seq<Seq<(u32, T)>>, w: World<T>, ev: Event)
    requires
        good(programs, w),
    ensures
        good(programs, w.step(programs, ev)),
{
    let w2 = w.step(programs, ev);
    lemma_space_iff_not_full(w.q);
    match ev {
        Event::Produce(who) => {
            let p = who as int;
            if w.at_work(programs, who) {
                let k = w.sent[p];
                let entry = programs[p][k as int];
                assert(producer_ok(programs, w, p));
                if w.q.pending().len() < w.q.cap() {
                    lemma_submit_adds_last(w.q, entry.0, entry.1, w.res[p], false);
                    lemma_total_after_increment(w.sent, p);
                    assert(entries_of(programs, w2.log) =~= entries_of(programs, w.log).push(
                        entry,
                    ));
                    assert(w2.out + w2.q.pending() =~= (w.out + w.q.pending()).push(entry));
                    assert forall|i: int| 0 <= i < w2.log.len() implies #[trigger] item_ok(
                        programs,
                        w2,
                        i,
                    ) by {
                        if i < w.log.len() {
                            assert(item_ok(programs, w, i));
                        }
                    }
                    assert forall|x: int| 0 <= x < programs.len() implies #[trigger] producer_ok(
                        programs,
                        w2,
                        x,
                    ) by {
                        assert(producer_ok(programs, w, x));
                        lemma_by_producer_push(programs, w.log, (who, k), x as nat);
                        if x == p {
                            assert(programs[p].take(k as int + 1) =~= programs[p].take(k as int).push(
                                entry,
                            ));
                        }
                    }
                } else {
                    lemma_submit_refused_when_full(w.q, entry.0, entry.1, w.res[p]);
                    assert forall|i: int| 0 <= i < w2.log.len() implies #[trigger] item_ok(
                        programs,
                        w2,
                        i,
                    ) by {
                        assert(item_ok(programs, w, i));
                    }
                    assert forall|x: int| 0 <= x < programs.len() implies #[trigger] producer_ok(
                        programs,
                        w2,
                        x,
                    ) by {
                        assert(producer_ok(programs, w, x));
                    }
                }
            }
        },
        Event::Consume => {
            if w.q.pending().len() > 0 {
                lemma_receive_takes_first(w.q, w.rx, false);
                assert(w2.out + w2.q.pending() =~= w.out + w.q.pending());
            } else {
                lemma_receive_refused_when_empty(w.q, w.rx);
            }
            assert forall|i: int| 0 <= i < w2.log.len() implies #[trigger] item_ok(
                programs,
                w2,
                i,
            ) by {
                assert(item_ok(programs, w, i));
            }
            assert forall|x: int| 0 <= x < programs.len() implies #[trigger] producer_ok(
                programs,
                w2,
                x,
            ) by {
                assert(producer_ok(programs, w, x));
            }
        },
    }
}

/// The invariant holds after any rounds in any order.
pub proof fn lemma_good_run<T>(q: QueueView<T>, programs: Seq<Seq<(u32, T)>>, events: Seq<Event>)
    requires
        q.settled(),
        q.pending().len() == 0,
    ensures
        good(programs, World::start(q, programs.len()).run(programs, events)),
    decreases events.len(),
{
    if events.len() == 0 {
        lemma_good_at_start(q, programs);
    } else {
        lemma_good_run(q, programs, events.drop_last());
        lemma_good_step(
            programs,
            World::start(q, programs.len()).run(programs, events.drop_last()),
            events.last(),
        );
    }
}

/// The entries with one tag among two sequences, one after the other.
pub proof fn lemma_with_tag_add<T>(a: Seq<(u32, T)>, b: Seq<(u32, T)>, tag: u32)
    ensures
        with_tag(a + b, tag) == with_tag(a, tag) + with_tag(b, tag),
        with_tag(a, tag).len() <= a.len(),
    decreases b.len(),
{
    if b.len() == 0 {
        assert(a + b =~= a);
        assert(with_tag(a, tag) + with_tag(b, tag) =~= with_tag(a, tag));
        lemma_with_tag_len(a, tag);
    } else {
        lemma_with_tag_add(a, b.drop_last(), tag);
        assert((a + b).drop_last() =~= a + b.drop_last());
        if b.last().0 == tag {
            assert(with_tag(a, tag) + with_tag(b, tag) =~= (with_tag(a, tag) + with_tag(
                b.drop_last(),
                tag,
            )).push(b.last()));
        }
    }
}

/// No more entries carry a tag than there are entries.
pub proof fn lemma_with_tag_len<T>(a: Seq<(u32, T)>, tag: u32)
    ensures
        with_tag(a, tag).len() <= a.len(),
    decreases a.len(),
{
    if a.len() > 0 {
        lemma_with_tag_len(a.drop_last(), tag);
    }
}

/// Where every producer tags its entries with its own number, the entries
/// of a log that carry the number of a producer are the entries that this
/// producer submitted.
pub proof fn lemma_tags_tell_producers<T>(
    programs: Seq<Seq<(u32, T)>>,
    w: World<T>,
    n: int,
    p: int,
)
    requires
        good(programs, w),
        crate::world::tagged(programs),
        0 <= p < programs.len(),
        0 <= n <= w.log.len(),
    ensures
        with_tag(entries_of(programs, w.log.take(n)), p as u32) == by_producer(
            programs,
            w.log.take(n),
            p as nat,
        ),
    decreases n,
{
    let log = w.log.take(n);
    if n == 0 {
        assert(entries_of(programs, log).len() == 0);
    } else {
        lemma_tags_tell_producers(programs, w, n - 1, p);
        assert(item_ok(programs, w, n - 1));
        assert(log.drop_last() =~= w.log.take(n - 1));
        assert(entries_of(programs, log).drop_last() =~= entries_of(programs, w.log.take(n - 1)));
        let item = w.log[n - 1];
        assert(log.last() == item);
        assert(entries_of(programs, log).last() == programs[item.0 as int][item.1 as int]);
    }
}

/// Rounds one after the other: to run them all is to run the first ones
/// and then the others.
pub proof fn lemma_run_add<T>(
    programs: Seq<Seq<(u32, T)>>,
    w: World<T>,
    a: Seq<Event>,
    b: Seq<Event>,
)
    ensures
        w.run(programs, a + b) == w.run(programs, a).run(programs, b),
    decreases b.len(),
{
    if b.len() == 0 {
        assert(a + b =~= a);
    } else {
        lemma_run_add(programs, w, a, b.drop_last());
        assert((a + b).drop_last() =~= a + b.drop_last());
    }
}

/// How far the parties can get at most, and what holds when they are
/// there: every producer has submitted all its entries, the consumer has
/// received them all, and nothing waits.
pub proof fn lemma_progress_ends<T>(programs: Seq<Seq<(u32, T)>>, w: World<T>)
    requires
        good(programs, w),
    ensures
        w.out.len() <= total(w.sent) <= total(lengths(programs)),
        w.progress() <= 2 * total(lengths(programs)),
        w.all_sent(programs) <==> total(w.sent) == total(lengths(programs)),
        w.progress() == 2 * total(lengths(programs)) ==> {
            &&& w.all_sent(programs)
            &&& w.out.len() == total(lengths(programs))
            &&& w.q.pending().len() == 0
            &&& !w.entry_ready()
        },
{
    assert forall|p: int| 0 <= p < w.sent.len() implies w.sent[p] <= lengths(programs)[p] by {
        assert(producer_ok(programs, w, p));
    }
    lemma_total_below(w.sent, lengths(programs));
    assert((w.out + w.q.pending()).len() == entries_of(programs, w.log).len());
    if w.all_sent(programs) {
        assert(w.sent =~= lengths(programs));
    }
    if w.q.pending().len() == 0 {
        lemma_receive_refused_when_empty(w.q, w.rx);
    }
}

/// What a turn's rounds of the first `j` producers make of a world: the
/// parties have got no less far, and if they have got no further, then
/// nothing has changed in what was submitted, received and waits, and each
/// of those producers either has no entry left or found the queue full.
pub proof fn lemma_sweep<T>(programs: Seq<Seq<(u32, T)>>, w: World<T>, j: int)
    requires
        good(programs, w),
        0 <= j <= programs.len(),
    ensures
        ({
            let swept = w.run(programs, one_turn(programs.len()).take(j));
            &&& good(programs, swept)
            &&& swept.progress() >= w.progress()
            &&& swept.out == w.out
            &&& swept.rx == w.rx
            &&& swept.q.cap() == w.q.cap()
            &&& (swept.progress() == w.progress() ==> {
                &&& swept.sent == w.sent
                &&& swept.q.pending() == w.q.pending()
                &&& forall|p: int|
                    0 <= p < j ==> !#[trigger] w.at_work(programs, p as nat) || w.q.pending().len()
                        == w.q.cap()
            })
        }),
    decreases j,
{
    let turn = one_turn(programs.len());
    if j == 0 {
        assert(turn.take(0) =~= Seq::<Event>::empty());
    } else {
        let p = j - 1;
        lemma_sweep(programs, w, p);
        let before = w.run(programs, turn.take(p));
        let swept = w.run(programs, turn.take(j));
        assert(turn.take(j).drop_last() =~= turn.take(p));
        assert(turn.take(j).last() == Event::Produce(p as nat));
        assert(swept == before.step(programs, Event::Produce(p as nat)));
        lemma_good_step(programs, before, Event::Produce(p as nat));
        lemma_space_iff_not_full(before.q);
        let mut stayed = true;
        if before.at_work(programs, p as nat) {
            let entry = programs[p][before.sent[p] as int];
            if before.q.pending().len() < before.q.cap() {
                lemma_submit_adds_last(before.q, entry.0, entry.1, before.res[p], false);
                lemma_total_after_increment(before.sent, p);
                assert(swept.progress() == before.progress() + 1);
                stayed = false;
            } else {
                lemma_submit_refused_when_full(before.q, entry.0, entry.1, before.res[p]);
                assert(swept.sent == before.sent);
            }
        } else {
            assert(swept == before);
        }
        if stayed && swept.progress() == w.progress() {
            assert(before.progress() == w.progress());
            assert(before.at_work(programs, p as nat) == w.at_work(programs, p as nat));
            assert forall|x: int| 0 <= x < j implies !#[trigger] w.at_work(programs, x as nat)
                || w.q.pending().len() == w.q.cap() by {
                if x == p {
                    if w.at_work(programs, p as nat) {
                        assert(before.q.pending().len() == before.q.cap());
                    }
                }
            }
        }
    }
}

/// One turn takes the parties further, unless every producer has submitted
/// all its entries and the consumer has received them all.
pub proof fn lemma_turn_gets_on<T>(programs: Seq<Seq<(u32, T)>>, w: World<T>)
    requires
        good(programs, w),
    ensures
        ({
            let next = w.run(programs, one_turn(programs.len()));
            &&& good(programs, next)
            &&& next.progress() >= w.progress()
            &&& (next.progress() > w.progress() || w.progress() == 2 * total(lengths(programs)))
        }),
{
    let n = programs.len() as int;
    let turn = one_turn(programs.len());
    lemma_sweep(programs, w, n);
    let swept = w.run(programs, turn.take(n));
    let next = w.run(programs, turn);
    assert(turn.drop_last() =~= turn.take(n));
    assert(turn.last() == Event::Consume);
    assert(next == swept.step(programs, Event::Consume));
    lemma_good_step(programs, swept, Event::Consume);
    lemma_progress_ends(programs, w);
    lemma_space_iff_not_full(swept.q);
    crate::counter::lemma_capacity_valid(w.q.hdr.l2len);
    if swept.q.pending().len() > 0 {
        lemma_receive_takes_first(swept.q, swept.rx, false);
    } else {
        lemma_receive_refused_when_empty(swept.q, swept.rx);
        if swept.progress() == w.progress() {
            assert forall|p: int| 0 <= p < programs.len() implies #[trigger] w.sent[p]
                == programs[p].len() by {
                assert(producer_ok(programs, w, p));
                assert(!w.at_work(programs, p as nat));
            }
            assert(w.all_sent(programs));
        }
    }
}

/// After `n` turns the parties have got on by `n` or are at the end.
pub proof fn lemma_turns_get_on<T>(programs: Seq<Seq<(u32, T)>>, w: World<T>, n: nat)
    requires
        good(programs, w),
    ensures
        ({
            let then = w.run(programs, turns(programs.len(), n));
            &&& good(programs, then)
            &&& (then.progress() >= w.progress() + n || then.progress() == 2 * total(
                lengths(programs),
            ))
        }),
    decreases n,
{
    if n > 0 {
        let before = turns(programs.len(), (n - 1) as nat);
        lemma_turns_get_on(programs, w, (n - 1) as nat);
        lemma_run_add(programs, w, before, one_turn(programs.len()));
        lemma_turn_gets_on(programs, w.run(programs, before));
        lemma_progress_ends(programs, w.run(programs, turns(programs.len(), n)));
    }
}

} // verus!
