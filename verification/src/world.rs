//! Many producers and one consumer at work on one queue. Each party runs
//! the rounds of its operation one by one, and the rounds of different
//! parties follow each other in any order.

use vstd::prelude::*;
use crate::model::QueueView;
use crate::step::{Reception, Reservation, Step};
use crate::tally::total;

verus! {

/// One round by one party.
pub enum Event {
    /// The producer with this number runs one round of the submission that
    /// it is at.
    Produce(nat),
    /// The consumer runs one round of its reception.
    Consume,
}

/// The queue together with what every party has done so far.
pub struct World<T> {
    /// The queue.
    pub q: QueueView<T>,
    /// For each producer, how many of its entries it has submitted.
    pub sent: Seq<nat>,
    /// For each producer, its state in the submission that it is at.
    pub res: Seq<Reservation>,
    /// The state of the consumer's reception.
    pub rx: Reception,
    /// The entries that the consumer has received, in the order in which it
    /// received them.
    pub out: Seq<(u32, T)>,
    /// Every submission that is done, in the order in which they were done:
    /// the producer's number, and which of its entries it was.
    pub log: Seq<(nat, nat)>,
}

/// The entries that the submissions of a log put into the queue, in the
/// order of the log, where `programs` holds for each producer the entries
/// that it is to submit, in order.
pub open spec fn entries_of<T>(programs: Seq<Seq<(u32, T)>>, log: Seq<(nat, nat)>) -> Seq<(u32, T)> {
    Seq::new(log.len(), |i: int| programs[log[i].0 as int][log[i].1 as int])
}

/// The entries that the submissions of producer `p` in a log put into the
/// queue, in the order of the log.
pub open spec fn by_producer<T>(programs: Seq<Seq<(u32, T)>>, log: Seq<(nat, nat)>, p: nat) -> Seq<
    (u32, T),
>
    decreases log.len(),
{
    if log.len() == 0 {
        Seq::empty()
    } else {
        let before = by_producer(programs, log.drop_last(), p);
        if log.last().0 == p {
            before.push(programs[p as int][log.last().1 as int])
        } else {
            before
        }
    }
}

/// The entries among `out` that carry the tag `tag`, in the order in which
/// they stand in `out`.
pub open spec fn with_tag<T>(out: Seq<(u32, T)>, tag: u32) -> Seq<(u32, T)>
    decreases out.len(),
{
    if out.len() == 0 {
        Seq::empty()
    } else {
        let before = with_tag(out.drop_last(), tag);
        if out.last().0 == tag {
            before.push(out.last())
        } else {
            before
        }
    }
}

/// Whether every producer tags its entries with its own number.
pub open spec fn tagged<T>(programs: Seq<Seq<(u32, T)>>) -> bool {
    &&& programs.len() <= 0x1_0000_0000
    &&& forall|p: int, k: int|
        0 <= p < programs.len() && 0 <= k < programs[p].len() ==> (#[trigger] programs[p][k]).0
            == p
}

/// How many entries each producer is to submit.
pub open spec fn lengths<T>(programs: Seq<Seq<(u32, T)>>) -> Seq<nat> {
    Seq::new(programs.len(), |p: int| programs[p].len())
}

/// The rounds of one turn: every producer runs one round, in the order of
/// their numbers, and then the consumer runs one.
pub open spec fn one_turn(producers: nat) -> Seq<Event> {
    Seq::new(
        producers + 1,
        |i: int|
            if i < producers {
                Event::Produce(i as nat)
            } else {
                Event::Consume
            },
    )
}

/// The rounds of `n` turns, one turn after the other.
pub open spec fn turns(producers: nat, n: nat) -> Seq<Event>
    decreases n,
{
    if n == 0 {
        Seq::empty()
    } else {
        turns(producers, (n - 1) as nat) + one_turn(producers)
    }
}

impl<T> World<T> {
    /// The world before any party has done anything: `producers` producers
    /// and one consumer at the queue `q`.
    pub open spec fn start(q: QueueView<T>, producers: nat) -> World<T> {
        World {
            q,
            sent: Seq::new(producers, |p: int| 0nat),
            res: Seq::new(producers, |p: int| Reservation::fresh()),
            rx: Reception::fresh(),
            out: Seq::empty(),
            log: Seq::empty(),
        }
    }

    /// Whether producer `p` has an entry left to submit.
    pub open spec fn at_work(self, programs: Seq<Seq<(u32, T)>>, p: nat) -> bool {
        &&& p < programs.len()
        &&& p < self.sent.len()
        &&& p < self.res.len()
        &&& self.sent[p as int] < programs[p as int].len()
    }

    /// What the next round of producer `p`, which is at work, makes of the
    /// queue and of the producer's state, and what it tells the producer.
    pub open spec fn producer_round(self, programs: Seq<Seq<(u32, T)>>, p: nat) -> (
        QueueView<T>,
        Reservation,
        Step<bool>,
    ) {
        let entry = programs[p as int][self.sent[p as int] as int];
        self.q.submit_round(entry.0, entry.1, self.res[p as int], false)
    }

    /// The world after one round. A producer runs a round of the submission
    /// of its next entry and waits where there is no space; once the round
    /// is done it goes on to the entry after that. A producer that has
    /// submitted all its entries does nothing. The consumer runs a round of
    /// its reception, waits where there is no entry, and keeps the entry
    /// that a round hands out.
    pub open spec fn step(self, programs: Seq<Seq<(u32, T)>>, ev: Event) -> World<T> {
        match ev {
            Event::Produce(p) => {
                if self.at_work(programs, p) {
                    let k = self.sent[p as int];
                    let (q, r, round) = self.producer_round(programs, p);
                    if round is Done {
                        World {
                            q,
                            sent: self.sent.update(p as int, k + 1),
                            res: self.res.update(p as int, Reservation::fresh()),
                            log: self.log.push((p, k)),
                            ..self
                        }
                    } else {
                        World { q, res: self.res.update(p as int, r), ..self }
                    }
                } else {
                    self
                }
            },
            Event::Consume => {
                let (q, rx, round) = self.q.receive_round(self.rx, false);
                match round {
                    Step::Done((entry, _)) => World {
                        q,
                        rx: Reception::fresh(),
                        out: self.out.push((entry.info, entry.data)),
                        ..self
                    },
                    _ => World { q, rx, ..self },
                }
            },
        }
    }

    /// The world after the rounds `events`, one after the other.
    pub open spec fn run(self, programs: Seq<Seq<(u32, T)>>, events: Seq<Event>) -> World<T>
        decreases events.len(),
    {
        if events.len() == 0 {
            self
        } else {
            self.run(programs, events.drop_last()).step(programs, events.last())
        }
    }

    /// Whether the entries that the consumer has received under the tag of
    /// producer `p` are the first entries of that producer, in the producer's
    /// order and as they were submitted, and no more than the producer has
    /// submitted.
    pub open spec fn in_order(self, programs: Seq<Seq<(u32, T)>>, p: int) -> bool {
        let got = with_tag(self.out, p as u32);
        &&& got.len() <= self.sent[p]
        &&& self.sent[p] <= programs[p].len()
        &&& got == programs[p].take(got.len() as int)
    }

    /// How far the parties have got: the entries submitted and the entries
    /// received, counted together.
    pub open spec fn progress(self) -> nat {
        total(self.sent) + self.out.len()
    }

    /// Whether every producer has submitted all its entries.
    pub open spec fn all_sent(self, programs: Seq<Seq<(u32, T)>>) -> bool {
        forall|p: int| 0 <= p < programs.len() ==> #[trigger] self.sent[p] == programs[p].len()
    }

    /// Whether the consumer's next round would hand out an entry.
    pub open spec fn entry_ready(self) -> bool {
        self.q.receive_round(self.rx, false).2 is Done
    }
}

} // verus!
