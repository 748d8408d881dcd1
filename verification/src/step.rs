//! What a producer or the consumer keeps between two rounds of its wait, and
//! what a round tells it to do next.

use vstd::prelude::*;

verus! {

/// The number of rounds that a party spins through before it goes to sleep.
pub const SPIN_ATTEMPTS: u32 = 1000;

/// What one round of a wait tells the party that waits. The queue never
/// sleeps itself: the party performs what the round asks for and then runs
/// the next round.
#[derive(Debug, PartialEq, Eq)]
pub enum Step<R> {
    /// The wait is over, with this result.
    Done(R),
    /// The wait is not over, and the party asked not to wait.
    WouldBlock,
    /// The wait is not over: pause for a moment, then run the next round.
    Spin,
    /// The wait is not over: sleep until the word that the other side
    /// advances differs from this value, then run the next round. A producer
    /// sleeps on the tail word, the consumer on the doorbell word.
    Wait(u64),
}

/// A producer's state while it waits for space. It holds no position: a
/// producer draws its position in the round that finds space, so a producer
/// that gives up, for whatever reason, leaves no gap in the queue.
#[derive(Clone, Copy, Debug)]
pub struct Reservation {
    /// The rounds left to spin through.
    pub attempts: u32,
    /// Whether the producer is counted among the sleeping producers.
    pub waiter: bool,
}

impl Reservation {
    /// The state of a producer that starts to wait.
    pub fn new() -> (r: Self)
        ensures
            r == Reservation::fresh(),
    {
        Reservation { attempts: SPIN_ATTEMPTS, waiter: false }
    }

    /// The state of a producer that starts to wait.
    pub open spec fn fresh() -> Reservation {
        Reservation { attempts: SPIN_ATTEMPTS, waiter: false }
    }
}

/// The consumer's state while it waits for the next entry.
#[derive(Clone, Copy, Debug)]
pub struct Reception {
    /// The rounds left to spin through.
    pub attempts: u32,
}

impl Reception {
    /// The state of a consumer that starts to wait.
    pub fn new() -> (w: Self)
        ensures
            w == Reception::fresh(),
    {
        Reception { attempts: SPIN_ATTEMPTS }
    }

    /// The state of a consumer that starts to wait.
    pub open spec fn fresh() -> Reception {
        Reception { attempts: SPIN_ATTEMPTS }
    }
}

} // verus!
