//! A bounded multi-producer, single-consumer queue over a header of counters
//! and a ring of entries, with its coordination protocol stated and proved.
//!
//! A producer that finds space draws a position from the head counter,
//! writes its entry into the slot of that position, stamps it with the
//! position and a turn bit, and rings the doorbell. A producer that finds no
//! space draws nothing, so it can give up and leave no gap behind. The
//! consumer takes the entry at its tail
//! once the doorbell has left the tail and the slot carries the stamp of the
//! current trip round the buffer, and then advances the tail.
//!
//! The queue never sleeps itself. An operation runs in rounds; a round that
//! cannot go on says whether the caller is to spin or to sleep, and on which
//! word. `RawQueue::submit` and `RawQueue::receive` run one round for callers
//! that need not wait.

pub mod counter;
pub mod entry;
pub mod error;
pub mod flags;
pub mod hdr;
pub mod laws;
mod ledger;
pub mod model;
pub mod queue;
pub mod step;
pub mod tally;
pub mod world;

pub use entry::{EntryView, QueueEntry};
pub use error::{ReceiveError, SubmissionError};
pub use flags::{ReceiveFlags, SubmissionFlags};
pub use hdr::{HdrView, RawQueueHdr};
pub use model::QueueView;
pub use queue::RawQueue;
pub use step::{Reception, Reservation, Step, SPIN_ATTEMPTS};
