//! The entries that a queue's buffer is made of.

use vstd::prelude::*;

verus! {

/// What a queue entry holds.
pub struct EntryView<T> {
    /// The control word: the turn bit above the 31 bits of the position that
    /// the entry was submitted at.
    pub cmd_slot: u32,
    /// The tag that the submitter gave the entry.
    pub info: u32,
    /// The payload.
    pub data: T,
}

/// A queue entry. All queues must be formed of these, as the queue algorithm
/// uses the control word inside this struct as part of its operation. The info
/// tag is for the user of the queue to tell completions apart, and the data is
/// the payload passed around the queue.
#[derive(Debug)]
pub struct QueueEntry<T> {
    cmd_slot: u32,
    info: u32,
    data: T,
}

impl<T> View for QueueEntry<T> {
    type V = EntryView<T>;

    closed spec fn view(&self) -> EntryView<T> {
        EntryView { cmd_slot: self.cmd_slot, info: self.info, data: self.data }
    }
}

impl<T> QueueEntry<T> {
    /// Construct a new QueueEntry. Its control word is zero until a queue
    /// stamps it.
    pub fn new(info: u32, item: T) -> (entry: Self)
        ensures
            entry@ == (EntryView { cmd_slot: 0, info, data: item }),
    {
        Self { cmd_slot: 0, info, data: item }
    }

    /// Get the control word of a QueueEntry.
    pub fn get_cmd_slot(&self) -> (cmd: u32)
        ensures
            cmd == self@.cmd_slot,
    {
        self.cmd_slot
    }

    /// Set the control word of a QueueEntry, and leave tag and payload alone.
    pub fn set_cmd_slot(&mut self, v: u32)
        ensures
            final(self)@ == (EntryView { cmd_slot: v, ..old(self)@ }),
    {
        self.cmd_slot = v;
    }

    /// Get the data item of a QueueEntry.
    pub fn item(self) -> (data: T)
        ensures
            data == self@.data,
    {
        self.data
    }

    /// Get the info tag of a QueueEntry.
    pub fn info(&self) -> (info: u32)
        ensures
            info == self@.info,
    {
        self.info
    }
}

impl<T: Copy> Clone for QueueEntry<T> {
    /// A copy of the entry.
    fn clone(&self) -> (entry: Self)
        ensures
            entry == *self,
    {
        *self
    }
}

impl<T: Copy> Copy for QueueEntry<T> {

}

impl<T: Default> Default for QueueEntry<T> {
    /// An entry with a zero control word, a zero tag and the payload's default.
    fn default() -> (entry: Self)
        ensures
            entry@.cmd_slot == 0,
            entry@.info == 0,
    {
        Self { cmd_slot: 0, info: 0, data: T::default() }
    }
}

} // verus!
