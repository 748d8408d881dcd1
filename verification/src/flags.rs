//! The flags that steer the two queue operations.

use vstd::prelude::*;

verus! {

/// Flags to control how queue submission works. One flag exists, so a set of flags
/// is one of two values.
#[derive(Clone, Copy, Debug, PartialEq, Eq, Structural)]
pub enum SubmissionFlags {
    /// No flag is set: the call waits for space.
    Blocking,
    /// `NON_BLOCK` is set.
    NonBlocking,
}

impl SubmissionFlags {
    /// If the request would block, return `Err(SubmissionError::WouldBlock)` instead.
    pub const NON_BLOCK: SubmissionFlags = SubmissionFlags::NonBlocking;

    /// The raw value of the flags, one bit for each flag that is set.
    pub open spec fn spec_bits(&self) -> u32 {
        match self {
            SubmissionFlags::Blocking => 0,
            SubmissionFlags::NonBlocking => 1,
        }
    }

    /// Whether every flag of `other` is set in `self`.
    pub open spec fn spec_contains(&self, other: Self) -> bool {
        other == SubmissionFlags::Blocking || *self == SubmissionFlags::NonBlocking
    }

    /// Whether the call is never to wait.
    pub open spec fn non_block(&self) -> bool {
        *self == SubmissionFlags::NonBlocking
    }

    /// The set of flags with none set.
    pub fn empty() -> (flags: Self)
        ensures
            flags == SubmissionFlags::Blocking,
    {
        SubmissionFlags::Blocking
    }

    /// The raw value of the flags.
    #[verifier::when_used_as_spec(spec_bits)]
    pub fn bits(&self) -> (bits: u32)
        ensures
            bits == self.spec_bits(),
    {
        match self {
            SubmissionFlags::Blocking => 0,
            SubmissionFlags::NonBlocking => 1,
        }
    }

    /// The flags that a raw value holds; bits that name no flag are dropped.
    pub fn from_bits_truncate(bits: u32) -> (flags: Self)
        ensures
            flags.spec_bits() == bits & 1,
    {
        assert(bits & 1 == 0 || bits & 1 == 1) by (bit_vector);
        if bits & 1 == 1 {
            SubmissionFlags::NonBlocking
        } else {
            SubmissionFlags::Blocking
        }
    }

    /// Whether every flag of `other` is set in `self`.
    #[verifier::when_used_as_spec(spec_contains)]
    pub fn contains(&self, other: Self) -> (yes: bool)
        ensures
            yes == self.spec_contains(other),
            yes == (self.spec_bits() & other.spec_bits() == other.spec_bits()),
    {
        assert(0u32 & 0u32 == 0u32 && 1u32 & 0u32 == 0u32 && 0u32 & 1u32 != 1u32 && 1u32 & 1u32
            == 1u32) by (bit_vector);
        match (self, other) {
            (_, SubmissionFlags::Blocking) => true,
            (SubmissionFlags::NonBlocking, SubmissionFlags::NonBlocking) => true,
            (SubmissionFlags::Blocking, SubmissionFlags::NonBlocking) => false,
        }
    }
}

/// Flags to control how queue receive works. One flag exists, so a set of flags
/// is one of two values.
#[derive(Clone, Copy, Debug, PartialEq, Eq, Structural)]
pub enum ReceiveFlags {
    /// No flag is set: the call waits for an entry.
    Blocking,
    /// `NON_BLOCK` is set.
    NonBlocking,
}

impl ReceiveFlags {
    /// If the request would block, return `Err(ReceiveError::WouldBlock)` instead.
    pub const NON_BLOCK: ReceiveFlags = ReceiveFlags::NonBlocking;

    /// The raw value of the flags, one bit for each flag that is set.
    pub open spec fn spec_bits(&self) -> u32 {
        match self {
            ReceiveFlags::Blocking => 0,
            ReceiveFlags::NonBlocking => 1,
        }
    }

    /// Whether every flag of `other` is set in `self`.
    pub open spec fn spec_contains(&self, other: Self) -> bool {
        other == ReceiveFlags::Blocking || *self == ReceiveFlags::NonBlocking
    }

    /// Whether the call is never to wait.
    pub open spec fn non_block(&self) -> bool {
        *self == ReceiveFlags::NonBlocking
    }

    /// The set of flags with none set.
    pub fn empty() -> (flags: Self)
        ensures
            flags == ReceiveFlags::Blocking,
    {
        ReceiveFlags::Blocking
    }

    /// The raw value of the flags.
    #[verifier::when_used_as_spec(spec_bits)]
    pub fn bits(&self) -> (bits: u32)
        ensures
            bits == self.spec_bits(),
    {
        match self {
            ReceiveFlags::Blocking => 0,
            ReceiveFlags::NonBlocking => 1,
        }
    }

    /// The flags that a raw value holds; bits that name no flag are dropped.
    pub fn from_bits_truncate(bits: u32) -> (flags: Self)
        ensures
            flags.spec_bits() == bits & 1,
    {
        assert(bits & 1 == 0 || bits & 1 == 1) by (bit_vector);
        if bits & 1 == 1 {
            ReceiveFlags::NonBlocking
        } else {
            ReceiveFlags::Blocking
        }
    }

    /// Whether every flag of `other` is set in `self`.
    #[verifier::when_used_as_spec(spec_contains)]
    pub fn contains(&self, other: Self) -> (yes: bool)
        ensures
            yes == self.spec_contains(other),
            yes == (self.spec_bits() & other.spec_bits() == other.spec_bits()),
    {
        assert(0u32 & 0u32 == 0u32 && 1u32 & 0u32 == 0u32 && 0u32 & 1u32 != 1u32 && 1u32 & 1u32
            == 1u32) by (bit_vector);
        match (self, other) {
            (_, ReceiveFlags::Blocking) => true,
            (ReceiveFlags::NonBlocking, ReceiveFlags::NonBlocking) => true,
            (ReceiveFlags::Blocking, ReceiveFlags::NonBlocking) => false,
        }
    }
}

} // verus!
