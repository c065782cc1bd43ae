//! A co-scheduler core: it partitions a multi-node, multi-NUMA inventory of
//! execution slots among a list of sub-jobs, each carrying a placement policy,
//! and plans the rank lines of a launcher multi-program file.

use vstd::prelude::*;

pub mod display;
pub mod emit;
pub mod joblist;
pub mod map;
pub mod numfmt;
pub mod probe;
pub mod solve;

verus! {

/// The uniform error channel of the library.  Every fatal condition of the
/// pipeline is one of these variants; none carries a formatted message, the
/// fields name the offending entity instead.
#[derive(Clone, Debug, PartialEq, Eq)]
pub enum Error {
    /// The placement string matches no form of the grammar.
    BadSyntax,
    /// The locality token is none of `numa`, `slot`, `node`.
    UnknownLocality,
    /// An `E` placement came without a locality token.
    EachRequiresLocality,
    /// A fixed order does not fit the machine word.
    OrderTooLarge,
    /// A rank environment value is present but is not a decimal integer.
    BadRank,
    /// A NUMA domain with the given OS index has no free slot.
    NoFreeSlotOnNuma { id: usize },
    /// The node with the given host name has no free slot.
    NoFreeSlotOnNode { host: String },
    /// A container of the walk had no room while a per-container pass required one.
    NoRoomOnEach,
    /// A full pass over the containers acquired nothing; `left` acquisitions remained.
    NoRoomLeft { left: usize },
    /// Fewer than `requested` free slots remain in the whole inventory.
    NotEnoughSlots { requested: usize },
    /// A slot refers to a job id outside the job list.
    NoSuchJob { id: usize },
    /// A slot was asked to take a job while already taken.
    SlotTaken,
}

impl Error {
    /// True of the variants that report a misuse of the job description:
    /// the configuration errors of the pipeline.
    pub open spec fn spec_is_config(&self) -> bool {
        match *self {
            Error::BadSyntax
            | Error::UnknownLocality
            | Error::EachRequiresLocality
            | Error::OrderTooLarge
            | Error::BadRank => true,
            _ => false,
        }
    }

    /// True of the variants that report exhausted capacity during placement
    /// or a dangling job id at emit time.
    pub open spec fn spec_is_capacity(&self) -> bool {
        match *self {
            Error::NoFreeSlotOnNuma { .. }
            | Error::NoFreeSlotOnNode { .. }
            | Error::NoRoomOnEach
            | Error::NoRoomLeft { .. }
            | Error::NotEnoughSlots { .. }
            | Error::NoSuchJob { .. }
            | Error::SlotTaken => true,
            _ => false,
        }
    }

    /// Executable form of `spec_is_config`.
    pub fn is_config(&self) -> (r: bool)
        ensures
            r == self.spec_is_config(),
    {
        match *self {
            Error::BadSyntax
            | Error::UnknownLocality
            | Error::EachRequiresLocality
            | Error::OrderTooLarge
            | Error::BadRank => true,
            _ => false,
        }
    }

    /// Executable form of `spec_is_capacity`.
    pub fn is_capacity(&self) -> (r: bool)
        ensures
            r == self.spec_is_capacity(),
    {
        match *self {
            Error::NoFreeSlotOnNuma { .. }
            | Error::NoFreeSlotOnNode { .. }
            | Error::NoRoomOnEach
            | Error::NoRoomLeft { .. }
            | Error::NotEnoughSlots { .. }
            | Error::NoSuchJob { .. }
            | Error::SlotTaken => true,
            _ => false,
        }
    }
}

} // verus!
