//! Patch lifecycle states and their total order.
use vstd::prelude::*;

verus! {

/// Lifecycle state of an installed patch.
///
/// The states are totally ordered
/// `Unknown < NotApplied < Deactived < Actived < Accepted`;
/// the order decides restore sequencing (removals replay before
/// applications).
#[derive(Clone, Copy, Debug, PartialEq, Eq, Structural, Hash)]
pub enum PatchStatus {
    Unknown,
    NotApplied,
    Deactived,
    Actived,
    Accepted,
}

impl PatchStatus {
    /// Position of the state in the total order.
    pub open spec fn rank(self) -> int {
        match self {
            PatchStatus::Unknown => 0,
            PatchStatus::NotApplied => 1,
            PatchStatus::Deactived => 2,
            PatchStatus::Actived => 3,
            PatchStatus::Accepted => 4,
        }
    }

    /// Executable rank, used to compare states.
    pub fn rank_u8(self) -> (r: u8)
        ensures
            r as int == self.rank(),
    {
        match self {
            PatchStatus::Unknown => 0,
            PatchStatus::NotApplied => 1,
            PatchStatus::Deactived => 2,
            PatchStatus::Actived => 3,
            PatchStatus::Accepted => 4,
        }
    }

    /// `self` comes no later than `other` in the status order.
    pub fn le(self, other: PatchStatus) -> (r: bool)
        ensures
            r == (self.rank() <= other.rank()),
    {
        self.rank_u8() <= other.rank_u8()
    }

    /// Stable name of the state, used by the persistence codec.
    pub fn name(self) -> (r: String)
        ensures
            r@ == self.spec_name(),
    {
        match self {
            PatchStatus::Unknown => String::from_str("UNKNOWN"),
            PatchStatus::NotApplied => String::from_str("NOT-APPLIED"),
            PatchStatus::Deactived => String::from_str("DEACTIVED"),
            PatchStatus::Actived => String::from_str("ACTIVED"),
            PatchStatus::Accepted => String::from_str("ACCEPTED"),
        }
    }

    /// Name of the state as a character sequence.
    pub open spec fn spec_name(self) -> Seq<char> {
        match self {
            PatchStatus::Unknown => "UNKNOWN"@,
            PatchStatus::NotApplied => "NOT-APPLIED"@,
            PatchStatus::Deactived => "DEACTIVED"@,
            PatchStatus::Actived => "ACTIVED"@,
            PatchStatus::Accepted => "ACCEPTED"@,
        }
    }
}

/// Status values reported by the user-space injection module.
pub enum UpatchStatus {
    NotApplied,
    Deactived,
    Active,
    Invalid,
}

impl UpatchStatus {
    /// Numeric code used across the module boundary.
    pub fn code(self) -> (r: u8)
        ensures
            r == self.spec_code(),
    {
        match self {
            UpatchStatus::NotApplied => 1,
            UpatchStatus::Deactived => 2,
            UpatchStatus::Active => 3,
            UpatchStatus::Invalid => 4,
        }
    }

    /// Numeric code of the variant.
    pub open spec fn spec_code(self) -> u8 {
        match self {
            UpatchStatus::NotApplied => 1,
            UpatchStatus::Deactived => 2,
            UpatchStatus::Active => 3,
            UpatchStatus::Invalid => 4,
        }
    }

    /// The lifecycle state that the reported value stands for.
    pub fn to_patch_status(self) -> (r: PatchStatus)
        ensures
            r == self.spec_to_patch_status(),
    {
        match self {
            UpatchStatus::NotApplied => PatchStatus::NotApplied,
            UpatchStatus::Deactived => PatchStatus::Deactived,
            UpatchStatus::Active => PatchStatus::Actived,
            UpatchStatus::Invalid => PatchStatus::Unknown,
        }
    }

    /// Mapping from reported value to lifecycle state.
    pub open spec fn spec_to_patch_status(self) -> PatchStatus {
        match self {
            UpatchStatus::NotApplied => PatchStatus::NotApplied,
            UpatchStatus::Deactived => PatchStatus::Deactived,
            UpatchStatus::Active => PatchStatus::Actived,
            UpatchStatus::Invalid => PatchStatus::Unknown,
        }
    }
}

} // verus!
