//! Pending moves and the edits that come out.

use vstd::prelude::*;
use crate::index::ProgPoint;
use crate::locations::{Allocation, VReg};

verus! {

/// The order in which moves at one program point take place, lowest first.
#[derive(Clone, Copy, Debug, PartialEq, Eq, Structural)]
pub enum InsertMovePrio {
    InEdgeMoves,
    BlockParam,
    Regular,
    PostRegular,
    MultiFixedReg,
    ReusedInput,
    OutEdgeMoves,
}

impl InsertMovePrio {
    /// The priority's rank, from 0 for `InEdgeMoves` to 6 for `OutEdgeMoves`.
    pub open spec fn spec_rank(self) -> int {
        match self {
            InsertMovePrio::InEdgeMoves => 0,
            InsertMovePrio::BlockParam => 1,
            InsertMovePrio::Regular => 2,
            InsertMovePrio::PostRegular => 3,
            InsertMovePrio::MultiFixedReg => 4,
            InsertMovePrio::ReusedInput => 5,
            InsertMovePrio::OutEdgeMoves => 6,
        }
    }

    /// The priority's rank.
    pub fn rank(self) -> (r: u64)
        ensures
            r == self.spec_rank(),
    {
        match self {
            InsertMovePrio::InEdgeMoves => 0,
            InsertMovePrio::BlockParam => 1,
            InsertMovePrio::Regular => 2,
            InsertMovePrio::PostRegular => 3,
            InsertMovePrio::MultiFixedReg => 4,
            InsertMovePrio::ReusedInput => 5,
            InsertMovePrio::OutEdgeMoves => 6,
        }
    }
}

/// The key by which moves and edits are ordered: the program point first,
/// the priority second.
pub open spec fn spec_place_key(pos_index: int, prio: InsertMovePrio) -> int {
    pos_index * 8 + prio.spec_rank()
}

/// A move that has been found necessary, not yet scheduled.
#[derive(Clone, Copy, Debug, PartialEq, Eq, Structural)]
pub struct InsertedMove {
    pub pos: ProgPoint,
    pub prio: InsertMovePrio,
    pub from_alloc: Allocation,
    pub to_alloc: Allocation,
    pub to_vreg: Option<VReg>,
}

/// One primitive step for the client to splice into the code.
#[derive(Clone, Copy, Debug, PartialEq, Eq, Structural)]
pub enum Edit {
    /// Copy the value in `from` to `to`.
    Move { from: Allocation, to: Allocation, to_vreg: Option<VReg> },
    /// Note that `vreg` now lives in `alloc`; nothing is copied.
    DefAlloc { alloc: Allocation, vreg: VReg },
}

} // verus!
