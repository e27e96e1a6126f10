//! Dense identifiers and program points.

use vstd::prelude::*;

verus! {

/// Largest number of instructions a function may hold, so that every
/// program point fits in 32 bits.
pub const MAX_INSTS: usize = 0x3fff_ffff;

/// Largest program-point index: `After` of the last possible instruction,
/// plus one for an exclusive range end.
pub const MAX_POINT: usize = 0x7fff_ffff;

/// An instruction, by its position in the function.
#[derive(Clone, Copy, Debug, PartialEq, Eq, Structural)]
pub struct Inst(pub usize);

/// A basic block, by its position in the function.
#[derive(Clone, Copy, Debug, PartialEq, Eq, Structural)]
pub struct Block(pub usize);

/// A virtual register, by its position in the allocator's table.
#[derive(Clone, Copy, Debug, PartialEq, Eq, Structural)]
pub struct VRegIndex(pub usize);

/// A physical register, by its position in the allocator's table.
#[derive(Clone, Copy, Debug, PartialEq, Eq, Structural)]
pub struct PRegIndex(pub usize);

/// A live range, by its position in the allocator's arena.
#[derive(Clone, Copy, Debug, PartialEq, Eq, Structural)]
pub struct LiveRangeIndex(pub usize);

/// A bundle of live ranges, by its position in the allocator's arena.
#[derive(Clone, Copy, Debug, PartialEq, Eq, Structural)]
pub struct LiveBundleIndex(pub usize);

/// A spill set, by its position in the allocator's arena.
#[derive(Clone, Copy, Debug, PartialEq, Eq, Structural)]
pub struct SpillSetIndex(pub usize);

/// A spill slot, by its position in the allocator's arena.
#[derive(Clone, Copy, Debug, PartialEq, Eq, Structural)]
pub struct SpillSlotIndex(pub usize);

impl Inst {
    /// The instruction at a position.
    pub fn new(index: usize) -> (r: Inst)
        ensures
            r == Inst(index),
    {
        Inst(index)
    }

    /// The position that the identifier stands for.
    pub fn index(self) -> (r: usize)
        ensures
            r == self.0,
    {
        self.0
    }
}

impl Block {
    /// The identifier that names no block.
    pub open spec fn spec_invalid() -> Block {
        Block(usize::MAX as usize)
    }

    /// The block at a position.
    pub fn new(index: usize) -> (r: Block)
        ensures
            r == Block(index),
    {
        Block(index)
    }

    /// The position that the identifier stands for.
    pub fn index(self) -> (r: usize)
        ensures
            r == self.0,
    {
        self.0
    }

    /// The identifier that names no block.
    pub fn invalid() -> (r: Block)
        ensures
            r == Block::spec_invalid(),
    {
        Block(usize::MAX)
    }

    /// Whether the identifier names something.
    pub fn is_valid(self) -> (r: bool)
        ensures
            r == (self != Block::spec_invalid()),
    {
        self.0 != usize::MAX
    }
}

impl LiveRangeIndex {
    /// The identifier that names no live range.
    pub open spec fn spec_invalid() -> LiveRangeIndex {
        LiveRangeIndex(usize::MAX as usize)
    }

    /// The identifier that names no live range.
    pub fn invalid() -> (r: LiveRangeIndex)
        ensures
            r == LiveRangeIndex::spec_invalid(),
    {
        LiveRangeIndex(usize::MAX)
    }

    /// Whether the identifier names something.
    pub fn is_valid(self) -> (r: bool)
        ensures
            r == (self != LiveRangeIndex::spec_invalid()),
    {
        self.0 != usize::MAX
    }
}

/// Position within one instruction.
#[derive(Clone, Copy, Debug, PartialEq, Eq, Structural)]
pub enum InstPosition {
    Before,
    After,
}

/// A point in the program: just before or just after one instruction.
///
/// Points are totally ordered by `2 * inst + pos`, which is what `bits` holds.
#[derive(Clone, Copy, Debug, PartialEq, Eq, Structural)]
pub struct ProgPoint {
    pub bits: usize,
}

impl ProgPoint {
    /// The point's place in the total order of program points.
    pub open spec fn spec_index(self) -> int {
        self.bits as int
    }

    /// The instruction the point belongs to.
    pub open spec fn spec_inst(self) -> Inst {
        Inst(self.bits / 2)
    }

    /// Whether the point lies before or after its instruction.
    pub open spec fn spec_pos(self) -> InstPosition {
        if self.bits % 2 == 0 {
            InstPosition::Before
        } else {
            InstPosition::After
        }
    }

    /// The point just before an instruction.
    pub open spec fn spec_before(inst: Inst) -> ProgPoint {
        ProgPoint { bits: (2 * inst.0) as usize }
    }

    /// The point just after an instruction.
    pub open spec fn spec_after(inst: Inst) -> ProgPoint {
        ProgPoint { bits: (2 * inst.0 + 1) as usize }
    }

    /// The point just before an instruction.
    pub fn before(inst: Inst) -> (r: ProgPoint)
        requires
            inst.0 <= MAX_INSTS,
        ensures
            r == ProgPoint::spec_before(inst),
            r.spec_inst() == inst,
            r.spec_pos() == InstPosition::Before,
    {
        ProgPoint { bits: 2 * inst.0 }
    }

    /// The point just after an instruction.
    pub fn after(inst: Inst) -> (r: ProgPoint)
        requires
            inst.0 <= MAX_INSTS,
        ensures
            r == ProgPoint::spec_after(inst),
            r.spec_inst() == inst,
            r.spec_pos() == InstPosition::After,
    {
        ProgPoint { bits: 2 * inst.0 + 1 }
    }

    /// The instruction the point belongs to.
    pub fn inst(self) -> (r: Inst)
        ensures
            r == self.spec_inst(),
    {
        Inst(self.bits / 2)
    }

    /// Whether the point lies before or after its instruction.
    pub fn pos(self) -> (r: InstPosition)
        ensures
            r == self.spec_pos(),
    {
        if self.bits % 2 == 0 {
            InstPosition::Before
        } else {
            InstPosition::After
        }
    }

    /// The point that follows this one in program order.
    pub fn next(self) -> (r: ProgPoint)
        requires
            self.bits < usize::MAX,
        ensures
            r.bits == self.bits + 1,
    {
        ProgPoint { bits: self.bits + 1 }
    }

    /// The point's place in the total order of program points.
    pub fn to_index(self) -> (r: usize)
        ensures
            r == self.spec_index(),
    {
        self.bits
    }

    /// The point at a place in the total order of program points.
    pub fn from_index(index: usize) -> (r: ProgPoint)
        ensures
            r.spec_index() == index,
    {
        ProgPoint { bits: index }
    }
}

/// A half-open range `[from, to)` of program points.
#[derive(Clone, Copy, Debug, PartialEq, Eq, Structural)]
pub struct CodeRange {
    pub from: ProgPoint,
    pub to: ProgPoint,
}

impl CodeRange {
    /// Whether the point lies in the range: at or behind its start, before its end.
    pub open spec fn spec_contains_point(self, point: ProgPoint) -> bool {
        self.from.bits <= point.bits < self.to.bits
    }

    /// Whether the point lies in the range: at or behind its start, before its end.
    pub fn contains_point(self, point: ProgPoint) -> (r: bool)
        ensures
            r == self.spec_contains_point(point),
    {
        self.from.bits <= point.bits && point.bits < self.to.bits
    }
}

} // verus!
