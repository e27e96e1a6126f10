//! Instruction operands.

use vstd::prelude::*;
use crate::locations::{PReg, VReg};

verus! {

/// How an instruction touches an operand.
#[derive(Clone, Copy, Debug, PartialEq, Eq, Structural)]
pub enum OperandKind {
    Def,
    Mod,
    Use,
}

/// The point of the instruction at which an operand is read or written.
#[derive(Clone, Copy, Debug, PartialEq, Eq, Structural)]
pub enum OperandPos {
    Before,
    After,
}

/// What an operand asks of its location.
#[derive(Clone, Copy, Debug, PartialEq, Eq, Structural)]
pub enum OperandConstraint {
    /// Any location will do.
    Any,
    /// Some register.
    Reg,
    /// Some stack slot.
    Stack,
    /// This register.
    FixedReg(PReg),
    /// The location of the input operand with this index.
    Reuse(usize),
}

/// One operand of one instruction.
#[derive(Clone, Copy, Debug, PartialEq, Eq, Structural)]
pub struct Operand {
    pub vreg: VReg,
    pub kind: OperandKind,
    pub pos: OperandPos,
    pub constraint: OperandConstraint,
}

impl Operand {
    /// An operand of the given virtual register.
    pub fn new(vreg: VReg, constraint: OperandConstraint, kind: OperandKind, pos: OperandPos) -> (r:
        Operand)
        ensures
            r == (Operand { vreg, kind, pos, constraint }),
    {
        Operand { vreg, kind, pos, constraint }
    }

    /// Whether the operand reuses the location of an input.
    pub open spec fn spec_is_reuse(self) -> bool {
        self.constraint is Reuse
    }

    /// Whether the operand reuses the location of an input.
    pub fn is_reuse(self) -> (r: bool)
        ensures
            r == self.spec_is_reuse(),
    {
        match self.constraint {
            OperandConstraint::Reuse(_) => true,
            _ => false,
        }
    }

    /// The input whose location the operand reuses, if it reuses one.
    pub open spec fn spec_reused_input(self) -> Option<usize> {
        match self.constraint {
            OperandConstraint::Reuse(input) => Some(input),
            _ => None,
        }
    }

    /// Whether the instruction writes the operand.
    pub open spec fn spec_is_written(self) -> bool {
        self.kind is Def || self.kind is Mod
    }

    /// Whether the instruction writes the operand.
    pub fn is_written(self) -> (r: bool)
        ensures
            r == self.spec_is_written(),
    {
        match self.kind {
            OperandKind::Def => true,
            OperandKind::Mod => true,
            OperandKind::Use => false,
        }
    }
}

} // verus!
