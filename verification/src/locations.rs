//! Registers, spill slots and allocations.

use vstd::prelude::*;

verus! {

/// The two register classes.
#[derive(Clone, Copy, Debug, PartialEq, Eq, Structural)]
pub enum RegClass {
    Int,
    Float,
}

impl RegClass {
    /// 0 for `Int`, 1 for `Float`.
    pub open spec fn spec_number(self) -> int {
        match self {
            RegClass::Int => 0,
            RegClass::Float => 1,
        }
    }

    /// 0 for `Int`, 1 for `Float`.
    pub fn number(self) -> (r: usize)
        ensures
            r == self.spec_number(),
    {
        match self {
            RegClass::Int => 0,
            RegClass::Float => 1,
        }
    }
}

/// A physical register: a hardware encoding within a class.
#[derive(Clone, Copy, Debug, PartialEq, Eq, Structural)]
pub struct PReg {
    pub hw_enc: u8,
    pub class: RegClass,
}

/// A virtual register of the input program, with its class.
#[derive(Clone, Copy, Debug, PartialEq, Eq, Structural)]
pub struct VReg {
    pub vreg: usize,
    pub class: RegClass,
}

/// A stack slot that holds a spilled value of one class.
#[derive(Clone, Copy, Debug, PartialEq, Eq, Structural)]
pub struct SpillSlot {
    pub slot: u32,
    pub class: RegClass,
}

/// Where a value lives: nowhere yet, in a register, or in a stack slot.
#[derive(Clone, Copy, Debug, PartialEq, Eq, Structural)]
pub enum Allocation {
    Unassigned,
    Reg(PReg),
    Stack(SpillSlot),
}

impl Allocation {
    /// The register class of a register or stack allocation.
    pub open spec fn spec_class(self) -> RegClass {
        match self {
            Allocation::Unassigned => RegClass::Int,
            Allocation::Reg(preg) => preg.class,
            Allocation::Stack(slot) => slot.class,
        }
    }

    /// The number by which allocations are ordered: unassigned first, then
    /// registers, then stack slots; within a kind `Int` before `Float`, and
    /// within a class by hardware encoding or slot number.
    pub open spec fn spec_order_key(self) -> int {
        match self {
            Allocation::Unassigned => 0,
            Allocation::Reg(preg) => 0x1_0000_0000 + preg.class.spec_number() * 0x100
                + preg.hw_enc,
            Allocation::Stack(slot) => 0x100_0000_0000 + slot.class.spec_number()
                * 0x1_0000_0000 + slot.slot,
        }
    }

    /// The location of a value that has none yet.
    pub fn none() -> (r: Allocation)
        ensures
            r == Allocation::Unassigned,
    {
        Allocation::Unassigned
    }

    /// The location that is a register.
    pub fn reg(preg: PReg) -> (r: Allocation)
        ensures
            r == Allocation::Reg(preg),
    {
        Allocation::Reg(preg)
    }

    /// The location that is a stack slot.
    pub fn stack(slot: SpillSlot) -> (r: Allocation)
        ensures
            r == Allocation::Stack(slot),
    {
        Allocation::Stack(slot)
    }

    /// Whether nothing is assigned.
    pub fn is_none(self) -> (r: bool)
        ensures
            r == (self == Allocation::Unassigned),
    {
        match self {
            Allocation::Unassigned => true,
            _ => false,
        }
    }

    /// Whether the location is a register.
    pub fn is_reg(self) -> (r: bool)
        ensures
            r == (self is Reg),
    {
        match self {
            Allocation::Reg(_) => true,
            _ => false,
        }
    }

    /// Whether the location is a stack slot.
    pub fn is_stack(self) -> (r: bool)
        ensures
            r == (self is Stack),
    {
        match self {
            Allocation::Stack(_) => true,
            _ => false,
        }
    }

    /// The register, if the location is one.
    pub fn as_reg(self) -> (r: Option<PReg>)
        ensures
            r == (match self {
                Allocation::Reg(preg) => Some(preg),
                _ => None,
            }),
    {
        match self {
            Allocation::Reg(preg) => Some(preg),
            _ => None,
        }
    }

    /// The stack slot, if the location is one.
    pub fn as_stack(self) -> (r: Option<SpillSlot>)
        ensures
            r == (match self {
                Allocation::Stack(slot) => Some(slot),
                _ => None,
            }),
    {
        match self {
            Allocation::Stack(slot) => Some(slot),
            _ => None,
        }
    }

    /// The class of a register or stack allocation; an unassigned one has none.
    pub fn class(self) -> (r: RegClass)
        requires
            self != Allocation::Unassigned,
        ensures
            r == self.spec_class(),
    {
        match self {
            Allocation::Unassigned => RegClass::Int,
            Allocation::Reg(preg) => preg.class,
            Allocation::Stack(slot) => slot.class,
        }
    }

    /// The number by which allocations are ordered.
    pub fn order_key(self) -> (r: u64)
        ensures
            r == self.spec_order_key(),
            r < 0x1000_0000_0000,
    {
        match self {
            Allocation::Unassigned => 0,
            Allocation::Reg(preg) => {
                let c: u64 = preg.class.number() as u64;
                let h: u64 = preg.hw_enc as u64;
                0x1_0000_0000u64 + c * 0x100 + h
            },
            Allocation::Stack(slot) => {
                let c: u64 = slot.class.number() as u64;
                let s: u64 = slot.slot as u64;
                0x100_0000_0000u64 + c * 0x1_0000_0000 + s
            },
        }
    }
}

/// Two allocations have the same order key only if they are the same.
pub proof fn lemma_order_key_injective(a: Allocation, b: Allocation)
    requires
        a.spec_order_key() == b.spec_order_key(),
    ensures
        a == b,
{
    match (a, b) {
        (Allocation::Reg(p), Allocation::Reg(q)) => {
            assert(p.class == q.class);
            assert(p.hw_enc == q.hw_enc);
        },
        (Allocation::Stack(s), Allocation::Stack(t)) => {
            assert(s.class == t.class);
            assert(s.slot == t.slot);
        },
        _ => {},
    }
}

} // verus!
