//! The input program, its control-flow summary and the register environment.

use vstd::prelude::*;
use crate::index::{Block, Inst, MAX_INSTS, ProgPoint};
use crate::locations::{PReg, VReg};
use crate::operand::Operand;

verus! {

/// Most blocks, and most virtual registers, that an edge key can name.
pub const MAX_KEY_FIELD: usize = 0x20_0000;

/// One basic block: its first and last instruction, its neighbours in the
/// control-flow graph and its parameters.
#[derive(Debug)]
pub struct BlockData {
    pub first: Inst,
    pub last: Inst,
    pub succs: Vec<Block>,
    pub preds: Vec<Block>,
    pub params: Vec<VReg>,
}

/// One instruction: its operands in slot order and what else it touches.
#[derive(Debug)]
pub struct InstData {
    pub operands: Vec<Operand>,
    pub clobbers: Vec<PReg>,
    pub is_ret: bool,
    pub is_safepoint: bool,
}

/// The program that registers were allocated for.
#[derive(Debug)]
pub struct Function {
    pub entry: Block,
    pub blocks: Vec<BlockData>,
    pub insts: Vec<InstData>,
    /// For each virtual register number, the register it is pinned to, if any.
    pub pinned: Vec<Option<PReg>>,
}

/// An operand that reuses an input names one of the `count` operands.
pub open spec fn reuse_in_bounds(operand: Operand, count: int) -> bool {
    match operand.constraint {
        crate::operand::OperandConstraint::Reuse(j) => j < count,
        _ => true,
    }
}

/// The operands that reuse an input are written after the instruction,
/// and no two of them reuse the same input.
pub open spec fn reuse_is_proper(operands: Seq<Operand>) -> bool {
    &&& forall|k: int|
        0 <= k < operands.len() && (#[trigger] operands[k]).spec_is_reuse() ==> {
            &&& operands[k].pos == crate::operand::OperandPos::After
            &&& operands[k].spec_reused_input()->0 < operands.len()
        }
    &&& forall|j: int, k: int|
        0 <= j < k < operands.len() && (#[trigger] operands[j]).spec_is_reuse() && (
        #[trigger] operands[k]).spec_is_reuse() ==> operands[j].spec_reused_input()
            != operands[k].spec_reused_input()
}

impl Function {
    /// Every block names instructions and blocks that exist, every `Reuse`
    /// names an operand of its own instruction and no input is reused
    /// twice, and the counts stay within what program points and edge keys
    /// can hold.
    pub open spec fn wf(&self) -> bool {
        &&& self.insts@.len() <= MAX_INSTS
        &&& self.blocks@.len() <= MAX_KEY_FIELD
        &&& forall|b: int|
            0 <= b < self.blocks@.len() ==> {
                &&& (#[trigger] self.blocks@[b]).first.0 <= self.blocks@[b].last.0
                &&& self.blocks@[b].last.0 < self.insts@.len()
            }
        &&& forall|b: int, k: int|
            0 <= b < self.blocks@.len() && 0 <= k < self.blocks@[b].succs@.len() ==> (
            #[trigger] self.blocks@[b].succs@[k]).0 < self.blocks@.len()
        &&& forall|b: int, k: int|
            0 <= b < self.blocks@.len() && 0 <= k < self.blocks@[b].preds@.len() ==> (
            #[trigger] self.blocks@[b].preds@[k]).0 < self.blocks@.len()
        &&& forall|i: int, k: int|
            0 <= i < self.insts@.len() && 0 <= k < self.insts@[i].operands@.len() ==> reuse_in_bounds(
                #[trigger] self.insts@[i].operands@[k],
                self.insts@[i].operands@.len() as int,
            )
        &&& forall|i: int| 0 <= i < self.insts@.len() ==> reuse_is_proper((#[trigger] self.insts@[i]).operands@)
    }

    /// The number of instructions.
    pub fn num_insts(&self) -> (r: usize)
        ensures
            r == self.insts@.len(),
    {
        self.insts.len()
    }

    /// The number of blocks.
    pub fn num_blocks(&self) -> (r: usize)
        ensures
            r == self.blocks@.len(),
    {
        self.blocks.len()
    }

    /// The block at which the function is entered.
    pub fn entry_block(&self) -> (r: Block)
        ensures
            r == self.entry,
    {
        self.entry
    }

    /// The first and the last instruction of a block.
    pub fn block_insns(&self, block: Block) -> (r: (Inst, Inst))
        requires
            block.0 < self.blocks@.len(),
        ensures
            r == (self.blocks@[block.0 as int].first, self.blocks@[block.0 as int].last),
    {
        (self.blocks[block.0].first, self.blocks[block.0].last)
    }

    /// The first instruction of a block.
    pub fn block_first(&self, block: Block) -> (r: Inst)
        requires
            block.0 < self.blocks@.len(),
        ensures
            r == self.blocks@[block.0 as int].first,
    {
        self.blocks[block.0].first
    }

    /// The last instruction of a block: its branch or return.
    pub fn block_last(&self, block: Block) -> (r: Inst)
        requires
            block.0 < self.blocks@.len(),
        ensures
            r == self.blocks@[block.0 as int].last,
    {
        self.blocks[block.0].last
    }

    /// The blocks that control can pass to from the end of a block.
    pub fn block_succs(&self, block: Block) -> (r: &Vec<Block>)
        requires
            block.0 < self.blocks@.len(),
        ensures
            r@ == self.blocks@[block.0 as int].succs@,
    {
        &self.blocks[block.0].succs
    }

    /// The blocks from whose end control can pass to a block.
    pub fn block_preds(&self, block: Block) -> (r: &Vec<Block>)
        requires
            block.0 < self.blocks@.len(),
        ensures
            r@ == self.blocks@[block.0 as int].preds@,
    {
        &self.blocks[block.0].preds
    }

    /// The parameters of a block.
    pub fn block_params(&self, block: Block) -> (r: &Vec<VReg>)
        requires
            block.0 < self.blocks@.len(),
        ensures
            r@ == self.blocks@[block.0 as int].params@,
    {
        &self.blocks[block.0].params
    }

    /// The operands of an instruction, in slot order.
    pub fn inst_operands(&self, inst: Inst) -> (r: &Vec<Operand>)
        requires
            inst.0 < self.insts@.len(),
        ensures
            r@ == self.insts@[inst.0 as int].operands@,
    {
        &self.insts[inst.0].operands
    }

    /// The registers that an instruction overwrites beside its operands.
    pub fn inst_clobbers(&self, inst: Inst) -> (r: &Vec<PReg>)
        requires
            inst.0 < self.insts@.len(),
        ensures
            r@ == self.insts@[inst.0 as int].clobbers@,
    {
        &self.insts[inst.0].clobbers
    }

    /// Whether the instruction returns from the function.
    pub fn is_ret(&self, inst: Inst) -> (r: bool)
        requires
            inst.0 < self.insts@.len(),
        ensures
            r == self.insts@[inst.0 as int].is_ret,
    {
        self.insts[inst.0].is_ret
    }

    /// Whether a runtime may inspect the live values at the instruction.
    pub fn is_safepoint(&self, inst: Inst) -> (r: bool)
        requires
            inst.0 < self.insts@.len(),
        ensures
            r == self.insts@[inst.0 as int].is_safepoint,
    {
        self.insts[inst.0].is_safepoint
    }

    /// The register a virtual register is pinned to, if it is pinned.
    pub open spec fn spec_pinned_vreg(&self, vreg: VReg) -> Option<PReg> {
        if vreg.vreg < self.pinned@.len() {
            self.pinned@[vreg.vreg as int]
        } else {
            None
        }
    }

    /// The register a virtual register is pinned to, if it is pinned.
    pub fn is_pinned_vreg(&self, vreg: VReg) -> (r: Option<PReg>)
        ensures
            r == self.spec_pinned_vreg(vreg),
    {
        if vreg.vreg < self.pinned.len() {
            self.pinned[vreg.vreg]
        } else {
            None
        }
    }
}

/// What the control-flow analysis found: the block of each instruction, the
/// entry and exit point of each block, and for each virtual register the
/// block parameter that defines it, if one does.
#[derive(Debug)]
pub struct CFGInfo {
    pub insn_block: Vec<Block>,
    pub block_entry: Vec<ProgPoint>,
    pub block_exit: Vec<ProgPoint>,
    pub vreg_def_blockparam: Vec<(Block, u32)>,
}

impl CFGInfo {
    /// The tables have one entry per instruction, per block and per virtual
    /// register, and every point in them belongs to an instruction.
    pub open spec fn wf(&self, func: &Function, num_vregs: int) -> bool {
        &&& self.insn_block@.len() == func.insts@.len()
        &&& self.block_entry@.len() == func.blocks@.len()
        &&& self.block_exit@.len() == func.blocks@.len()
        &&& self.vreg_def_blockparam@.len() == num_vregs
        &&& forall|i: int|
            0 <= i < self.insn_block@.len() ==> (#[trigger] self.insn_block@[i]).0 < func.blocks@.len()
        &&& forall|b: int|
            0 <= b < self.block_entry@.len() ==> (#[trigger] self.block_entry@[b]).spec_inst().0
                < func.insts@.len()
        &&& forall|b: int|
            0 <= b < self.block_exit@.len() ==> (#[trigger] self.block_exit@[b]).spec_inst().0
                < func.insts@.len()
        &&& forall|v: int|
            0 <= v < self.vreg_def_blockparam@.len() ==> {
                let b = (#[trigger] self.vreg_def_blockparam@[v]).0;
                b == Block::spec_invalid() || b.0 < func.blocks@.len()
            }
    }
}

/// The registers set aside for the allocator's own use.
#[derive(Debug)]
pub struct MachineEnv {
    /// One scratch register for `Int`, one for `Float`.
    pub scratch_by_class: [PReg; 2],
}

impl MachineEnv {
    /// Each scratch register is of the class it serves.
    pub open spec fn wf(&self) -> bool {
        &&& self.scratch_by_class@[0].class == crate::locations::RegClass::Int
        &&& self.scratch_by_class@[1].class == crate::locations::RegClass::Float
    }

    /// The scratch register of a class.
    pub open spec fn spec_scratch(&self, class: crate::locations::RegClass) -> PReg {
        self.scratch_by_class@[class.spec_number()]
    }

    /// The scratch register of a class.
    pub fn scratch(&self, class: crate::locations::RegClass) -> (r: PReg)
        ensures
            r == self.spec_scratch(class),
    {
        self.scratch_by_class[class.number()]
    }
}

} // verus!
