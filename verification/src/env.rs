//! The allocator's state as move resolution finds it, and the small
//! operations on it.

use vstd::prelude::*;
use crate::edits::{Edit, InsertedMove, InsertMovePrio};
use crate::function::{CFGInfo, Function, MachineEnv, MAX_KEY_FIELD};
use crate::index::{
    Block,
    CodeRange,
    Inst,
    LiveBundleIndex,
    LiveRangeIndex,
    MAX_POINT,
    PRegIndex,
    ProgPoint,
    SpillSetIndex,
    SpillSlotIndex,
    VRegIndex,
};
use crate::locations::{Allocation, PReg, VReg};
use crate::operand::Operand;

verus! {

/// The slot number of a use that has no operand slot.
pub const SLOT_NONE: u8 = 255;

/// Most spill slots that can be handed out.
pub const MAX_SPILLSLOTS: u32 = 0xff_ffff;

/// One edit with its place: program-point index, priority, edit.
pub type EditEntry = (usize, InsertMovePrio, Edit);

/// One place where a live range's value is read or written.
#[derive(Clone, Copy, Debug)]
pub struct Use {
    pub operand: Operand,
    pub pos: ProgPoint,
    pub slot: u8,
}

/// A stretch of code over which one virtual register keeps one location.
#[derive(Debug)]
pub struct LiveRange {
    pub range: CodeRange,
    pub vreg: VRegIndex,
    pub bundle: LiveBundleIndex,
    pub uses: Vec<Use>,
    /// The range begins at the definition of its virtual register.
    pub starts_at_def: bool,
}

/// A live range in a virtual register's list, with a copy of its extent.
#[derive(Clone, Copy, Debug)]
pub struct LiveRangeListEntry {
    pub range: CodeRange,
    pub index: LiveRangeIndex,
}

/// A group of live ranges that share one location.
#[derive(Clone, Copy, Debug)]
pub struct LiveBundle {
    pub allocation: Allocation,
    pub spillset: SpillSetIndex,
}

/// Bundles that are spilled to one stack slot.
#[derive(Clone, Copy, Debug)]
pub struct SpillSet {
    pub slot: SpillSlotIndex,
}

/// A stack slot for spills, with its location.
#[derive(Clone, Copy, Debug)]
pub struct SpillSlotData {
    pub alloc: Allocation,
}

/// A virtual register: its live ranges, and whether the client pins it.
#[derive(Debug)]
pub struct VRegData {
    pub ranges: Vec<LiveRangeListEntry>,
    pub is_pinned: bool,
}

/// A physical register of the machine.
#[derive(Clone, Copy, Debug)]
pub struct PRegData {
    pub reg: PReg,
}

/// A block parameter `to_vreg` of `to_block` that receives a value along the
/// edge from `from_block`.
#[derive(Clone, Copy, Debug)]
pub struct BlockparamIn {
    pub to_vreg: VRegIndex,
    pub to_block: Block,
    pub from_block: Block,
}

/// A value `from_vreg` that `from_block` passes to the parameter `to_vreg`
/// of `to_block`.
#[derive(Clone, Copy, Debug)]
pub struct BlockparamOut {
    pub from_vreg: VRegIndex,
    pub from_block: Block,
    pub to_block: Block,
    pub to_vreg: VRegIndex,
}

/// The location of one block parameter at the entry of its block.
#[derive(Clone, Copy, Debug)]
pub struct BlockparamAlloc {
    pub block: Block,
    pub index: u32,
    pub vreg: VRegIndex,
    pub alloc: Allocation,
}

/// One end of a move of the input program: the virtual register, the
/// instruction, and the location once it is known.
#[derive(Clone, Copy, Debug)]
pub struct ProgMove {
    pub vreg: VRegIndex,
    pub inst: Inst,
    pub alloc: Allocation,
}

/// A copy from one fixed register to another that an instruction with
/// several fixed-register constraints on one value needs, and the operand
/// slot that is to name the second register.
#[derive(Clone, Copy, Debug)]
pub struct MultiFixedRegFixup {
    pub pos: ProgPoint,
    pub from_preg: PRegIndex,
    pub to_preg: PRegIndex,
    pub slot: usize,
}

/// Counts kept while the moves are resolved.
#[derive(Clone, Copy, Debug, PartialEq, Eq, Structural)]
pub struct Stats {
    pub halfmoves_count: usize,
    pub edits_count: usize,
    pub blockparam_allocs_count: usize,
}

/// Everything move resolution reads and writes.
#[derive(Debug)]
pub struct Env {
    pub func: Function,
    pub env: MachineEnv,
    pub cfginfo: CFGInfo,
    /// For each block, for each virtual register, whether it is live on entry.
    pub liveins: Vec<Vec<bool>>,
    pub ranges: Vec<LiveRange>,
    pub bundles: Vec<LiveBundle>,
    pub spillsets: Vec<SpillSet>,
    pub spillslots: Vec<SpillSlotData>,
    pub vregs: Vec<VRegData>,
    pub vreg_regs: Vec<VReg>,
    pub pregs: Vec<PRegData>,
    pub blockparam_ins: Vec<BlockparamIn>,
    pub blockparam_outs: Vec<BlockparamOut>,
    pub blockparam_allocs: Vec<BlockparamAlloc>,
    pub prog_move_srcs: Vec<ProgMove>,
    pub prog_move_dsts: Vec<ProgMove>,
    pub multi_fixed_reg_fixups: Vec<MultiFixedRegFixup>,
    pub inserted_moves: Vec<InsertedMove>,
    pub edits: Vec<EditEntry>,
    /// The operand slots of all instructions, one after the other.
    pub allocs: Vec<Allocation>,
    /// For each instruction, where its operand slots begin in `allocs`.
    pub inst_alloc_offsets: Vec<u32>,
    /// For each class, the spare stack slot, once one was needed.
    pub extra_spillslot: [Option<Allocation>; 2],
    pub num_spillslots: u32,
    pub stats: Stats,
}

/// A move between two registers stays within one class.
pub open spec fn move_classes_agree(from: Allocation, to: Allocation) -> bool {
    from is Reg && to is Reg ==> from.spec_class() == to.spec_class()
}

/// A move that changes something has a location at both ends, and both of
/// one class.
pub open spec fn move_fits(from: Allocation, to: Allocation) -> bool {
    from != to ==> {
        &&& from != Allocation::Unassigned
        &&& to != Allocation::Unassigned
        &&& from.spec_class() == to.spec_class()
    }
}

/// The location of a live range: that of its bundle, or, where the bundle
/// has none, that of the spill slot of the bundle's spill set.
pub open spec fn spec_range_alloc(
    ranges: Seq<LiveRange>,
    bundles: Seq<LiveBundle>,
    spillsets: Seq<SpillSet>,
    spillslots: Seq<SpillSlotData>,
    range: LiveRangeIndex,
) -> Allocation {
    let bundle = bundles[ranges[range.0 as int].bundle.0 as int];
    if bundle.allocation != Allocation::Unassigned {
        bundle.allocation
    } else {
        spillslots[spillsets[bundle.spillset.0 as int].slot.0 as int].alloc
    }
}

/// The position in `allocs` of an operand slot of an instruction.
pub open spec fn spec_slot_index(offsets: Seq<u32>, inst: Inst, slot: int) -> int {
    offsets[inst.0 as int] + slot
}

impl Env {
    /// The tables of live ranges, bundles, spill sets and spill slots refer
    /// to entries that exist.
    pub open spec fn wf_ranges(&self) -> bool {
        &&& forall|r: int|
            0 <= r < self.ranges@.len() ==> {
                &&& (#[trigger] self.ranges@[r]).bundle.0 < self.bundles@.len()
                &&& self.ranges@[r].range.from.bits <= MAX_POINT
                &&& self.ranges@[r].range.to.bits <= MAX_POINT
                &&& self.ranges@[r].range.from.spec_inst().0 < self.func.insts@.len()
            }
        &&& forall|b: int|
            0 <= b < self.bundles@.len() && (#[trigger] self.bundles@[b]).allocation == Allocation::Unassigned ==> {
                &&& self.bundles@[b].spillset.0 < self.spillsets@.len()
                &&& self.spillsets@[self.bundles@[b].spillset.0 as int].slot.0 < self.spillslots@.len()
            }
        &&& forall|v: int, i: int|
            0 <= v < self.vregs@.len() && 0 <= i < self.vregs@[v].ranges@.len() ==> (
            #[trigger] self.vregs@[v].ranges@[i]).index.0 < self.ranges@.len()
    }

    /// Every use lies within its live range, names an instruction that
    /// exists and, unless it has no slot, an operand slot within `allocs`.
    pub open spec fn wf_uses(&self) -> bool {
        forall|r: int, u: int|
            0 <= r < self.ranges@.len() && 0 <= u < self.ranges@[r].uses@.len() ==> {
                let usedata = #[trigger] self.ranges@[r].uses@[u];
                &&& self.ranges@[r].range.spec_contains_point(usedata.pos)
                &&& usedata.pos.spec_inst().0 < self.func.insts@.len()
                &&& usedata.slot != SLOT_NONE ==> spec_slot_index(
                    self.inst_alloc_offsets@,
                    usedata.pos.spec_inst(),
                    usedata.slot as int,
                ) < self.allocs@.len()
            }
    }

    /// Every instruction has its operand slots within `allocs`.
    pub open spec fn wf_slots(&self) -> bool {
        &&& self.inst_alloc_offsets@.len() == self.func.insts@.len()
        &&& forall|i: int|
            0 <= i < self.func.insts@.len() ==> (#[trigger] self.inst_alloc_offsets@[i])
                + self.func.insts@[i].operands@.len() <= self.allocs@.len()
    }

    /// The program, the register environment and the control-flow summary
    /// are consistent, and the tables fit the machine's limits.
    pub open spec fn wf_program(&self) -> bool {
        &&& self.func.wf()
        &&& self.env.wf()
        &&& self.cfginfo.wf(&self.func, self.vregs@.len() as int)
        &&& self.vregs@.len() <= MAX_KEY_FIELD
        &&& self.vreg_regs@.len() == self.vregs@.len()
        &&& self.wf_slots()
    }

    /// Whether `pos` is the entry point of the block it lies in.
    pub open spec fn spec_is_start_of_block(&self, pos: ProgPoint) -> bool {
        pos == self.cfginfo.block_entry@[self.cfginfo.insn_block@[pos.spec_inst().0 as int].0 as int]
    }

    /// Whether `pos` is the exit point of the block it lies in.
    pub open spec fn spec_is_end_of_block(&self, pos: ProgPoint) -> bool {
        pos == self.cfginfo.block_exit@[self.cfginfo.insn_block@[pos.spec_inst().0 as int].0 as int]
    }

    /// Whether `pos` is the entry point of the block it lies in.
    pub fn is_start_of_block(&self, pos: ProgPoint) -> (r: bool)
        requires
            pos.spec_inst().0 < self.cfginfo.insn_block@.len(),
            self.cfginfo.insn_block@[pos.spec_inst().0 as int].0 < self.cfginfo.block_entry@.len(),
        ensures
            r == self.spec_is_start_of_block(pos),
    {
        let block = self.cfginfo.insn_block[pos.inst().index()];
        pos == self.cfginfo.block_entry[block.index()]
    }

    /// Whether `pos` is the exit point of the block it lies in.
    pub fn is_end_of_block(&self, pos: ProgPoint) -> (r: bool)
        requires
            pos.spec_inst().0 < self.cfginfo.insn_block@.len(),
            self.cfginfo.insn_block@[pos.spec_inst().0 as int].0 < self.cfginfo.block_exit@.len(),
        ensures
            r == self.spec_is_end_of_block(pos),
    {
        let block = self.cfginfo.insn_block[pos.inst().index()];
        pos == self.cfginfo.block_exit[block.index()]
    }

    /// Records that the value in `from_alloc` has to be in `to_alloc` at
    /// `pos`.
    pub fn insert_move(
        &mut self,
        pos: ProgPoint,
        prio: InsertMovePrio,
        from_alloc: Allocation,
        to_alloc: Allocation,
        to_vreg: Option<VReg>,
    )
        requires
            move_classes_agree(from_alloc, to_alloc),
        ensures
            final(self).inserted_moves@ == old(self).inserted_moves@.push(
                InsertedMove { pos, prio, from_alloc, to_alloc, to_vreg },
            ),
            *final(self) == (Env { inserted_moves: final(self).inserted_moves, ..*old(self) }),
    {
        self.inserted_moves.push(InsertedMove { pos, prio, from_alloc, to_alloc, to_vreg });
    }

    /// The location in an operand slot of an instruction.
    pub open spec fn spec_get_alloc(&self, inst: Inst, slot: int) -> Allocation {
        self.allocs@[spec_slot_index(self.inst_alloc_offsets@, inst, slot)]
    }

    /// The location in an operand slot of an instruction.
    pub fn get_alloc(&self, inst: Inst, slot: usize) -> (r: Allocation)
        requires
            inst.0 < self.inst_alloc_offsets@.len(),
            spec_slot_index(self.inst_alloc_offsets@, inst, slot as int) < self.allocs@.len(),
        ensures
            r == self.spec_get_alloc(inst, slot as int),
    {
        let offset = self.inst_alloc_offsets[inst.index()] as usize;
        assert(self.allocs@.len() == self.allocs.len());
        self.allocs[offset + slot]
    }

    /// Writes the location into an operand slot of an instruction.
    pub fn set_alloc(&mut self, inst: Inst, slot: usize, alloc: Allocation)
        requires
            inst.0 < old(self).inst_alloc_offsets@.len(),
            spec_slot_index(old(self).inst_alloc_offsets@, inst, slot as int) < old(self).allocs@.len(),
        ensures
            final(self).allocs@ == old(self).allocs@.update(
                spec_slot_index(old(self).inst_alloc_offsets@, inst, slot as int),
                alloc,
            ),
            *final(self) == (Env { allocs: final(self).allocs, ..*old(self) }),
    {
        let offset = self.inst_alloc_offsets[inst.index()] as usize;
        assert(self.allocs@.len() == self.allocs.len());
        self.allocs.set(offset + slot, alloc);
    }

    /// The live range exists, and so does its bundle and, where the bundle
    /// has no location, the spill set and the spill slot behind it.
    pub open spec fn range_is_linked(&self, range: LiveRangeIndex) -> bool {
        &&& range.0 < self.ranges@.len()
        &&& self.ranges@[range.0 as int].bundle.0 < self.bundles@.len()
        &&& self.bundles@[self.ranges@[range.0 as int].bundle.0 as int].allocation == Allocation::Unassigned ==> {
            let bundle = self.bundles@[self.ranges@[range.0 as int].bundle.0 as int];
            &&& bundle.spillset.0 < self.spillsets@.len()
            &&& self.spillsets@[bundle.spillset.0 as int].slot.0 < self.spillslots@.len()
        }
    }

    /// The location of a live range.
    pub open spec fn spec_get_alloc_for_range(&self, range: LiveRangeIndex) -> Allocation {
        spec_range_alloc(self.ranges@, self.bundles@, self.spillsets@, self.spillslots@, range)
    }

    /// The location of a live range: that of its bundle, or, where the
    /// bundle has none, that of its spill slot.
    pub fn get_alloc_for_range(&self, range: LiveRangeIndex) -> (r: Allocation)
        requires
            self.range_is_linked(range),
        ensures
            r == self.spec_get_alloc_for_range(range),
    {
        let bundle = self.ranges[range.0].bundle;
        let bundledata = self.bundles[bundle.0];
        if !bundledata.allocation.is_none() {
            bundledata.allocation
        } else {
            self.spillslots[self.spillsets[bundledata.spillset.0].slot.0].alloc
        }
    }

    /// Whether the virtual register is live on entry to the block.
    pub open spec fn spec_is_live_in(&self, block: Block, vreg: VRegIndex) -> bool {
        block.0 < self.liveins@.len() && vreg.0 < self.liveins@[block.0 as int]@.len()
            && self.liveins@[block.0 as int]@[vreg.0 as int]
    }

    /// Whether the virtual register is live on entry to the block.
    pub fn is_live_in(&self, block: Block, vreg: VRegIndex) -> (r: bool)
        ensures
            r == self.spec_is_live_in(block, vreg),
    {
        block.0 < self.liveins.len() && vreg.0 < self.liveins[block.0].len()
            && self.liveins[block.0][vreg.0]
    }
}

} // verus!
