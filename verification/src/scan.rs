//! The scan over every live range of every virtual register: what it finds
//! in one range.

use vstd::prelude::*;
use crate::env::{BlockparamIn, BlockparamOut, ProgMove, SLOT_NONE, spec_slot_index, Use};
use crate::function::{CFGInfo, Function, MAX_KEY_FIELD};
use crate::halfmove::{
    half_move_key,
    half_move_ok,
    HalfMove,
    HalfMoveKind,
    lemma_key_round_trip,
    spec_half_move_key,
};
use crate::index::{Block, CodeRange, Inst, VRegIndex};
use crate::locations::{Allocation, VReg};

verus! {

/// `(a0, a1)` comes before `(b0, b1)`: by the first number, then by the
/// second.
pub open spec fn pair_lt(a0: int, a1: int, b0: int, b1: int) -> bool {
    a0 < b0 || (a0 == b0 && a1 < b1)
}

/// Whether the virtual register is live on entry to the block.
pub open spec fn spec_live_in(liveins: &Vec<Vec<bool>>, block: Block, vreg: VRegIndex) -> bool {
    block.0 < liveins@.len() && vreg.0 < liveins@[block.0 as int]@.len() && liveins@[block.0 as int]@[vreg.0 as int]
}

/// Whether the virtual register is live on entry to the block.
pub fn live_in(liveins: &Vec<Vec<bool>>, block: Block, vreg: VRegIndex) -> (r: bool)
    ensures
        r == spec_live_in(liveins, block, vreg),
{
    block.0 < liveins.len() && vreg.0 < liveins[block.0].len() && liveins[block.0][vreg.0]
}

/// Every half-move of the list is in order.
pub open spec fn half_moves_ok(hms: Seq<HalfMove>, num_blocks: int, vreg_regs: Seq<VReg>) -> bool {
    forall|i: int| 0 <= i < hms.len() ==> half_move_ok(#[trigger] hms[i], num_blocks, vreg_regs)
}

/// The half-moves after the successors `k`, `k + 1`, .. of `block` have
/// been looked at: a source for each successor that the range does not
/// reach into and on whose entry the register is live.
pub open spec fn out_succs(
    cfginfo: &CFGInfo,
    liveins: &Vec<Vec<bool>>,
    succs: Seq<Block>,
    k: int,
    block: Block,
    vreg: VRegIndex,
    range: CodeRange,
    alloc: Allocation,
    acc: Seq<HalfMove>,
) -> Seq<HalfMove>
    decreases succs.len() - k,
{
    if k < 0 || k >= succs.len() {
        acc
    } else if !range.spec_contains_point(cfginfo.block_entry@[succs[k].0 as int]) && spec_live_in(
        liveins,
        succs[k],
        vreg,
    ) {
        out_succs(
            cfginfo,
            liveins,
            succs,
            k + 1,
            block,
            vreg,
            range,
            alloc,
            acc.push(HalfMove { key: spec_half_move_key(block, succs[k], vreg, HalfMoveKind::Source), alloc }),
        )
    } else {
        out_succs(cfginfo, liveins, succs, k + 1, block, vreg, range, alloc, acc)
    }
}

/// The cursor into the outgoing block parameters, and the half-moves, after
/// the entries from `idx` on have been read up to the last one for `vreg`
/// and `block`: a source for each entry that is for them.
pub open spec fn out_params(
    outs: Seq<BlockparamOut>,
    idx: int,
    block: Block,
    vreg: VRegIndex,
    alloc: Allocation,
    acc: Seq<HalfMove>,
) -> (int, Seq<HalfMove>)
    decreases outs.len() - idx,
{
    if idx < 0 || idx >= outs.len() {
        (idx, acc)
    } else if pair_lt(vreg.0 as int, block.0 as int, outs[idx].from_vreg.0 as int, outs[idx].from_block.0 as int) {
        (idx, acc)
    } else if outs[idx].from_vreg == vreg && outs[idx].from_block == block {
        out_params(
            outs,
            idx + 1,
            block,
            vreg,
            alloc,
            acc.push(
                HalfMove {
                    key: spec_half_move_key(
                        outs[idx].from_block,
                        outs[idx].to_block,
                        outs[idx].to_vreg,
                        HalfMoveKind::Source,
                    ),
                    alloc,
                },
            ),
        )
    } else {
        out_params(outs, idx + 1, block, vreg, alloc, acc)
    }
}

/// The cursor and the half-moves after the blocks `block`, `block + 1`, ..
/// whose exit the range covers have been looked at.
pub open spec fn out_blocks(
    func: &Function,
    cfginfo: &CFGInfo,
    liveins: &Vec<Vec<bool>>,
    outs: Seq<BlockparamOut>,
    block: int,
    idx: int,
    vreg: VRegIndex,
    range: CodeRange,
    alloc: Allocation,
    acc: Seq<HalfMove>,
) -> (int, Seq<HalfMove>)
    decreases func.blocks@.len() - block,
{
    if block < 0 || block >= func.blocks@.len() || range.to.bits < cfginfo.block_exit@[block].bits + 1 {
        (idx, acc)
    } else {
        let with_succs = out_succs(
            cfginfo,
            liveins,
            func.blocks@[block].succs@,
            0,
            Block(block as usize),
            vreg,
            range,
            alloc,
            acc,
        );
        let (idx2, with_params) = out_params(outs, idx, Block(block as usize), vreg, alloc, with_succs);
        out_blocks(func, cfginfo, liveins, outs, block + 1, idx2, vreg, range, alloc, with_params)
    }
}

/// The outgoing block parameters name blocks and registers that exist, and
/// pass a value to a parameter of the same class.
pub open spec fn outs_ok(outs: Seq<BlockparamOut>, num_blocks: int, vreg_regs: Seq<VReg>) -> bool {
    forall|i: int|
        0 <= i < outs.len() ==> {
            let e = #[trigger] outs[i];
            &&& e.to_block.0 < num_blocks
            &&& e.to_vreg.0 < vreg_regs.len()
            &&& e.from_vreg.0 < vreg_regs.len()
            &&& vreg_regs[e.from_vreg.0 as int].class == vreg_regs[e.to_vreg.0 as int].class
        }
}

/// The incoming block parameters name blocks that exist.
pub open spec fn ins_ok(ins: Seq<BlockparamIn>, num_blocks: int) -> bool {
    forall|i: int| 0 <= i < ins.len() ==> (#[trigger] ins[i]).from_block.0 < num_blocks
}

/// The location is assigned and of the class of the virtual register.
pub open spec fn alloc_fits(alloc: Allocation, vreg: VRegIndex, vreg_regs: Seq<VReg>) -> bool {
    &&& vreg.0 < vreg_regs.len()
    &&& alloc != Allocation::Unassigned
    &&& alloc.spec_class() == vreg_regs[vreg.0 as int].class
}

/// Finds the sources of the transfers out of the blocks whose exit the
/// range covers.
pub(crate) fn scan_out_edges(
    func: &Function,
    cfginfo: &CFGInfo,
    liveins: &Vec<Vec<bool>>,
    outs: &Vec<BlockparamOut>,
    half_moves: &mut Vec<HalfMove>,
    idx: usize,
    vreg: VRegIndex,
    range: CodeRange,
    alloc: Allocation,
    Ghost(vreg_regs): Ghost<Seq<VReg>>,
) -> (new_idx: usize)
    requires
        func.wf(),
        cfginfo.wf(func, vreg_regs.len() as int),
        vreg_regs.len() <= MAX_KEY_FIELD,
        range.from.spec_inst().0 < func.insts@.len(),
        outs_ok(outs@, func.blocks@.len() as int, vreg_regs),
        alloc_fits(alloc, vreg, vreg_regs),
        idx <= outs@.len(),
        half_moves_ok(old(half_moves)@, func.blocks@.len() as int, vreg_regs),
    ensures
        (new_idx as int, final(half_moves)@) == out_blocks(
            func,
            cfginfo,
            liveins,
            outs@,
            cfginfo.insn_block@[range.from.spec_inst().0 as int].0 as int,
            idx as int,
            vreg,
            range,
            alloc,
            old(half_moves)@,
        ),
        new_idx <= outs@.len(),
        half_moves_ok(final(half_moves)@, func.blocks@.len() as int, vreg_regs),
{
    let num_blocks = func.num_blocks();
    let mut block: usize = cfginfo.insn_block[range.from.inst().index()].index();
    let mut idx = idx;
    let ghost goal = out_blocks(func, cfginfo, liveins, outs@, block as int, idx as int, vreg, range, alloc, half_moves@);
    while block < num_blocks
        invariant_except_break
            out_blocks(func, cfginfo, liveins, outs@, block as int, idx as int, vreg, range, alloc, half_moves@)
                == goal,
        invariant
            num_blocks == func.blocks@.len(),
            func.wf(),
            cfginfo.wf(func, vreg_regs.len() as int),
            vreg_regs.len() <= MAX_KEY_FIELD,
            outs_ok(outs@, func.blocks@.len() as int, vreg_regs),
            alloc_fits(alloc, vreg, vreg_regs),
            idx <= outs@.len(),
            half_moves_ok(half_moves@, func.blocks@.len() as int, vreg_regs),
        ensures
            (idx as int, half_moves@) == goal,
        decreases num_blocks - block,
    {
        let exit = cfginfo.block_exit[block];
        assert(cfginfo.block_exit@[block as int].spec_inst().0 < func.insts@.len());
        if range.to.bits < exit.bits + 1 {
            break ;
        }
        let succs = func.block_succs(Block(block));
        let ghost with_succs = out_succs(cfginfo, liveins, succs@, 0, Block(block), vreg, range, alloc, half_moves@);
        let mut k: usize = 0;
        while k < succs.len()
            invariant
                k <= succs@.len(),
                block < func.blocks@.len(),
                succs@ == func.blocks@[block as int].succs@,
                func.wf(),
                cfginfo.wf(func, vreg_regs.len() as int),
                vreg_regs.len() <= MAX_KEY_FIELD,
                alloc_fits(alloc, vreg, vreg_regs),
                half_moves_ok(half_moves@, func.blocks@.len() as int, vreg_regs),
                out_succs(cfginfo, liveins, succs@, k as int, Block(block), vreg, range, alloc, half_moves@)
                    == with_succs,
            decreases succs@.len() - k,
        {
            let succ = succs[k];
            assert(func.blocks@[block as int].succs@[k as int].0 < func.blocks@.len());
            if !range.contains_point(cfginfo.block_entry[succ.index()]) && live_in(liveins, succ, vreg) {
                let key = half_move_key(Block(block), succ, vreg, HalfMoveKind::Source);
                proof {
                    lemma_key_round_trip(Block(block), succ, vreg, HalfMoveKind::Source, alloc);
                }
                half_moves.push(HalfMove { key, alloc });
            }
            k += 1;
        }
        let ghost goal2 = out_params(outs@, idx as int, Block(block), vreg, alloc, half_moves@);
        while idx < outs.len()
            invariant_except_break
                out_params(outs@, idx as int, Block(block), vreg, alloc, half_moves@) == goal2,
            invariant
                idx <= outs@.len(),
                block < func.blocks@.len(),
                func.wf(),
                vreg_regs.len() <= MAX_KEY_FIELD,
                outs_ok(outs@, func.blocks@.len() as int, vreg_regs),
                alloc_fits(alloc, vreg, vreg_regs),
                half_moves_ok(half_moves@, func.blocks@.len() as int, vreg_regs),
            ensures
                (idx as int, half_moves@) == goal2,
            decreases outs@.len() - idx,
        {
            let e = outs[idx];
            if vreg.0 < e.from_vreg.0 || (vreg.0 == e.from_vreg.0 && block < e.from_block.0) {
                break ;
            }
            if e.from_vreg == vreg && e.from_block.0 == block {
                assert(outs@[idx as int].to_block.0 < func.blocks@.len());
                let key = half_move_key(e.from_block, e.to_block, e.to_vreg, HalfMoveKind::Source);
                proof {
                    lemma_key_round_trip(e.from_block, e.to_block, e.to_vreg, HalfMoveKind::Source, alloc);
                }
                half_moves.push(HalfMove { key, alloc });
            }
            idx += 1;
        }
        block += 1;
    }
    idx
}

/// The cursor into the incoming block parameters, and the half-moves,
/// after the entries from `idx` on have been read up to the last one for
/// `vreg` and `block`: a destination for each entry that is for them.
pub open spec fn in_params(
    ins: Seq<BlockparamIn>,
    idx: int,
    block: Block,
    vreg: VRegIndex,
    alloc: Allocation,
    acc: Seq<HalfMove>,
) -> (int, Seq<HalfMove>)
    decreases ins.len() - idx,
{
    if idx < 0 || idx >= ins.len() {
        (idx, acc)
    } else if pair_lt(vreg.0 as int, block.0 as int, ins[idx].to_vreg.0 as int, ins[idx].to_block.0 as int) {
        (idx, acc)
    } else if ins[idx].to_vreg == vreg && ins[idx].to_block == block {
        in_params(
            ins,
            idx + 1,
            block,
            vreg,
            alloc,
            acc.push(
                HalfMove {
                    key: spec_half_move_key(
                        ins[idx].from_block,
                        ins[idx].to_block,
                        ins[idx].to_vreg,
                        HalfMoveKind::Dest,
                    ),
                    alloc,
                },
            ),
        )
    } else {
        in_params(ins, idx + 1, block, vreg, alloc, acc)
    }
}

/// The half-moves after the predecessors `k`, `k + 1`, .. of `block` have
/// been looked at: a destination for each predecessor whose exit the range
/// does not cover.
pub open spec fn in_preds(
    cfginfo: &CFGInfo,
    preds: Seq<Block>,
    k: int,
    block: Block,
    vreg: VRegIndex,
    range: CodeRange,
    alloc: Allocation,
    acc: Seq<HalfMove>,
) -> Seq<HalfMove>
    decreases preds.len() - k,
{
    if k < 0 || k >= preds.len() {
        acc
    } else if !range.spec_contains_point(cfginfo.block_exit@[preds[k].0 as int]) {
        in_preds(
            cfginfo,
            preds,
            k + 1,
            block,
            vreg,
            range,
            alloc,
            acc.push(HalfMove { key: spec_half_move_key(preds[k], block, vreg, HalfMoveKind::Dest), alloc }),
        )
    } else {
        in_preds(cfginfo, preds, k + 1, block, vreg, range, alloc, acc)
    }
}

/// The cursor and the half-moves after the blocks `block`, `block + 1`, ..
/// whose entry the range covers have been looked at: the incoming block
/// parameters first, then, if the register is live on entry, the
/// predecessors.
pub open spec fn in_blocks(
    func: &Function,
    cfginfo: &CFGInfo,
    liveins: &Vec<Vec<bool>>,
    ins: Seq<BlockparamIn>,
    block: int,
    idx: int,
    vreg: VRegIndex,
    range: CodeRange,
    alloc: Allocation,
    acc: Seq<HalfMove>,
) -> (int, Seq<HalfMove>)
    decreases func.blocks@.len() - block,
{
    if block < 0 || block >= func.blocks@.len() || cfginfo.block_entry@[block].bits >= range.to.bits {
        (idx, acc)
    } else {
        let (idx2, with_params) = in_params(ins, idx, Block(block as usize), vreg, alloc, acc);
        let with_preds = if spec_live_in(liveins, Block(block as usize), vreg) {
            in_preds(
                cfginfo,
                func.blocks@[block].preds@,
                0,
                Block(block as usize),
                vreg,
                range,
                alloc,
                with_params,
            )
        } else {
            with_params
        };
        in_blocks(func, cfginfo, liveins, ins, block + 1, idx2, vreg, range, alloc, with_preds)
    }
}

/// The first block whose entry lies at or behind the start of the range.
pub open spec fn first_entry_block(cfginfo: &CFGInfo, range: CodeRange) -> int {
    let block = cfginfo.insn_block@[range.from.spec_inst().0 as int].0 as int;
    if cfginfo.block_entry@[block].bits < range.from.bits {
        block + 1
    } else {
        block
    }
}

/// Finds the destinations of the transfers into the blocks whose entry the
/// range covers.
pub(crate) fn scan_in_edges(
    func: &Function,
    cfginfo: &CFGInfo,
    liveins: &Vec<Vec<bool>>,
    ins: &Vec<BlockparamIn>,
    half_moves: &mut Vec<HalfMove>,
    idx: usize,
    vreg: VRegIndex,
    range: CodeRange,
    alloc: Allocation,
    Ghost(vreg_regs): Ghost<Seq<VReg>>,
) -> (new_idx: usize)
    requires
        func.wf(),
        cfginfo.wf(func, vreg_regs.len() as int),
        vreg_regs.len() <= MAX_KEY_FIELD,
        range.from.spec_inst().0 < func.insts@.len(),
        ins_ok(ins@, func.blocks@.len() as int),
        alloc_fits(alloc, vreg, vreg_regs),
        idx <= ins@.len(),
        half_moves_ok(old(half_moves)@, func.blocks@.len() as int, vreg_regs),
    ensures
        (new_idx as int, final(half_moves)@) == in_blocks(
            func,
            cfginfo,
            liveins,
            ins@,
            first_entry_block(cfginfo, range),
            idx as int,
            vreg,
            range,
            alloc,
            old(half_moves)@,
        ),
        new_idx <= ins@.len(),
        half_moves_ok(final(half_moves)@, func.blocks@.len() as int, vreg_regs),
{
    let num_blocks = func.num_blocks();
    let mut block: usize = cfginfo.insn_block[range.from.inst().index()].index();
    if cfginfo.block_entry[block].bits < range.from.bits {
        block = block + 1;
    }
    let mut idx = idx;
    let ghost goal = in_blocks(func, cfginfo, liveins, ins@, block as int, idx as int, vreg, range, alloc, half_moves@);
    while block < num_blocks
        invariant_except_break
            in_blocks(func, cfginfo, liveins, ins@, block as int, idx as int, vreg, range, alloc, half_moves@)
                == goal,
        invariant
            num_blocks == func.blocks@.len(),
            func.wf(),
            cfginfo.wf(func, vreg_regs.len() as int),
            vreg_regs.len() <= MAX_KEY_FIELD,
            ins_ok(ins@, func.blocks@.len() as int),
            alloc_fits(alloc, vreg, vreg_regs),
            idx <= ins@.len(),
            half_moves_ok(half_moves@, func.blocks@.len() as int, vreg_regs),
        ensures
            (idx as int, half_moves@) == goal,
        decreases num_blocks - block,
    {
        if cfginfo.block_entry[block].bits >= range.to.bits {
            break ;
        }
        let ghost goal2 = in_params(ins@, idx as int, Block(block), vreg, alloc, half_moves@);
        while idx < ins.len()
            invariant_except_break
                in_params(ins@, idx as int, Block(block), vreg, alloc, half_moves@) == goal2,
            invariant
                idx <= ins@.len(),
                block < func.blocks@.len(),
                func.wf(),
                vreg_regs.len() <= MAX_KEY_FIELD,
                ins_ok(ins@, func.blocks@.len() as int),
                alloc_fits(alloc, vreg, vreg_regs),
                half_moves_ok(half_moves@, func.blocks@.len() as int, vreg_regs),
            ensures
                (idx as int, half_moves@) == goal2,
            decreases ins@.len() - idx,
        {
            let e = ins[idx];
            if vreg.0 < e.to_vreg.0 || (vreg.0 == e.to_vreg.0 && block < e.to_block.0) {
                break ;
            }
            if e.to_vreg == vreg && e.to_block.0 == block {
                assert(ins@[idx as int].from_block.0 < func.blocks@.len());
                let key = half_move_key(e.from_block, e.to_block, e.to_vreg, HalfMoveKind::Dest);
                proof {
                    lemma_key_round_trip(e.from_block, e.to_block, e.to_vreg, HalfMoveKind::Dest, alloc);
                }
                half_moves.push(HalfMove { key, alloc });
            }
            idx += 1;
        }
        if live_in(liveins, Block(block), vreg) {
            let preds = func.block_preds(Block(block));
            let ghost with_preds = in_preds(cfginfo, preds@, 0, Block(block), vreg, range, alloc, half_moves@);
            let mut k: usize = 0;
            while k < preds.len()
                invariant
                    k <= preds@.len(),
                    block < func.blocks@.len(),
                    preds@ == func.blocks@[block as int].preds@,
                    func.wf(),
                    cfginfo.wf(func, vreg_regs.len() as int),
                    vreg_regs.len() <= MAX_KEY_FIELD,
                    alloc_fits(alloc, vreg, vreg_regs),
                    half_moves_ok(half_moves@, func.blocks@.len() as int, vreg_regs),
                    in_preds(cfginfo, preds@, k as int, Block(block), vreg, range, alloc, half_moves@)
                        == with_preds,
                decreases preds@.len() - k,
            {
                let pred = preds[k];
                assert(func.blocks@[block as int].preds@[k as int].0 < func.blocks@.len());
                if !range.contains_point(cfginfo.block_exit[pred.index()]) {
                    let key = half_move_key(pred, Block(block), vreg, HalfMoveKind::Dest);
                    proof {
                        lemma_key_round_trip(pred, Block(block), vreg, HalfMoveKind::Dest, alloc);
                    }
                    half_moves.push(HalfMove { key, alloc });
                }
                k += 1;
            }
        }
        block += 1;
    }
    idx
}

/// The operand slots, and the instructions with a reused input, after the
/// uses `u`, `u + 1`, .. of a live range have received its location: each
/// use that has a slot gets the location written into it, and each use
/// whose operand reuses an input has its instruction noted.
pub open spec fn after_uses(
    uses: Seq<Use>,
    offsets: Seq<u32>,
    alloc: Allocation,
    u: int,
    allocs: Seq<Allocation>,
    reuse: Seq<Inst>,
) -> (Seq<Allocation>, Seq<Inst>)
    decreases uses.len() - u,
{
    if u < 0 || u >= uses.len() {
        (allocs, reuse)
    } else {
        let usedata = uses[u];
        let inst = usedata.pos.spec_inst();
        let written = if usedata.slot != SLOT_NONE {
            allocs.update(spec_slot_index(offsets, inst, usedata.slot as int), alloc)
        } else {
            allocs
        };
        let noted = if usedata.operand.spec_is_reuse() {
            reuse.push(inst)
        } else {
            reuse
        };
        after_uses(uses, offsets, alloc, u + 1, written, noted)
    }
}

/// Every use names an instruction that exists and, unless it has no slot,
/// an operand slot within `len` slots.
pub open spec fn uses_ok(uses: Seq<Use>, offsets: Seq<u32>, len: int) -> bool {
    forall|u: int|
        0 <= u < uses.len() ==> {
            &&& (#[trigger] uses[u]).pos.spec_inst().0 < offsets.len()
            &&& uses[u].slot != SLOT_NONE ==> spec_slot_index(offsets, uses[u].pos.spec_inst(), uses[u].slot as int)
                < len
        }
}

/// Every noted instruction exists.
pub open spec fn insts_ok(insts: Seq<Inst>, num_insts: int) -> bool {
    forall|i: int| 0 <= i < insts.len() ==> (#[trigger] insts[i]).0 < num_insts
}

/// Writes the location of a live range into the operand slots of its uses.
pub fn apply_uses(
    uses: &Vec<Use>,
    offsets: &Vec<u32>,
    allocs: &mut Vec<Allocation>,
    reuse: &mut Vec<Inst>,
    alloc: Allocation,
)
    requires
        uses_ok(uses@, offsets@, old(allocs)@.len() as int),
        insts_ok(old(reuse)@, offsets@.len() as int),
    ensures
        (final(allocs)@, final(reuse)@) == after_uses(uses@, offsets@, alloc, 0, old(allocs)@, old(reuse)@),
        final(allocs)@.len() == old(allocs)@.len(),
        insts_ok(final(reuse)@, offsets@.len() as int),
{
    let ghost goal = after_uses(uses@, offsets@, alloc, 0, allocs@, reuse@);
    let mut u: usize = 0;
    while u < uses.len()
        invariant
            u <= uses@.len(),
            allocs@.len() == old(allocs)@.len(),
            uses_ok(uses@, offsets@, allocs@.len() as int),
            insts_ok(reuse@, offsets@.len() as int),
            after_uses(uses@, offsets@, alloc, u as int, allocs@, reuse@) == goal,
        decreases uses@.len() - u,
    {
        let usedata = uses[u];
        let inst = usedata.pos.inst();
        assert(uses@[u as int].pos.spec_inst().0 < offsets@.len());
        if usedata.slot != SLOT_NONE {
            let offset = offsets[inst.index()] as usize;
            assert(allocs@.len() == allocs.len());
            allocs.set(offset + usedata.slot as usize, alloc);
        }
        if usedata.operand.is_reuse() {
            reuse.push(inst);
        }
        u += 1;
    }
}

/// The first position at or behind `idx` whose move is not before
/// `(vreg, inst)`.
pub open spec fn skip_prog_moves(moves: Seq<ProgMove>, idx: int, vreg: VRegIndex, inst: int) -> int
    decreases moves.len() - idx,
{
    if 0 <= idx < moves.len() && pair_lt(moves[idx].vreg.0 as int, moves[idx].inst.0 as int, vreg.0 as int, inst) {
        skip_prog_moves(moves, idx + 1, vreg, inst)
    } else {
        idx
    }
}

/// The cursor and the moves after every move from `idx` on that is before
/// `(vreg, end)` has received the location.
pub open spec fn bind_prog_moves(
    moves: Seq<ProgMove>,
    idx: int,
    vreg: VRegIndex,
    end: int,
    alloc: Allocation,
) -> (int, Seq<ProgMove>)
    decreases moves.len() - idx,
{
    if 0 <= idx < moves.len() && pair_lt(moves[idx].vreg.0 as int, moves[idx].inst.0 as int, vreg.0 as int, end) {
        bind_prog_moves(
            moves.update(idx, ProgMove { vreg: moves[idx].vreg, inst: moves[idx].inst, alloc }),
            idx + 1,
            vreg,
            end,
            alloc,
        )
    } else {
        (idx, moves)
    }
}

/// The cursor and the moves after the ends of program moves of `vreg` at
/// the instructions `start` to `end - 1` have received the location. The
/// cursor only moves forward: ends before `(vreg, start)` are passed over.
pub open spec fn after_binding(
    moves: Seq<ProgMove>,
    idx: int,
    vreg: VRegIndex,
    start: int,
    end: int,
    alloc: Allocation,
) -> (int, Seq<ProgMove>) {
    bind_prog_moves(moves, skip_prog_moves(moves, idx, vreg, start), vreg, end, alloc)
}

/// Gives the location to the ends of program moves that the range covers.
pub fn bind_moves(
    moves: &mut Vec<ProgMove>,
    idx: usize,
    vreg: VRegIndex,
    start: usize,
    end: usize,
    alloc: Allocation,
) -> (new_idx: usize)
    requires
        idx <= old(moves)@.len(),
    ensures
        (new_idx as int, final(moves)@) == after_binding(old(moves)@, idx as int, vreg, start as int, end as int, alloc),
        new_idx <= final(moves)@.len(),
        final(moves)@.len() == old(moves)@.len(),
        forall|i: int|
            0 <= i < final(moves)@.len() ==> (#[trigger] final(moves)@[i]).vreg == old(moves)@[i].vreg
                && final(moves)@[i].inst == old(moves)@[i].inst,
{
    let mut idx = idx;
    let ghost begin = idx as int;
    while idx < moves.len() && (moves[idx].vreg.0 < vreg.0 || (moves[idx].vreg.0 == vreg.0 && moves[idx].inst.0
        < start))
        invariant
            idx <= moves@.len(),
            moves@ == old(moves)@,
            skip_prog_moves(moves@, idx as int, vreg, start as int) == skip_prog_moves(
                moves@,
                begin,
                vreg,
                start as int,
            ),
        decreases moves@.len() - idx,
    {
        idx += 1;
    }
    let ghost goal = bind_prog_moves(moves@, idx as int, vreg, end as int, alloc);
    while idx < moves.len() && (moves[idx].vreg.0 < vreg.0 || (moves[idx].vreg.0 == vreg.0 && moves[idx].inst.0
        < end))
        invariant
            idx <= moves@.len(),
            moves@.len() == old(moves)@.len(),
            forall|i: int|
                0 <= i < moves@.len() ==> (#[trigger] moves@[i]).vreg == old(moves)@[i].vreg && moves@[i].inst
                    == old(moves)@[i].inst,
            bind_prog_moves(moves@, idx as int, vreg, end as int, alloc) == goal,
        decreases moves@.len() - idx,
    {
        let m = moves[idx];
        moves.set(idx, ProgMove { vreg: m.vreg, inst: m.inst, alloc });
        idx += 1;
    }
    idx
}

} // verus!
