//! Writing the final locations and finding every move that is needed.

use vstd::prelude::*;
use crate::discover::{range_keys, refreshed, ScanState, sorted_entries};
use crate::edits::{InsertedMove, InsertMovePrio};
use crate::emit::{
    blockparams_ok,
    edits_in_bounds,
    lemma_resolvable_push,
    lemma_sorted_keeps,
    move_is_resolvable,
    moves_resolvable,
    spare_slots_ok,
};
use crate::env::{
    BlockparamAlloc,
    Env,
    LiveRangeListEntry,
    move_classes_agree,
    move_fits,
    MultiFixedRegFixup,
    PRegData,
    ProgMove,
    spec_slot_index,
    VRegData,
};
use crate::function::InstData;
use crate::halfmove::{edge_moves, half_move_ok, HalfMove, MoveError};
use crate::index::{Inst, MAX_INSTS, MAX_POINT, ProgPoint, VRegIndex};
use crate::locations::{Allocation, VReg};
use crate::operand::{Operand, OperandConstraint};
use crate::scan::insts_ok;
use crate::sorting::{sort_by_keys, stable_sorted};

verus! {

/// The keys by which half-moves are put in order.
pub open spec fn half_move_keys(hms: Seq<HalfMove>) -> Seq<u64> {
    Seq::new(hms.len(), |i: int| hms[i].key)
}

/// The half-moves in key order, half-moves with one key in the order in
/// which they were found.
pub open spec fn half_moves_in_order(hms: Seq<HalfMove>) -> Seq<HalfMove> {
    stable_sorted(hms, half_move_keys(hms))
}

/// The keys by which the ends of program moves are put in order: their
/// instruction.
pub open spec fn prog_move_keys(moves: Seq<ProgMove>) -> Seq<u64> {
    Seq::new(moves.len(), |i: int| moves[i].inst.0 as u64)
}

/// The ends of program moves by instruction.
pub open spec fn prog_moves_in_order(moves: Seq<ProgMove>) -> Seq<ProgMove> {
    stable_sorted(moves, prog_move_keys(moves))
}

/// Every fix-up names registers, an instruction and an operand slot that
/// exist, and copies within one class.
pub open spec fn fixups_ok(
    fixups: Seq<MultiFixedRegFixup>,
    pregs: Seq<PRegData>,
    offsets: Seq<u32>,
    num_slots: int,
) -> bool {
    forall|k: int|
        0 <= k < fixups.len() ==> {
            let f = #[trigger] fixups[k];
            &&& f.from_preg.0 < pregs.len()
            &&& f.to_preg.0 < pregs.len()
            &&& pregs[f.from_preg.0 as int].reg.class == pregs[f.to_preg.0 as int].reg.class
            &&& f.pos.spec_inst().0 < offsets.len()
            &&& spec_slot_index(offsets, f.pos.spec_inst(), f.slot as int) < num_slots
        }
}

/// The pending moves and the operand slots after the fix-ups `k`,
/// `k + 1`, .. are applied: each adds a copy from its first register to its
/// second, and writes the second register into its operand slot.
pub open spec fn after_fixups(
    fixups: Seq<MultiFixedRegFixup>,
    pregs: Seq<PRegData>,
    offsets: Seq<u32>,
    k: int,
    moves: Seq<InsertedMove>,
    allocs: Seq<Allocation>,
) -> (Seq<InsertedMove>, Seq<Allocation>)
    decreases fixups.len() - k,
{
    if k < 0 || k >= fixups.len() {
        (moves, allocs)
    } else {
        let f = fixups[k];
        let from = Allocation::Reg(pregs[f.from_preg.0 as int].reg);
        let to = Allocation::Reg(pregs[f.to_preg.0 as int].reg);
        after_fixups(
            fixups,
            pregs,
            offsets,
            k + 1,
            moves.push(
                InsertedMove {
                    pos: f.pos,
                    prio: InsertMovePrio::MultiFixedReg,
                    from_alloc: from,
                    to_alloc: to,
                    to_vreg: None,
                },
            ),
            allocs.update(spec_slot_index(offsets, f.pos.spec_inst(), f.slot as int), to),
        )
    }
}

/// The pending moves and the operand slots after the operands `k`,
/// `k + 1`, .. of an instruction are looked at: for each output that reuses
/// an input whose location differs from its own, a copy from the input's
/// location to the output's before the instruction, and the output's
/// location in the input's slot.
pub open spec fn after_reuse_operands(
    operands: Seq<Operand>,
    inst: Inst,
    offsets: Seq<u32>,
    k: int,
    moves: Seq<InsertedMove>,
    allocs: Seq<Allocation>,
) -> (Seq<InsertedMove>, Seq<Allocation>)
    decreases operands.len() - k,
{
    if k < 0 || k >= operands.len() {
        (moves, allocs)
    } else {
        match operands[k].spec_reused_input() {
            Some(input) => {
                let input_alloc = allocs[spec_slot_index(offsets, inst, input as int)];
                let output_alloc = allocs[spec_slot_index(offsets, inst, k)];
                if input_alloc != output_alloc {
                    after_reuse_operands(
                        operands,
                        inst,
                        offsets,
                        k + 1,
                        moves.push(
                            InsertedMove {
                                pos: ProgPoint::spec_before(inst),
                                prio: InsertMovePrio::ReusedInput,
                                from_alloc: input_alloc,
                                to_alloc: output_alloc,
                                to_vreg: Some(operands[input as int].vreg),
                            },
                        ),
                        allocs.update(spec_slot_index(offsets, inst, input as int), output_alloc),
                    )
                } else {
                    after_reuse_operands(operands, inst, offsets, k + 1, moves, allocs)
                }
            },
            None => after_reuse_operands(operands, inst, offsets, k + 1, moves, allocs),
        }
    }
}

/// A copy for a reused input is in order: between two registers it stays
/// within one class; with `strict`, both ends have a location and both of
/// one class, whatever they are.
pub open spec fn reuse_copy_ok(from: Allocation, to: Allocation, strict: bool) -> bool {
    if strict {
        move_fits(from, to)
    } else {
        move_classes_agree(from, to)
    }
}

/// Every copy that `after_reuse_operands` adds is in order.
pub open spec fn reuse_operands_agree(
    operands: Seq<Operand>,
    inst: Inst,
    offsets: Seq<u32>,
    k: int,
    allocs: Seq<Allocation>,
    strict: bool,
) -> bool
    decreases operands.len() - k,
{
    if k < 0 || k >= operands.len() {
        true
    } else {
        match operands[k].spec_reused_input() {
            Some(input) => {
                let input_alloc = allocs[spec_slot_index(offsets, inst, input as int)];
                let output_alloc = allocs[spec_slot_index(offsets, inst, k)];
                if input_alloc != output_alloc {
                    reuse_copy_ok(input_alloc, output_alloc, strict) && reuse_operands_agree(
                        operands,
                        inst,
                        offsets,
                        k + 1,
                        allocs.update(spec_slot_index(offsets, inst, input as int), output_alloc),
                        strict,
                    )
                } else {
                    reuse_operands_agree(operands, inst, offsets, k + 1, allocs, strict)
                }
            },
            None => reuse_operands_agree(operands, inst, offsets, k + 1, allocs, strict),
        }
    }
}

/// The pending moves and the operand slots after the noted instructions
/// `n`, `n + 1`, .. have had their reused inputs handled.
pub open spec fn after_reuse(
    insts: Seq<InstData>,
    offsets: Seq<u32>,
    noted: Seq<Inst>,
    n: int,
    moves: Seq<InsertedMove>,
    allocs: Seq<Allocation>,
) -> (Seq<InsertedMove>, Seq<Allocation>)
    decreases noted.len() - n,
{
    if n < 0 || n >= noted.len() {
        (moves, allocs)
    } else {
        let (moves2, allocs2) = after_reuse_operands(
            insts[noted[n].0 as int].operands@,
            noted[n],
            offsets,
            0,
            moves,
            allocs,
        );
        after_reuse(insts, offsets, noted, n + 1, moves2, allocs2)
    }
}

/// Every copy that `after_reuse` adds is in order.
pub open spec fn reuse_agrees(
    insts: Seq<InstData>,
    offsets: Seq<u32>,
    noted: Seq<Inst>,
    n: int,
    allocs: Seq<Allocation>,
    strict: bool,
) -> bool
    decreases noted.len() - n,
{
    if n < 0 || n >= noted.len() {
        true
    } else {
        reuse_operands_agree(insts[noted[n].0 as int].operands@, noted[n], offsets, 0, allocs, strict)
            && reuse_agrees(
            insts,
            offsets,
            noted,
            n + 1,
            after_reuse_operands(
                insts[noted[n].0 as int].operands@,
                noted[n],
                offsets,
                0,
                Seq::empty(),
                allocs,
            ).1,
            strict,
        )
    }
}

/// Each destination names an instruction that exists, and is of the class
/// of its source.
pub open spec fn prog_moves_fit(srcs: Seq<ProgMove>, dsts: Seq<ProgMove>, num_insts: int) -> bool {
    forall|i: int|
        0 <= i < srcs.len() && i < dsts.len() ==> (#[trigger] dsts[i]).inst.0 < num_insts && move_fits(
            srcs[i].alloc,
            dsts[i].alloc,
        )
}

/// The two lists of ends of program moves fit together: as many sources as
/// destinations, each source one instruction before its destination, both
/// with a location, of one class if both are registers, and each
/// destination naming a virtual register that exists.
pub open spec fn prog_moves_pair_up(srcs: Seq<ProgMove>, dsts: Seq<ProgMove>, num_vregs: int) -> bool {
    &&& srcs.len() == dsts.len()
    &&& forall|i: int|
        0 <= i < srcs.len() ==> {
            &&& (#[trigger] srcs[i]).alloc != Allocation::Unassigned
            &&& dsts[i].alloc != Allocation::Unassigned
            &&& srcs[i].inst.0 + 1 == dsts[i].inst.0
            &&& dsts[i].inst.0 <= MAX_INSTS
            &&& dsts[i].vreg.0 < num_vregs
            &&& move_classes_agree(srcs[i].alloc, dsts[i].alloc)
        }
}

/// The moves that stand for the program moves: one per pair, before the
/// destination's instruction, with the priority of the moves between live
/// ranges.
pub open spec fn prog_move_moves(srcs: Seq<ProgMove>, dsts: Seq<ProgMove>, vreg_regs: Seq<VReg>) -> Seq<InsertedMove> {
    Seq::new(
        srcs.len(),
        |i: int|
            InsertedMove {
                pos: ProgPoint::spec_before(dsts[i].inst),
                prio: InsertMovePrio::Regular,
                from_alloc: srcs[i].alloc,
                to_alloc: dsts[i].alloc,
                to_vreg: Some(vreg_regs[dsts[i].vreg.0 as int]),
            },
    )
}

impl Env {
    /// Brings the list of live ranges of each virtual register up to date
    /// and puts it in order.
    pub fn sort_range_lists(&mut self)
        requires
            old(self).wf_ranges(),
        ensures
            *final(self) == (Env { vregs: final(self).vregs, ..*old(self) }),
            final(self).vregs@.len() == old(self).vregs@.len(),
            forall|v: int|
                0 <= v < final(self).vregs@.len() ==> (#[trigger] final(self).vregs@[v]).is_pinned == old(
                    self,
                ).vregs@[v].is_pinned && final(self).vregs@[v].ranges@ == sorted_entries(
                    old(self).vregs@[v].ranges@,
                    old(self).ranges@,
                ),
    {
        let mut sorted_vregs: Vec<VRegData> = Vec::new();
        let mut v: usize = 0;
        while v < self.vregs.len()
            invariant
                v <= self.vregs@.len(),
                *self == *old(self),
                self.wf_ranges(),
                sorted_vregs@.len() == v,
                forall|w: int|
                    0 <= w < v ==> (#[trigger] sorted_vregs@[w]).is_pinned == self.vregs@[w].is_pinned
                        && sorted_vregs@[w].ranges@ == sorted_entries(self.vregs@[w].ranges@, self.ranges@),
            decreases self.vregs@.len() - v,
        {
            let mut entries: Vec<LiveRangeListEntry> = Vec::new();
            let mut keys: Vec<u64> = Vec::new();
            let n = self.vregs[v].ranges.len();
            let ghost given = self.vregs@[v as int].ranges@;
            let mut i: usize = 0;
            while i < n
                invariant
                    i <= n,
                    v < self.vregs@.len(),
                    given == self.vregs@[v as int].ranges@,
                    n == given.len(),
                    self.wf_ranges(),
                    entries@.len() == i,
                    keys@.len() == i,
                    forall|k: int| 0 <= k < i ==> entries@[k] == refreshed(given, self.ranges@)[k],
                    forall|k: int| 0 <= k < i ==> keys@[k] == range_keys(refreshed(given, self.ranges@))[k],
                decreases n - i,
            {
                let entry = self.vregs[v].ranges[i];
                assert(self.vregs@[v as int].ranges@[i as int].index.0 < self.ranges@.len());
                let range = self.ranges[entry.index.0].range;
                assert(self.ranges@[entry.index.0 as int].range.from.bits <= MAX_POINT);
                entries.push(LiveRangeListEntry { range, index: entry.index });
                keys.push(range.from.to_index() as u64);
                i += 1;
            }
            assert(entries@ =~= refreshed(given, self.ranges@));
            assert(keys@ =~= range_keys(refreshed(given, self.ranges@)));
            let sorted = sort_by_keys(&entries, &keys);
            sorted_vregs.push(VRegData { ranges: sorted, is_pinned: self.vregs[v].is_pinned });
            v += 1;
        }
        self.vregs = sorted_vregs;
    }

    /// Applies the fix-ups for values with several fixed-register
    /// constraints, and forgets them.
    pub fn apply_fixups(&mut self)
        requires
            fixups_ok(
                old(self).multi_fixed_reg_fixups@,
                old(self).pregs@,
                old(self).inst_alloc_offsets@,
                old(self).allocs@.len() as int,
            ),
        ensures
            *final(self) == (Env {
                inserted_moves: final(self).inserted_moves,
                allocs: final(self).allocs,
                multi_fixed_reg_fixups: final(self).multi_fixed_reg_fixups,
                ..*old(self)
            }),
            final(self).multi_fixed_reg_fixups@.len() == 0,
            final(self).allocs@.len() == old(self).allocs@.len(),
            (final(self).inserted_moves@, final(self).allocs@) == after_fixups(
                old(self).multi_fixed_reg_fixups@,
                old(self).pregs@,
                old(self).inst_alloc_offsets@,
                0,
                old(self).inserted_moves@,
                old(self).allocs@,
            ),
            old(self).inst_alloc_offsets@.len() == old(self).func.insts@.len() && moves_resolvable(
                old(self).inserted_moves@,
                old(self).func.insts@.len() as int,
            ) ==> moves_resolvable(final(self).inserted_moves@, old(self).func.insts@.len() as int),
    {
        let ghost fixups = self.multi_fixed_reg_fixups@;
        let ghost goal = after_fixups(
            fixups,
            self.pregs@,
            self.inst_alloc_offsets@,
            0,
            self.inserted_moves@,
            self.allocs@,
        );
        let n = self.multi_fixed_reg_fixups.len();
        let mut k: usize = 0;
        while k < n
            invariant
                k <= n,
                n == fixups.len(),
                fixups == self.multi_fixed_reg_fixups@,
                *self == (Env { inserted_moves: self.inserted_moves, allocs: self.allocs, ..*old(self) }),
                self.allocs@.len() == old(self).allocs@.len(),
                fixups_ok(fixups, self.pregs@, self.inst_alloc_offsets@, self.allocs@.len() as int),
                after_fixups(fixups, self.pregs@, self.inst_alloc_offsets@, k as int, self.inserted_moves@, self.allocs@)
                    == goal,
                old(self).inst_alloc_offsets@.len() == old(self).func.insts@.len() && moves_resolvable(
                    old(self).inserted_moves@,
                    old(self).func.insts@.len() as int,
                ) ==> moves_resolvable(self.inserted_moves@, old(self).func.insts@.len() as int),
            decreases n - k,
        {
            let f = self.multi_fixed_reg_fixups[k];
            let from = Allocation::reg(self.pregs[f.from_preg.0].reg);
            let to = Allocation::reg(self.pregs[f.to_preg.0].reg);
            proof {
                let num_insts = self.func.insts@.len() as int;
                if self.inst_alloc_offsets@.len() == num_insts && moves_resolvable(self.inserted_moves@, num_insts) {
                    let m = InsertedMove {
                        pos: f.pos,
                        prio: InsertMovePrio::MultiFixedReg,
                        from_alloc: from,
                        to_alloc: to,
                        to_vreg: None,
                    };
                    lemma_resolvable_push(self.inserted_moves@, m, num_insts);
                }
            }
            self.insert_move(f.pos, InsertMovePrio::MultiFixedReg, from, to, None);
            self.set_alloc(f.pos.inst(), f.slot, to);
            k += 1;
        }
        self.multi_fixed_reg_fixups = Vec::new();
    }

    /// Handles the outputs that reuse an input, for the noted instructions.
    pub fn apply_reuse(&mut self, noted: &Vec<Inst>)
        requires
            old(self).func.wf(),
            old(self).wf_slots(),
            insts_ok(noted@, old(self).func.insts@.len() as int),
            reuse_agrees(old(self).func.insts@, old(self).inst_alloc_offsets@, noted@, 0, old(self).allocs@, false),
        ensures
            *final(self) == (Env {
                inserted_moves: final(self).inserted_moves,
                allocs: final(self).allocs,
                ..*old(self)
            }),
            final(self).allocs@.len() == old(self).allocs@.len(),
            (final(self).inserted_moves@, final(self).allocs@) == after_reuse(
                old(self).func.insts@,
                old(self).inst_alloc_offsets@,
                noted@,
                0,
                old(self).inserted_moves@,
                old(self).allocs@,
            ),
            reuse_agrees(old(self).func.insts@, old(self).inst_alloc_offsets@, noted@, 0, old(self).allocs@, true)
                && moves_resolvable(old(self).inserted_moves@, old(self).func.insts@.len() as int)
                ==> moves_resolvable(final(self).inserted_moves@, old(self).func.insts@.len() as int),
    {
        let ghost insts = self.func.insts@;
        let ghost offsets = self.inst_alloc_offsets@;
        let ghost strong = reuse_agrees(insts, offsets, noted@, 0, self.allocs@, true) && moves_resolvable(
            self.inserted_moves@,
            insts.len() as int,
        );
        let ghost goal = after_reuse(insts, offsets, noted@, 0, self.inserted_moves@, self.allocs@);
        let mut n: usize = 0;
        while n < noted.len()
            invariant
                n <= noted@.len(),
                insts == self.func.insts@,
                offsets == self.inst_alloc_offsets@,
                *self == (Env { inserted_moves: self.inserted_moves, allocs: self.allocs, ..*old(self) }),
                self.allocs@.len() == old(self).allocs@.len(),
                self.func.wf(),
                self.wf_slots(),
                insts_ok(noted@, insts.len() as int),
                reuse_agrees(insts, offsets, noted@, n as int, self.allocs@, false),
                strong ==> reuse_agrees(insts, offsets, noted@, n as int, self.allocs@, true) && moves_resolvable(
                    self.inserted_moves@,
                    insts.len() as int,
                ),
                after_reuse(insts, offsets, noted@, n as int, self.inserted_moves@, self.allocs@) == goal,
            decreases noted@.len() - n,
        {
            let inst = noted[n];
            assert(noted@[n as int].0 < insts.len());
            let num_operands = self.func.inst_operands(inst).len();
            let ghost operands = insts[inst.0 as int].operands@;
            let ghost inner = after_reuse_operands(operands, inst, offsets, 0, self.inserted_moves@, self.allocs@);
            let ghost allocs0 = self.allocs@;
            proof {
                lemma_reuse_moves_apart(operands, inst, offsets, 0, self.inserted_moves@, allocs0);
            }
            let mut k: usize = 0;
            while k < num_operands
                invariant
                    k <= num_operands,
                    inst.0 < insts.len(),
                    insts == self.func.insts@,
                    offsets == self.inst_alloc_offsets@,
                    operands == insts[inst.0 as int].operands@,
                    num_operands == operands.len(),
                    *self == (Env { inserted_moves: self.inserted_moves, allocs: self.allocs, ..*old(self) }),
                    self.allocs@.len() == old(self).allocs@.len(),
                    self.func.wf(),
                    self.wf_slots(),
                    reuse_operands_agree(operands, inst, offsets, k as int, self.allocs@, false),
                    strong ==> reuse_operands_agree(operands, inst, offsets, k as int, self.allocs@, true)
                        && moves_resolvable(self.inserted_moves@, insts.len() as int),
                    after_reuse_operands(operands, inst, offsets, k as int, self.inserted_moves@, self.allocs@)
                        == inner,
                decreases num_operands - k,
            {
                let operand = self.func.inst_operands(inst)[k];
                match operand.constraint {
                    OperandConstraint::Reuse(input) => {
                        assert(crate::function::reuse_in_bounds(operands[k as int], operands.len() as int));
                        assert(offsets[inst.0 as int] + operands.len() <= self.allocs@.len());
                        let input_alloc = self.get_alloc(inst, input);
                        let output_alloc = self.get_alloc(inst, k);
                        if input_alloc != output_alloc {
                            let input_operand = self.func.inst_operands(inst)[input];
                            proof {
                                if strong {
                                    let m = InsertedMove {
                                        pos: ProgPoint::spec_before(inst),
                                        prio: InsertMovePrio::ReusedInput,
                                        from_alloc: input_alloc,
                                        to_alloc: output_alloc,
                                        to_vreg: Some(input_operand.vreg),
                                    };
                                    assert(move_is_resolvable(m, insts.len() as int));
                                    lemma_resolvable_push(self.inserted_moves@, m, insts.len() as int);
                                }
                            }
                            self.insert_move(
                                ProgPoint::before(inst),
                                InsertMovePrio::ReusedInput,
                                input_alloc,
                                output_alloc,
                                Some(input_operand.vreg),
                            );
                            self.set_alloc(inst, input, output_alloc);
                        }
                    },
                    _ => {},
                }
                k += 1;
            }
            n += 1;
        }
    }

    /// Turns the program moves into pending moves, and forgets them.
    pub fn reify_program_moves(&mut self)
        requires
            old(self).prog_move_srcs@.len() == old(self).prog_move_dsts@.len(),
            prog_moves_pair_up(
                prog_moves_in_order(old(self).prog_move_srcs@),
                prog_moves_in_order(old(self).prog_move_dsts@),
                old(self).vreg_regs@.len() as int,
            ),
        ensures
            *final(self) == (Env {
                inserted_moves: final(self).inserted_moves,
                prog_move_srcs: final(self).prog_move_srcs,
                prog_move_dsts: final(self).prog_move_dsts,
                ..*old(self)
            }),
            final(self).prog_move_srcs@.len() == 0,
            final(self).prog_move_dsts@.len() == 0,
            final(self).inserted_moves@ == old(self).inserted_moves@ + prog_move_moves(
                prog_moves_in_order(old(self).prog_move_srcs@),
                prog_moves_in_order(old(self).prog_move_dsts@),
                old(self).vreg_regs@,
            ),
            prog_moves_fit(
                prog_moves_in_order(old(self).prog_move_srcs@),
                prog_moves_in_order(old(self).prog_move_dsts@),
                old(self).func.insts@.len() as int,
            ) && moves_resolvable(old(self).inserted_moves@, old(self).func.insts@.len() as int)
                ==> moves_resolvable(final(self).inserted_moves@, old(self).func.insts@.len() as int),
    {
        let src_keys = prog_move_keys_of(&self.prog_move_srcs);
        let srcs = sort_by_keys(&self.prog_move_srcs, &src_keys);
        let dst_keys = prog_move_keys_of(&self.prog_move_dsts);
        let dsts = sort_by_keys(&self.prog_move_dsts, &dst_keys);
        let ghost expected = prog_move_moves(srcs@, dsts@, self.vreg_regs@);
        let mut i: usize = 0;
        while i < srcs.len()
            invariant
                i <= srcs@.len(),
                srcs@.len() == dsts@.len(),
                prog_moves_pair_up(srcs@, dsts@, self.vreg_regs@.len() as int),
                *self == (Env { inserted_moves: self.inserted_moves, ..*old(self) }),
                expected == prog_move_moves(srcs@, dsts@, self.vreg_regs@),
                self.inserted_moves@ == old(self).inserted_moves@ + expected.take(i as int),
                prog_moves_fit(srcs@, dsts@, self.func.insts@.len() as int) && moves_resolvable(
                    old(self).inserted_moves@,
                    self.func.insts@.len() as int,
                ) ==> moves_resolvable(self.inserted_moves@, self.func.insts@.len() as int),
            decreases srcs@.len() - i,
        {
            let src = srcs[i];
            let dst = dsts[i];
            assert(srcs@[i as int].alloc != Allocation::Unassigned);
            let to_vreg = self.vreg_regs[dst.vreg.0];
            proof {
                let num_insts = self.func.insts@.len() as int;
                if prog_moves_fit(srcs@, dsts@, num_insts) && moves_resolvable(self.inserted_moves@, num_insts) {
                    let m = InsertedMove {
                        pos: ProgPoint::spec_before(dst.inst),
                        prio: InsertMovePrio::Regular,
                        from_alloc: src.alloc,
                        to_alloc: dst.alloc,
                        to_vreg: Some(to_vreg),
                    };
                    assert(dsts@[i as int].inst.0 < num_insts);
                    assert(move_is_resolvable(m, num_insts));
                    lemma_resolvable_push(self.inserted_moves@, m, num_insts);
                }
            }
            self.insert_move(ProgPoint::before(dst.inst), InsertMovePrio::Regular, src.alloc, dst.alloc, Some(to_vreg));
            i += 1;
            assert(self.inserted_moves@ =~= old(self).inserted_moves@ + expected.take(i as int));
        }
        assert(expected.take(i as int) =~= expected);
        self.prog_move_srcs = Vec::new();
        self.prog_move_dsts = Vec::new();
    }
}

/// What `after_reuse_operands` does to the operand slots does not depend
/// on the pending moves, and the pending moves only grow.
pub proof fn lemma_reuse_moves_apart(
    operands: Seq<Operand>,
    inst: Inst,
    offsets: Seq<u32>,
    k: int,
    moves: Seq<InsertedMove>,
    allocs: Seq<Allocation>,
)
    ensures
        after_reuse_operands(operands, inst, offsets, k, moves, allocs).1 == after_reuse_operands(
            operands,
            inst,
            offsets,
            k,
            Seq::empty(),
            allocs,
        ).1,
    decreases operands.len() - k,
{
    if 0 <= k < operands.len() {
        match operands[k].spec_reused_input() {
            Some(input) => {
                let input_alloc = allocs[spec_slot_index(offsets, inst, input as int)];
                let output_alloc = allocs[spec_slot_index(offsets, inst, k)];
                if input_alloc != output_alloc {
                    let m = InsertedMove {
                        pos: ProgPoint::spec_before(inst),
                        prio: InsertMovePrio::ReusedInput,
                        from_alloc: input_alloc,
                        to_alloc: output_alloc,
                        to_vreg: Some(operands[input as int].vreg),
                    };
                    let allocs2 = allocs.update(spec_slot_index(offsets, inst, input as int), output_alloc);
                    lemma_reuse_moves_apart(operands, inst, offsets, k + 1, moves.push(m), allocs2);
                    lemma_reuse_moves_apart(operands, inst, offsets, k + 1, Seq::empty().push(m), allocs2);
                } else {
                    lemma_reuse_moves_apart(operands, inst, offsets, k + 1, moves, allocs);
                }
            },
            None => {
                lemma_reuse_moves_apart(operands, inst, offsets, k + 1, moves, allocs);
            },
        }
    }
}

fn prog_move_keys_of(moves: &Vec<ProgMove>) -> (keys: Vec<u64>)
    ensures
        keys@ == prog_move_keys(moves@),
{
    let mut keys: Vec<u64> = Vec::new();
    let mut i: usize = 0;
    while i < moves.len()
        invariant
            i <= moves@.len(),
            keys@.len() == i,
            forall|k: int| 0 <= k < i ==> keys@[k] == moves@[k].inst.0 as u64,
        decreases moves@.len() - i,
    {
        keys.push(moves[i].inst.0 as u64);
        i += 1;
    }
    assert(keys@ =~= prog_move_keys(moves@));
    keys
}

fn half_move_keys_of(hms: &Vec<HalfMove>) -> (keys: Vec<u64>)
    ensures
        keys@ == half_move_keys(hms@),
{
    let mut keys: Vec<u64> = Vec::new();
    let mut i: usize = 0;
    while i < hms.len()
        invariant
            i <= hms@.len(),
            keys@.len() == i,
            forall|k: int| 0 <= k < i ==> keys@[k] == hms@[k].key,
        decreases hms@.len() - i,
    {
        keys.push(hms[i].key);
        i += 1;
    }
    assert(keys@ =~= half_move_keys(hms@));
    keys
}

/// The two states hold the same program, the same control-flow summary
/// and the same live ranges with the same locations, and pin the same
/// virtual registers.
pub open spec fn same_program(a: &Env, b: &Env) -> bool {
    &&& a.func == b.func
    &&& a.cfginfo == b.cfginfo
    &&& a.liveins == b.liveins
    &&& a.ranges == b.ranges
    &&& a.bundles == b.bundles
    &&& a.spillsets == b.spillsets
    &&& a.spillslots == b.spillslots
    &&& a.vreg_regs == b.vreg_regs
    &&& a.blockparam_ins == b.blockparam_ins
    &&& a.blockparam_outs == b.blockparam_outs
    &&& a.inst_alloc_offsets == b.inst_alloc_offsets
    &&& a.vregs@.len() == b.vregs@.len()
    &&& forall|v: int| 0 <= v < a.vregs@.len() ==> (#[trigger] a.vregs@[v]).is_pinned == b.vregs@[v].is_pinned
}

/// The scan finds the same in two states that hold the same program.
pub proof fn lemma_scan_ranges_same(
    a: &Env,
    b: &Env,
    lists: Seq<Seq<LiveRangeListEntry>>,
    v: int,
    i: int,
    st: ScanState,
)
    requires
        same_program(a, b),
        0 <= v < lists.len(),
        lists.len() == a.vregs@.len(),
    ensures
        a.scan_ranges(lists, v, i, st) == b.scan_ranges(lists, v, i, st),
    decreases lists[v].len() - i,
{
    if 0 <= i < lists[v].len() {
        assert(a.vregs@[v].is_pinned == b.vregs@[v].is_pinned);
        assert(a.pinned_reg(v) == b.pinned_reg(v));
        assert(a.scan_alloc(lists, v, i) == b.scan_alloc(lists, v, i));
        assert(a.scan_range(lists, v, i, st) == b.scan_range(lists, v, i, st));
        lemma_scan_ranges_same(a, b, lists, v, i + 1, a.scan_range(lists, v, i, st));
    }
}

/// The scan finds the same in two states that hold the same program.
pub proof fn lemma_scan_vregs_same(a: &Env, b: &Env, lists: Seq<Seq<LiveRangeListEntry>>, v: int, st: ScanState)
    requires
        same_program(a, b),
        lists.len() == a.vregs@.len(),
    ensures
        a.scan_vregs(lists, v, st) == b.scan_vregs(lists, v, st),
    decreases lists.len() - v,
{
    if 0 <= v < lists.len() {
        lemma_scan_ranges_same(a, b, lists, v, 0, st);
        lemma_scan_vregs_same(a, b, lists, v + 1, a.scan_ranges(lists, v, 0, st));
    }
}

/// What `apply_allocations_and_insert_moves` leaves behind when every edge
/// has a place for its moves.
pub struct Discovery {
    pub inserted_moves: Seq<InsertedMove>,
    pub allocs: Seq<Allocation>,
    pub blockparam_allocs: Seq<BlockparamAlloc>,
    pub halfmoves_count: int,
}

impl Env {
    /// What the scan finds, begun from this state with the lists of live
    /// ranges in order.
    pub open spec fn scanned(&self) -> ScanState {
        self.scan_vregs(self.sorted_lists(), 0, self.scan_start())
    }

    /// The pending moves once the half-moves that the scan found are
    /// matched up, or the edge that has no place for its moves.
    pub open spec fn edge_result(&self) -> Result<Seq<InsertedMove>, MoveError> {
        edge_moves(
            &self.func,
            self.vreg_regs@,
            half_moves_in_order(self.scanned().half_moves),
            0,
            self.scanned().inserted_moves,
        )
    }

    /// The pending moves and the operand slots once the fix-ups are
    /// applied to what `moves` and the scan give.
    pub open spec fn fixed_up(&self, moves: Seq<InsertedMove>) -> (Seq<InsertedMove>, Seq<Allocation>) {
        after_fixups(
            self.multi_fixed_reg_fixups@,
            self.pregs@,
            self.inst_alloc_offsets@,
            0,
            moves,
            self.scanned().allocs,
        )
    }

    /// The pending moves and the operand slots once reused inputs are
    /// handled, after the fix-ups.
    pub open spec fn reused(&self, moves: Seq<InsertedMove>) -> (Seq<InsertedMove>, Seq<Allocation>) {
        after_reuse(
            self.func.insts@,
            self.inst_alloc_offsets@,
            self.scanned().reuse_insts,
            0,
            self.fixed_up(moves).0,
            self.fixed_up(moves).1,
        )
    }

    /// The outcome of `apply_allocations_and_insert_moves`: the scan, then
    /// the moves along edges, the fix-ups, the reused inputs and the
    /// program moves, in this order; or the first edge found to have no
    /// place for its moves.
    pub open spec fn discovery(&self) -> Result<Discovery, MoveError> {
        match self.edge_result() {
            Err(e) => Err(e),
            Ok(moves) => Ok(
                Discovery {
                    inserted_moves: self.reused(moves).0 + prog_move_moves(
                        prog_moves_in_order(self.scanned().prog_move_srcs),
                        prog_moves_in_order(self.scanned().prog_move_dsts),
                        self.vreg_regs@,
                    ),
                    allocs: self.reused(moves).1,
                    blockparam_allocs: self.scanned().blockparam_allocs,
                    halfmoves_count: self.scanned().half_moves.len() as int,
                },
            ),
        }
    }

    /// This state is `before` with what was found written into it: the
    /// pending moves, the operand slots, the locations of the block
    /// parameters and the number of half-moves; the program moves and the
    /// fix-ups are used up, and nothing else but the order of the lists of
    /// live ranges has changed.
    pub open spec fn holds_discovery(&self, before: &Env, found: Discovery) -> bool {
        &&& self.inserted_moves@ == found.inserted_moves
        &&& self.allocs@ == found.allocs
        &&& self.blockparam_allocs@ == found.blockparam_allocs
        &&& self.stats.halfmoves_count == found.halfmoves_count
        &&& self.stats.edits_count == before.stats.edits_count
        &&& self.stats.blockparam_allocs_count == before.stats.blockparam_allocs_count
        &&& self.prog_move_srcs@.len() == 0
        &&& self.prog_move_dsts@.len() == 0
        &&& self.multi_fixed_reg_fixups@.len() == 0
        &&& *self == (Env {
            vregs: self.vregs,
            inserted_moves: self.inserted_moves,
            allocs: self.allocs,
            blockparam_allocs: self.blockparam_allocs,
            prog_move_srcs: self.prog_move_srcs,
            prog_move_dsts: self.prog_move_dsts,
            multi_fixed_reg_fixups: self.multi_fixed_reg_fixups,
            stats: self.stats,
            ..*before
        })
    }

    /// What `apply_allocations_and_insert_moves` needs of the state.
    ///
    /// With the lists of live ranges in order, the state is ready for the
    /// scan. The fix-ups are in order. And where every edge has a place for
    /// its moves: the copies for reused inputs stay within one class, and
    /// the ends of program moves, once they have their locations and stand
    /// by instruction, fit together.
    pub open spec fn ready_for_discovery(&self) -> bool {
        &&& self.ready_for_scan(self.sorted_lists())
        &&& fixups_ok(
            self.multi_fixed_reg_fixups@,
            self.pregs@,
            self.inst_alloc_offsets@,
            self.allocs@.len() as int,
        )
        &&& self.prog_move_srcs@.len() == self.prog_move_dsts@.len()
        &&& match self.edge_result() {
            Err(e) => true,
            Ok(moves) => {
                &&& reuse_agrees(
                    self.func.insts@,
                    self.inst_alloc_offsets@,
                    self.scanned().reuse_insts,
                    0,
                    self.fixed_up(moves).1,
                    false,
                )
                &&& prog_moves_pair_up(
                    prog_moves_in_order(self.scanned().prog_move_srcs),
                    prog_moves_in_order(self.scanned().prog_move_dsts),
                    self.vreg_regs@.len() as int,
                )
            },
        }
    }

    /// What running both phases, one after the other, needs of the state.
    ///
    /// The state is ready for `apply_allocations_and_insert_moves`, the
    /// pending moves and the edits that are there already are in order, and
    /// there is room for the spare stack slots. And where every edge has a
    /// place for its moves, what the first phase leaves is fit for the
    /// second: the copies for reused inputs and the program moves have a
    /// location at both ends, of one class, the program moves lie at
    /// instructions that exist, and the block parameters found are those
    /// that the blocks have.
    pub open spec fn ready_to_run(&self) -> bool {
        &&& self.ready_for_discovery()
        &&& spare_slots_ok(self.extra_spillslot@, self.num_spillslots as int)
        &&& edits_in_bounds(self.edits@)
        &&& moves_resolvable(self.inserted_moves@, self.func.insts@.len() as int)
        &&& match self.edge_result() {
            Err(e) => true,
            Ok(moves) => {
                &&& reuse_agrees(
                    self.func.insts@,
                    self.inst_alloc_offsets@,
                    self.scanned().reuse_insts,
                    0,
                    self.fixed_up(moves).1,
                    true,
                )
                &&& prog_moves_fit(
                    prog_moves_in_order(self.scanned().prog_move_srcs),
                    prog_moves_in_order(self.scanned().prog_move_dsts),
                    self.func.insts@.len() as int,
                )
                &&& blockparams_ok(self.scanned().blockparam_allocs, &self.func, self.vreg_regs@.len() as int)
            },
        }
    }

    /// Writes the final location into every operand slot and records every
    /// move that the locations make necessary.
    ///
    /// The lists of live ranges are put in order and scanned. The
    /// half-moves found are matched up into moves along edges; an edge
    /// without a place for its moves ends the work with an error. Then the
    /// fix-ups for several fixed registers are applied, the reused inputs
    /// handled, and the program moves turned into pending moves.
    pub fn apply_allocations_and_insert_moves(&mut self) -> (r: Result<(), MoveError>)
        requires
            old(self).ready_for_discovery(),
        ensures
            final(self).vregs@.len() == old(self).vregs@.len(),
            forall|v: int|
                0 <= v < final(self).vregs@.len() ==> (#[trigger] final(self).vregs@[v]).is_pinned == old(
                    self,
                ).vregs@[v].is_pinned && final(self).vregs@[v].ranges@ == old(self).sorted_lists()[v],
            match old(self).discovery() {
                Err(e) => r == Err::<(), MoveError>(e),
                Ok(found) => r is Ok && final(self).holds_discovery(old(self), found),
            },
            old(self).ready_to_run() && r is Ok ==> final(self).ready_for_emission(),
    {
        let ghost lists = self.sorted_lists();
        self.sort_range_lists();
        let ghost sorted_env = *self;
        proof {
            assert(same_program(&sorted_env, old(self)));
            assert(sorted_env.wf_ranges()) by {
                assert forall|v: int, i: int|
                    0 <= v < sorted_env.vregs@.len() && 0 <= i < sorted_env.vregs@[v].ranges@.len() implies (
                #[trigger] sorted_env.vregs@[v].ranges@[i]).index.0 < sorted_env.ranges@.len() by {
                    assert(sorted_env.vregs@[v].ranges@ == lists[v]);
                    assert(lists[v][i].index.0 < old(self).ranges@.len());
                }
            }
            assert forall|v: int, i: int|
                0 <= v < lists.len() && 0 <= i < lists[v].len() implies crate::scan::alloc_fits(
                #[trigger] sorted_env.scan_alloc(lists, v, i),
                VRegIndex(v as usize),
                sorted_env.vreg_regs@,
            ) by {
                assert(sorted_env.vregs@[v].is_pinned == old(self).vregs@[v].is_pinned);
                assert(sorted_env.scan_alloc(lists, v, i) == old(self).scan_alloc(lists, v, i));
            }
            assert(sorted_env.wf_program());
            assert(sorted_env.wf_uses());
            assert(sorted_env.lists_ok(lists));
            assert forall|v: int, i: int|
                0 <= v < lists.len() && 1 <= i < lists[v].len() && sorted_env.pinned_reg(v) is None
                    && #[trigger] sorted_env.abuts(lists, v, i) implies lists[v][i].range.from.spec_pos()
                == crate::index::InstPosition::Before by {
                assert(sorted_env.vregs@[v].is_pinned == old(self).vregs@[v].is_pinned);
                assert(old(self).abuts(lists, v, i));
                assert(old(self).pinned_reg(v) is None);
            }
            assert(sorted_env.ready_for_scan(lists));
        }
        let mut half_moves: Vec<HalfMove> = Vec::new();
        let mut reuse_insts: Vec<Inst> = Vec::new();
        let cursors = self.scan_all(&mut half_moves, &mut reuse_insts, Ghost(lists));
        proof {
            lemma_scan_vregs_same(&sorted_env, old(self), lists, 0, old(self).scan_start());
            assert(sorted_env.scan_start() == old(self).scan_start());
        }
        let ghost st = old(self).scanned();
        assert(self.scan_state(half_moves@, reuse_insts@, cursors) == st);
        let keys = half_move_keys_of(&half_moves);
        let sorted = sort_by_keys(&half_moves, &keys);
        proof {
            let num_blocks = self.func.blocks@.len() as int;
            let vreg_regs = self.vreg_regs@;
            lemma_sorted_keeps(half_moves@, keys@, |hm: HalfMove| half_move_ok(hm, num_blocks, vreg_regs));
        }
        self.stats.halfmoves_count = sorted.len();
        match self.resolve_half_moves(&sorted) {
            Err(e) => {
                return Err(e);
            },
            Ok(()) => {},
        }
        self.apply_fixups();
        self.apply_reuse(&reuse_insts);
        self.reify_program_moves();
        proof {
            if old(self).ready_to_run() {
                assert(self.wf_program());
                assert(self.ready_for_emission());
            }
        }
        Ok(())
    }
}

} // verus!
