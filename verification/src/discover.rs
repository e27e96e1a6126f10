//! The scan over every live range of every virtual register, as a whole.

use vstd::prelude::*;
use crate::edits::{InsertedMove, InsertMovePrio};
use crate::emit::{first_inst_from, lemma_resolvable_push, move_is_resolvable, moves_resolvable};
use crate::env::{BlockparamAlloc, Env, LiveRange, LiveRangeListEntry, ProgMove, spec_range_alloc};
use crate::halfmove::HalfMove;
use crate::index::{Block, Inst, InstPosition, MAX_POINT, VRegIndex};
use crate::locations::{Allocation, PReg};
use crate::scan::{
    after_binding,
    after_uses,
    alloc_fits,
    apply_uses,
    bind_moves,
    first_entry_block,
    half_moves_ok,
    in_blocks,
    ins_ok,
    insts_ok,
    out_blocks,
    outs_ok,
    scan_in_edges,
    scan_out_edges,
    uses_ok,
};
use crate::sorting::stable_sorted;

verus! {

/// How far the scan has read in each of the four side tables.
#[derive(Clone, Copy, Debug)]
pub struct ScanCursors {
    pub blockparam_in: usize,
    pub blockparam_out: usize,
    pub prog_move_src: usize,
    pub prog_move_dst: usize,
}

/// What the scan has found and written so far.
pub struct ScanState {
    pub half_moves: Seq<HalfMove>,
    pub reuse_insts: Seq<Inst>,
    pub in_idx: int,
    pub out_idx: int,
    pub src_idx: int,
    pub dst_idx: int,
    pub inserted_moves: Seq<InsertedMove>,
    pub blockparam_allocs: Seq<BlockparamAlloc>,
    pub allocs: Seq<Allocation>,
    pub prog_move_srcs: Seq<ProgMove>,
    pub prog_move_dsts: Seq<ProgMove>,
}

/// The entries with the current extent of their live range.
pub open spec fn refreshed(entries: Seq<LiveRangeListEntry>, ranges: Seq<LiveRange>) -> Seq<LiveRangeListEntry> {
    Seq::new(
        entries.len(),
        |i: int| LiveRangeListEntry { range: ranges[entries[i].index.0 as int].range, index: entries[i].index },
    )
}

/// The keys by which the live ranges of a virtual register are put in
/// order: where they begin.
pub open spec fn range_keys(entries: Seq<LiveRangeListEntry>) -> Seq<u64> {
    Seq::new(entries.len(), |i: int| entries[i].range.from.bits as u64)
}

/// The entries with the current extent of their live range, in the order
/// in which the ranges begin.
pub open spec fn sorted_entries(entries: Seq<LiveRangeListEntry>, ranges: Seq<LiveRange>) -> Seq<LiveRangeListEntry> {
    stable_sorted(refreshed(entries, ranges), range_keys(refreshed(entries, ranges)))
}

/// What the scan writes does not touch what it needs of the state.
pub proof fn lemma_ready_preserved(before: &Env, after: &Env, lists: Seq<Seq<LiveRangeListEntry>>)
    requires
        before.ready_for_scan(lists),
        after.differs_in_scan(before),
        after.allocs@.len() == before.allocs@.len(),
    ensures
        after.ready_for_scan(lists),
{
    assert(after.wf_slots());
    assert(after.wf_program());
    assert(after.wf_ranges());
    assert(after.wf_uses()) by {
        assert forall|r: int, u: int|
            0 <= r < after.ranges@.len() && 0 <= u < after.ranges@[r].uses@.len() implies {
            let usedata = #[trigger] after.ranges@[r].uses@[u];
            &&& after.ranges@[r].range.spec_contains_point(usedata.pos)
            &&& usedata.pos.spec_inst().0 < after.func.insts@.len()
            &&& usedata.slot != crate::env::SLOT_NONE ==> crate::env::spec_slot_index(
                after.inst_alloc_offsets@,
                usedata.pos.spec_inst(),
                usedata.slot as int,
            ) < after.allocs@.len()
        } by {
            let usedata = before.ranges@[r].uses@[u];
        }
    }
    assert(after.lists_ok(lists));
    assert forall|v: int, i: int| 0 <= v < lists.len() && 0 <= i < lists[v].len() implies alloc_fits(
        #[trigger] after.scan_alloc(lists, v, i),
        VRegIndex(v as usize),
        after.vreg_regs@,
    ) by {
        assert(after.scan_alloc(lists, v, i) == before.scan_alloc(lists, v, i));
    }
    assert forall|v: int, i: int|
        0 <= v < lists.len() && 1 <= i < lists[v].len() && after.pinned_reg(v) is None && #[trigger] after.abuts(
            lists,
            v,
            i,
        ) implies lists[v][i].range.from.spec_pos() == InstPosition::Before by {
        assert(before.abuts(lists, v, i));
        assert(before.pinned_reg(v) is None);
    }
}

impl Env {
    /// The list of live ranges of each virtual register, brought up to
    /// date and put in order.
    pub open spec fn sorted_lists(&self) -> Seq<Seq<LiveRangeListEntry>> {
        Seq::new(self.vregs@.len(), |v: int| sorted_entries(self.vregs@[v].ranges@, self.ranges@))
    }

    /// The lists name live ranges that exist, with their current extent.
    pub open spec fn lists_ok(&self, lists: Seq<Seq<LiveRangeListEntry>>) -> bool {
        &&& lists.len() == self.vregs@.len()
        &&& forall|v: int, i: int|
            0 <= v < lists.len() && 0 <= i < lists[v].len() ==> {
                &&& (#[trigger] lists[v][i]).index.0 < self.ranges@.len()
                &&& lists[v][i].range == self.ranges@[lists[v][i].index.0 as int].range
            }
    }

    /// The register that the virtual register is pinned to, if it is.
    pub open spec fn pinned_reg(&self, v: int) -> Option<PReg> {
        if self.vregs@[v].is_pinned {
            self.func.spec_pinned_vreg(self.vreg_regs@[v])
        } else {
            None
        }
    }

    /// The location of a virtual register over one of its live ranges: the
    /// register it is pinned to, else the location of the range.
    pub open spec fn scan_alloc(&self, lists: Seq<Seq<LiveRangeListEntry>>, v: int, i: int) -> Allocation {
        match self.pinned_reg(v) {
            Some(preg) => Allocation::Reg(preg),
            None => spec_range_alloc(
                self.ranges@,
                self.bundles@,
                self.spillsets@,
                self.spillslots@,
                lists[v][i].index,
            ),
        }
    }

    /// The live range `i` of the virtual register begins where the one
    /// before it ends, inside a block, and not at a definition.
    pub open spec fn abuts(&self, lists: Seq<Seq<LiveRangeListEntry>>, v: int, i: int) -> bool {
        let range = lists[v][i].range;
        let prev = self.ranges@[lists[v][i - 1].index.0 as int].range;
        &&& prev.to == range.from
        &&& !self.spec_is_start_of_block(range.from)
        &&& !self.ranges@[lists[v][i].index.0 as int].starts_at_def
    }

    /// What the scan needs of the state.
    ///
    /// The tables are consistent. Every live range has a location, of the
    /// class of its virtual register. A live range that begins where the
    /// one before it ends, inside a block and not at a definition, begins
    /// before an instruction. A value passed to a block parameter is of
    /// the parameter's class.
    pub open spec fn ready_for_scan(&self, lists: Seq<Seq<LiveRangeListEntry>>) -> bool {
        &&& self.wf_program()
        &&& self.wf_ranges()
        &&& self.wf_uses()
        &&& self.lists_ok(lists)
        &&& ins_ok(self.blockparam_ins@, self.func.blocks@.len() as int)
        &&& outs_ok(self.blockparam_outs@, self.func.blocks@.len() as int, self.vreg_regs@)
        &&& forall|v: int, i: int|
            0 <= v < lists.len() && 0 <= i < lists[v].len() ==> alloc_fits(
                #[trigger] self.scan_alloc(lists, v, i),
                VRegIndex(v as usize),
                self.vreg_regs@,
            )
        &&& forall|v: int, i: int|
            0 <= v < lists.len() && 1 <= i < lists[v].len() && self.pinned_reg(v) is None && #[trigger] self.abuts(
                lists,
                v,
                i,
            ) ==> lists[v][i].range.from.spec_pos() == InstPosition::Before
    }

    /// The part of the state that the scan works on, with what the scan
    /// keeps beside it.
    pub open spec fn scan_state(&self, half_moves: Seq<HalfMove>, reuse_insts: Seq<Inst>, cursors: ScanCursors) -> ScanState {
        ScanState {
            half_moves,
            reuse_insts,
            in_idx: cursors.blockparam_in as int,
            out_idx: cursors.blockparam_out as int,
            src_idx: cursors.prog_move_src as int,
            dst_idx: cursors.prog_move_dst as int,
            inserted_moves: self.inserted_moves@,
            blockparam_allocs: self.blockparam_allocs@,
            allocs: self.allocs@,
            prog_move_srcs: self.prog_move_srcs@,
            prog_move_dsts: self.prog_move_dsts@,
        }
    }

    /// Only what the scan writes differs between the two states.
    pub open spec fn differs_in_scan(&self, before: &Env) -> bool {
        *self == (Env {
            inserted_moves: self.inserted_moves,
            blockparam_allocs: self.blockparam_allocs,
            allocs: self.allocs,
            prog_move_srcs: self.prog_move_srcs,
            prog_move_dsts: self.prog_move_dsts,
            ..*before
        })
    }

    /// The state of the scan after the live range `i` of the virtual
    /// register `v` has been looked at.
    ///
    /// Unless the register is pinned: a move from the location of the range
    /// before, if this range begins where that one ends, inside a block and
    /// not at a definition; the sources of the transfers out of the blocks
    /// whose exit the range covers; the destinations of the transfers into
    /// the blocks whose entry it covers; and the location of the block
    /// parameter that defines the register, if the range covers the entry
    /// of its block. In any case: the location written into the operand
    /// slots of the uses, and given to the ends of program moves that the
    /// range covers.
    pub open spec fn scan_range(&self, lists: Seq<Seq<LiveRangeListEntry>>, v: int, i: int, st: ScanState) -> ScanState {
        let vreg = VRegIndex(v as usize);
        let entry = lists[v][i];
        let range = entry.range;
        let alloc = self.scan_alloc(lists, v, i);
        let pinned = self.pinned_reg(v) is Some;
        let inserted_moves = if !pinned && i > 0 && self.abuts(lists, v, i) {
            st.inserted_moves.push(
                InsertedMove {
                    pos: range.from,
                    prio: InsertMovePrio::Regular,
                    from_alloc: spec_range_alloc(
                        self.ranges@,
                        self.bundles@,
                        self.spillsets@,
                        self.spillslots@,
                        lists[v][i - 1].index,
                    ),
                    to_alloc: alloc,
                    to_vreg: Some(self.vreg_regs@[v]),
                },
            )
        } else {
            st.inserted_moves
        };
        let (out_idx, with_sources) = if pinned {
            (st.out_idx, st.half_moves)
        } else {
            out_blocks(
                &self.func,
                &self.cfginfo,
                &self.liveins,
                self.blockparam_outs@,
                self.cfginfo.insn_block@[range.from.spec_inst().0 as int].0 as int,
                st.out_idx,
                vreg,
                range,
                alloc,
                st.half_moves,
            )
        };
        let (in_idx, half_moves) = if pinned {
            (st.in_idx, with_sources)
        } else {
            in_blocks(
                &self.func,
                &self.cfginfo,
                &self.liveins,
                self.blockparam_ins@,
                first_entry_block(&self.cfginfo, range),
                st.in_idx,
                vreg,
                range,
                alloc,
                with_sources,
            )
        };
        let param = self.cfginfo.vreg_def_blockparam@[v];
        let blockparam_allocs = if !pinned && param.0 != Block::spec_invalid() && range.spec_contains_point(
            self.cfginfo.block_entry@[param.0.0 as int],
        ) {
            st.blockparam_allocs.push(BlockparamAlloc { block: param.0, index: param.1, vreg, alloc })
        } else {
            st.blockparam_allocs
        };
        let (allocs, reuse_insts) = after_uses(
            self.ranges@[entry.index.0 as int].uses@,
            self.inst_alloc_offsets@,
            alloc,
            0,
            st.allocs,
            st.reuse_insts,
        );
        let (src_idx, prog_move_srcs) = after_binding(
            st.prog_move_srcs,
            st.src_idx,
            vreg,
            range.from.spec_inst().0 as int,
            range.to.spec_inst().0 as int,
            alloc,
        );
        let (dst_idx, prog_move_dsts) = after_binding(
            st.prog_move_dsts,
            st.dst_idx,
            vreg,
            first_inst_from(range.from),
            first_inst_from(range.to),
            alloc,
        );
        ScanState {
            half_moves,
            reuse_insts,
            in_idx,
            out_idx,
            src_idx,
            dst_idx,
            inserted_moves,
            blockparam_allocs,
            allocs,
            prog_move_srcs,
            prog_move_dsts,
        }
    }

    /// The state of the scan after the live ranges `i`, `i + 1`, .. of the
    /// virtual register `v` have been looked at in turn.
    pub open spec fn scan_ranges(&self, lists: Seq<Seq<LiveRangeListEntry>>, v: int, i: int, st: ScanState) -> ScanState
        decreases lists[v].len() - i,
    {
        if i < 0 || i >= lists[v].len() {
            st
        } else {
            self.scan_ranges(lists, v, i + 1, self.scan_range(lists, v, i, st))
        }
    }

    /// The state of the scan after the virtual registers `v`, `v + 1`, ..
    /// have been looked at in turn.
    pub open spec fn scan_vregs(&self, lists: Seq<Seq<LiveRangeListEntry>>, v: int, st: ScanState) -> ScanState
        decreases lists.len() - v,
    {
        if v < 0 || v >= lists.len() {
            st
        } else {
            self.scan_vregs(lists, v + 1, self.scan_ranges(lists, v, 0, st))
        }
    }

    /// The cursors are within their tables, and what the scan keeps beside
    /// the state is in order.
    pub open spec fn scan_in_order(&self, half_moves: Seq<HalfMove>, reuse_insts: Seq<Inst>, cursors: ScanCursors) -> bool {
        &&& cursors.blockparam_in <= self.blockparam_ins@.len()
        &&& cursors.blockparam_out <= self.blockparam_outs@.len()
        &&& cursors.prog_move_src <= self.prog_move_srcs@.len()
        &&& cursors.prog_move_dst <= self.prog_move_dsts@.len()
        &&& half_moves_ok(half_moves, self.func.blocks@.len() as int, self.vreg_regs@)
        &&& insts_ok(reuse_insts, self.func.insts@.len() as int)
    }

    /// Looks at one live range of one virtual register.
    fn scan_one_range(
        &mut self,
        v: usize,
        i: usize,
        half_moves: &mut Vec<HalfMove>,
        reuse_insts: &mut Vec<Inst>,
        cursors: &mut ScanCursors,
        Ghost(lists): Ghost<Seq<Seq<LiveRangeListEntry>>>,
    )
        requires
            old(self).ready_for_scan(lists),
            old(self).scan_in_order(old(half_moves)@, old(reuse_insts)@, *old(cursors)),
            v < old(self).vregs@.len(),
            i < lists[v as int].len(),
            forall|w: int| 0 <= w < lists.len() ==> old(self).vregs@[w].ranges@ == #[trigger] lists[w],
        ensures
            final(self).differs_in_scan(old(self)),
            final(self).ready_for_scan(lists),
            final(self).scan_in_order(final(half_moves)@, final(reuse_insts)@, *final(cursors)),
            final(self).scan_state(final(half_moves)@, final(reuse_insts)@, *final(cursors)) == old(self).scan_range(
                lists,
                v as int,
                i as int,
                old(self).scan_state(old(half_moves)@, old(reuse_insts)@, *old(cursors)),
            ),
            moves_resolvable(old(self).inserted_moves@, old(self).func.insts@.len() as int) ==> moves_resolvable(
                final(self).inserted_moves@,
                old(self).func.insts@.len() as int,
            ),
            final(self).allocs@.len() == old(self).allocs@.len(),
            final(self).prog_move_srcs@.len() == old(self).prog_move_srcs@.len(),
            final(self).prog_move_dsts@.len() == old(self).prog_move_dsts@.len(),
            forall|k: int|
                0 <= k < final(self).prog_move_srcs@.len() ==> (#[trigger] final(self).prog_move_srcs@[k]).vreg
                    == old(self).prog_move_srcs@[k].vreg && final(self).prog_move_srcs@[k].inst == old(
                    self,
                ).prog_move_srcs@[k].inst,
            forall|k: int|
                0 <= k < final(self).prog_move_dsts@.len() ==> (#[trigger] final(self).prog_move_dsts@[k]).vreg
                    == old(self).prog_move_dsts@[k].vreg && final(self).prog_move_dsts@[k].inst == old(
                    self,
                ).prog_move_dsts@[k].inst,
    {
        let vreg = VRegIndex(v);
        assert(self.vregs@[v as int].ranges@ == lists[v as int]);
        let entry = self.vregs[v].ranges[i];
        assert(entry == lists[v as int][i as int]);
        proof {
            let r = entry.index.0 as int;
            assert forall|u: int| 0 <= u < self.ranges@[r].uses@.len() implies {
                &&& (#[trigger] self.ranges@[r].uses@[u]).pos.spec_inst().0 < self.inst_alloc_offsets@.len()
                &&& self.ranges@[r].uses@[u].slot != crate::env::SLOT_NONE ==> crate::env::spec_slot_index(
                    self.inst_alloc_offsets@,
                    self.ranges@[r].uses@[u].pos.spec_inst(),
                    self.ranges@[r].uses@[u].slot as int,
                ) < self.allocs@.len()
            } by {}
            assert(uses_ok(self.ranges@[r].uses@, self.inst_alloc_offsets@, self.allocs@.len() as int));
        }
        let pinned_alloc = if self.vregs[v].is_pinned {
            self.func.is_pinned_vreg(self.vreg_regs[v])
        } else {
            None
        };
        let alloc = match pinned_alloc {
            Some(preg) => Allocation::reg(preg),
            None => self.get_alloc_for_range(entry.index),
        };
        assert(alloc == self.scan_alloc(lists, v as int, i as int));
        assert(alloc_fits(alloc, vreg, self.vreg_regs@));
        let range = entry.range;
        if pinned_alloc.is_none() && i > 0 {
            let prev = self.vregs[v].ranges[i - 1].index;
            assert(prev == lists[v as int][i - 1].index);
            let prev_alloc = self.get_alloc_for_range(prev);
            assert(prev_alloc == self.scan_alloc(lists, v as int, i - 1));
            assert(alloc_fits(prev_alloc, vreg, self.vreg_regs@));
            let prev_range = self.ranges[prev.0].range;
            let first_is_def = self.ranges[entry.index.0].starts_at_def;
            if prev_range.to == range.from && !self.is_start_of_block(range.from) && !first_is_def {
                let to_vreg = self.vreg_regs[v];
                proof {
                    let m = InsertedMove {
                        pos: range.from,
                        prio: InsertMovePrio::Regular,
                        from_alloc: prev_alloc,
                        to_alloc: alloc,
                        to_vreg: Some(to_vreg),
                    };
                    assert(self.ranges@[entry.index.0 as int].range.from.spec_inst().0 < self.func.insts@.len());
                    assert(move_is_resolvable(m, self.func.insts@.len() as int));
                    if moves_resolvable(self.inserted_moves@, self.func.insts@.len() as int) {
                        lemma_resolvable_push(self.inserted_moves@, m, self.func.insts@.len() as int);
                    }
                }
                self.insert_move(range.from, InsertMovePrio::Regular, prev_alloc, alloc, Some(to_vreg));
            }
        }
        if pinned_alloc.is_none() {
            cursors.blockparam_out = scan_out_edges(
                &self.func,
                &self.cfginfo,
                &self.liveins,
                &self.blockparam_outs,
                half_moves,
                cursors.blockparam_out,
                vreg,
                range,
                alloc,
                Ghost(self.vreg_regs@),
            );
            cursors.blockparam_in = scan_in_edges(
                &self.func,
                &self.cfginfo,
                &self.liveins,
                &self.blockparam_ins,
                half_moves,
                cursors.blockparam_in,
                vreg,
                range,
                alloc,
                Ghost(self.vreg_regs@),
            );
            let param = self.cfginfo.vreg_def_blockparam[v];
            if param.0.is_valid() && range.contains_point(self.cfginfo.block_entry[param.0.index()]) {
                self.blockparam_allocs.push(BlockparamAlloc { block: param.0, index: param.1, vreg, alloc });
            }
        }
        assert(uses_ok(self.ranges@[entry.index.0 as int].uses@, self.inst_alloc_offsets@, self.allocs@.len() as int));
        apply_uses(&self.ranges[entry.index.0].uses, &self.inst_alloc_offsets, &mut self.allocs, reuse_insts, alloc);
        assert(range.from.bits <= MAX_POINT && range.to.bits <= MAX_POINT);
        cursors.prog_move_src = bind_moves(
            &mut self.prog_move_srcs,
            cursors.prog_move_src,
            vreg,
            range.from.inst().0,
            range.to.inst().0,
            alloc,
        );
        let dst_start = if range.from.pos() == InstPosition::Before {
            range.from.inst().0
        } else {
            range.from.inst().0 + 1
        };
        let dst_end = if range.to.pos() == InstPosition::Before {
            range.to.inst().0
        } else {
            range.to.inst().0 + 1
        };
        cursors.prog_move_dst = bind_moves(
            &mut self.prog_move_dsts,
            cursors.prog_move_dst,
            vreg,
            dst_start,
            dst_end,
            alloc,
        );
        proof {
            lemma_ready_preserved(old(self), self, lists);
        }
    }
}

impl Env {
    /// The state the scan begins with: nothing found yet, every cursor at
    /// the start of its table.
    pub open spec fn scan_start(&self) -> ScanState {
        ScanState {
            half_moves: Seq::empty(),
            reuse_insts: Seq::empty(),
            in_idx: 0,
            out_idx: 0,
            src_idx: 0,
            dst_idx: 0,
            inserted_moves: self.inserted_moves@,
            blockparam_allocs: self.blockparam_allocs@,
            allocs: self.allocs@,
            prog_move_srcs: self.prog_move_srcs@,
            prog_move_dsts: self.prog_move_dsts@,
        }
    }

    /// Looks at every live range of every virtual register, in the order
    /// of the registers and, for each, of its ranges.
    pub(crate) fn scan_all(
        &mut self,
        half_moves: &mut Vec<HalfMove>,
        reuse_insts: &mut Vec<Inst>,
        Ghost(lists): Ghost<Seq<Seq<LiveRangeListEntry>>>,
    ) -> (cursors: ScanCursors)
        requires
            old(self).ready_for_scan(lists),
            old(half_moves)@.len() == 0,
            old(reuse_insts)@.len() == 0,
            forall|w: int| 0 <= w < lists.len() ==> old(self).vregs@[w].ranges@ == #[trigger] lists[w],
        ensures
            final(self).differs_in_scan(old(self)),
            final(self).ready_for_scan(lists),
            final(self).scan_in_order(final(half_moves)@, final(reuse_insts)@, cursors),
            final(self).scan_state(final(half_moves)@, final(reuse_insts)@, cursors) == old(self).scan_vregs(
                lists,
                0,
                old(self).scan_start(),
            ),
            moves_resolvable(old(self).inserted_moves@, old(self).func.insts@.len() as int) ==> moves_resolvable(
                final(self).inserted_moves@,
                old(self).func.insts@.len() as int,
            ),
            final(self).allocs@.len() == old(self).allocs@.len(),
            final(self).prog_move_srcs@.len() == old(self).prog_move_srcs@.len(),
            final(self).prog_move_dsts@.len() == old(self).prog_move_dsts@.len(),
            forall|k: int|
                0 <= k < final(self).prog_move_srcs@.len() ==> (#[trigger] final(self).prog_move_srcs@[k]).vreg
                    == old(self).prog_move_srcs@[k].vreg && final(self).prog_move_srcs@[k].inst == old(
                    self,
                ).prog_move_srcs@[k].inst,
            forall|k: int|
                0 <= k < final(self).prog_move_dsts@.len() ==> (#[trigger] final(self).prog_move_dsts@[k]).vreg
                    == old(self).prog_move_dsts@[k].vreg && final(self).prog_move_dsts@[k].inst == old(
                    self,
                ).prog_move_dsts@[k].inst,
    {
        let mut cursors = ScanCursors { blockparam_in: 0, blockparam_out: 0, prog_move_src: 0, prog_move_dst: 0 };
        assert(half_moves@ =~= Seq::<HalfMove>::empty());
        assert(reuse_insts@ =~= Seq::<Inst>::empty());
        let ghost goal = old(self).scan_vregs(lists, 0, old(self).scan_start());
        assert(self.scan_state(half_moves@, reuse_insts@, cursors) == old(self).scan_start());
        let num_vregs = self.vregs.len();
        let mut v: usize = 0;
        while v < num_vregs
            invariant
                v <= num_vregs,
                num_vregs == lists.len(),
                num_vregs == self.vregs@.len(),
                self.differs_in_scan(old(self)),
                self.ready_for_scan(lists),
                self.scan_in_order(half_moves@, reuse_insts@, cursors),
                forall|w: int| 0 <= w < lists.len() ==> self.vregs@[w].ranges@ == #[trigger] lists[w],
                old(self).scan_vregs(lists, v as int, self.scan_state(half_moves@, reuse_insts@, cursors)) == goal,
                moves_resolvable(old(self).inserted_moves@, old(self).func.insts@.len() as int) ==> moves_resolvable(
                    self.inserted_moves@,
                    old(self).func.insts@.len() as int,
                ),
                self.allocs@.len() == old(self).allocs@.len(),
                self.prog_move_srcs@.len() == old(self).prog_move_srcs@.len(),
                self.prog_move_dsts@.len() == old(self).prog_move_dsts@.len(),
                forall|k: int|
                    0 <= k < self.prog_move_srcs@.len() ==> (#[trigger] self.prog_move_srcs@[k]).vreg == old(
                        self,
                    ).prog_move_srcs@[k].vreg && self.prog_move_srcs@[k].inst == old(self).prog_move_srcs@[k].inst,
                forall|k: int|
                    0 <= k < self.prog_move_dsts@.len() ==> (#[trigger] self.prog_move_dsts@[k]).vreg == old(
                        self,
                    ).prog_move_dsts@[k].vreg && self.prog_move_dsts@[k].inst == old(self).prog_move_dsts@[k].inst,
            decreases num_vregs - v,
        {
            assert(self.vregs@[v as int].ranges@ == lists[v as int]);
            let num_ranges = self.vregs[v].ranges.len();
            let ghost inner = old(self).scan_ranges(
                lists,
                v as int,
                0,
                self.scan_state(half_moves@, reuse_insts@, cursors),
            );
            let mut i: usize = 0;
            while i < num_ranges
                invariant
                    i <= num_ranges,
                    v < num_vregs,
                    num_vregs == lists.len(),
                    num_vregs == self.vregs@.len(),
                    num_ranges == lists[v as int].len(),
                    self.differs_in_scan(old(self)),
                    self.ready_for_scan(lists),
                    self.scan_in_order(half_moves@, reuse_insts@, cursors),
                    forall|w: int| 0 <= w < lists.len() ==> self.vregs@[w].ranges@ == #[trigger] lists[w],
                    old(self).scan_ranges(
                        lists,
                        v as int,
                        i as int,
                        self.scan_state(half_moves@, reuse_insts@, cursors),
                    ) == inner,
                    moves_resolvable(old(self).inserted_moves@, old(self).func.insts@.len() as int)
                        ==> moves_resolvable(self.inserted_moves@, old(self).func.insts@.len() as int),
                    self.allocs@.len() == old(self).allocs@.len(),
                    self.prog_move_srcs@.len() == old(self).prog_move_srcs@.len(),
                    self.prog_move_dsts@.len() == old(self).prog_move_dsts@.len(),
                    forall|k: int|
                        0 <= k < self.prog_move_srcs@.len() ==> (#[trigger] self.prog_move_srcs@[k]).vreg == old(
                            self,
                        ).prog_move_srcs@[k].vreg && self.prog_move_srcs@[k].inst == old(
                            self,
                        ).prog_move_srcs@[k].inst,
                    forall|k: int|
                        0 <= k < self.prog_move_dsts@.len() ==> (#[trigger] self.prog_move_dsts@[k]).vreg == old(
                            self,
                        ).prog_move_dsts@[k].vreg && self.prog_move_dsts@[k].inst == old(
                            self,
                        ).prog_move_dsts@[k].inst,
                decreases num_ranges - i,
            {
                let ghost before = *self;
                let ghost st = self.scan_state(half_moves@, reuse_insts@, cursors);
                self.scan_one_range(v, i, half_moves, reuse_insts, &mut cursors, Ghost(lists));
                proof {
                    assert(before.scan_alloc(lists, v as int, i as int) == old(self).scan_alloc(
                        lists,
                        v as int,
                        i as int,
                    ));
                    assert(before.scan_range(lists, v as int, i as int, st) == old(self).scan_range(
                        lists,
                        v as int,
                        i as int,
                        st,
                    ));
                }
                i += 1;
            }
            v += 1;
        }
        cursors
    }
}

} // verus!
