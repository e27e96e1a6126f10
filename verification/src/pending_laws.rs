//! What holds of the pending moves that are recorded.

use vstd::prelude::*;
use crate::apply::{
    after_fixups,
    after_reuse,
    after_reuse_operands,
    Discovery,
    half_moves_in_order,
    prog_move_moves,
    prog_moves_pair_up,
};
use crate::discover::ScanState;
use crate::edits::{InsertedMove, InsertMovePrio};
use crate::env::{
    Env,
    LiveRangeListEntry,
    MultiFixedRegFixup,
    PRegData,
    ProgMove,
    spec_range_alloc,
    spec_slot_index,
};
use crate::function::{Function, InstData};
use crate::halfmove::{
    dest_moves,
    edge_moves,
    edge_placement,
    HalfMove,
    lemma_next_source_bounds,
    lemma_run_end_bounds,
    MoveError,
    next_source,
    run_end,
    spec_dest_key,
};
use crate::index::{Inst, InstPosition, ProgPoint};
use crate::locations::{Allocation, VReg};
use crate::operand::Operand;

verus! {

/// The moves that stand for the program moves lie before the instruction
/// that follows the source's, and both their ends have a location.
pub proof fn lemma_program_moves_are_placed(srcs: Seq<ProgMove>, dsts: Seq<ProgMove>, vreg_regs: Seq<VReg>)
    requires
        prog_moves_pair_up(srcs, dsts, vreg_regs.len() as int),
    ensures
        prog_move_moves(srcs, dsts, vreg_regs).len() == srcs.len(),
        forall|i: int|
            0 <= i < srcs.len() ==> {
                let m = #[trigger] prog_move_moves(srcs, dsts, vreg_regs)[i];
                &&& m.pos == ProgPoint::spec_before(Inst((srcs[i].inst.0 + 1) as usize))
                &&& m.prio == InsertMovePrio::Regular
                &&& m.from_alloc == srcs[i].alloc
                &&& m.to_alloc == dsts[i].alloc
                &&& m.from_alloc != Allocation::Unassigned
                &&& m.to_alloc != Allocation::Unassigned
            },
{
    assert forall|i: int| 0 <= i < srcs.len() implies {
        let m = #[trigger] prog_move_moves(srcs, dsts, vreg_regs)[i];
        &&& m.pos == ProgPoint::spec_before(Inst((srcs[i].inst.0 + 1) as usize))
        &&& m.from_alloc != Allocation::Unassigned
        &&& m.to_alloc != Allocation::Unassigned
    } by {
        assert(srcs[i].alloc != Allocation::Unassigned);
    }
}

pub(crate) proof fn lemma_push_keeps(moves: Seq<InsertedMove>, added: InsertedMove, m: InsertedMove)
    requires
        moves.contains(m) || added == m,
    ensures
        moves.push(added).contains(m),
{
    if moves.contains(m) {
        let at = choose|at: int| 0 <= at < moves.len() && moves[at] == m;
        assert(moves.push(added)[at] == m);
    } else {
        assert(moves.push(added)[moves.len() as int] == m);
    }
}

impl Env {
    /// The move that the scan records for the live range `i` of `v` when
    /// it begins where the range before it ends.
    pub open spec fn abutment_move(&self, lists: Seq<Seq<LiveRangeListEntry>>, v: int, i: int) -> InsertedMove {
        InsertedMove {
            pos: lists[v][i].range.from,
            prio: InsertMovePrio::Regular,
            from_alloc: spec_range_alloc(
                self.ranges@,
                self.bundles@,
                self.spillsets@,
                self.spillslots@,
                lists[v][i - 1].index,
            ),
            to_alloc: self.scan_alloc(lists, v, i),
            to_vreg: Some(self.vreg_regs@[v]),
        }
    }
}

proof fn lemma_range_keeps_moves(
    env: &Env,
    lists: Seq<Seq<LiveRangeListEntry>>,
    v: int,
    i: int,
    st: ScanState,
    m: InsertedMove,
)
    requires
        st.inserted_moves.contains(m),
    ensures
        env.scan_range(lists, v, i, st).inserted_moves.contains(m),
{
    let out = env.scan_range(lists, v, i, st).inserted_moves;
    if out != st.inserted_moves {
        lemma_push_keeps(st.inserted_moves, env.abutment_move(lists, v, i), m);
    }
}

proof fn lemma_ranges_keep_moves(
    env: &Env,
    lists: Seq<Seq<LiveRangeListEntry>>,
    v: int,
    i: int,
    st: ScanState,
    m: InsertedMove,
)
    requires
        st.inserted_moves.contains(m),
    ensures
        env.scan_ranges(lists, v, i, st).inserted_moves.contains(m),
    decreases lists[v].len() - i,
{
    if 0 <= i < lists[v].len() {
        lemma_range_keeps_moves(env, lists, v, i, st, m);
        lemma_ranges_keep_moves(env, lists, v, i + 1, env.scan_range(lists, v, i, st), m);
    }
}

proof fn lemma_vregs_keep_moves(env: &Env, lists: Seq<Seq<LiveRangeListEntry>>, v: int, st: ScanState, m: InsertedMove)
    requires
        st.inserted_moves.contains(m),
    ensures
        env.scan_vregs(lists, v, st).inserted_moves.contains(m),
    decreases lists.len() - v,
{
    if 0 <= v < lists.len() {
        lemma_ranges_keep_moves(env, lists, v, 0, st, m);
        lemma_vregs_keep_moves(env, lists, v + 1, env.scan_ranges(lists, v, 0, st), m);
    }
}

proof fn lemma_ranges_record_abutment(
    env: &Env,
    lists: Seq<Seq<LiveRangeListEntry>>,
    v: int,
    from: int,
    i: int,
    st: ScanState,
)
    requires
        0 <= from <= i < lists[v].len(),
        1 <= i,
        env.pinned_reg(v) is None,
        env.abuts(lists, v, i),
    ensures
        env.scan_ranges(lists, v, from, st).inserted_moves.contains(env.abutment_move(lists, v, i)),
    decreases i - from,
{
    if from == i {
        lemma_push_keeps(st.inserted_moves, env.abutment_move(lists, v, i), env.abutment_move(lists, v, i));
        lemma_ranges_keep_moves(
            env,
            lists,
            v,
            i + 1,
            env.scan_range(lists, v, i, st),
            env.abutment_move(lists, v, i),
        );
    } else {
        lemma_ranges_record_abutment(env, lists, v, from + 1, i, env.scan_range(lists, v, from, st));
    }
}

proof fn lemma_vregs_record_abutment(
    env: &Env,
    lists: Seq<Seq<LiveRangeListEntry>>,
    from: int,
    v: int,
    i: int,
    st: ScanState,
)
    requires
        0 <= from <= v < lists.len(),
        1 <= i < lists[v].len(),
        env.pinned_reg(v) is None,
        env.abuts(lists, v, i),
    ensures
        env.scan_vregs(lists, from, st).inserted_moves.contains(env.abutment_move(lists, v, i)),
    decreases v - from,
{
    if from == v {
        lemma_ranges_record_abutment(env, lists, v, 0, i, st);
        lemma_vregs_keep_moves(
            env,
            lists,
            v + 1,
            env.scan_ranges(lists, v, 0, st),
            env.abutment_move(lists, v, i),
        );
    } else {
        lemma_vregs_record_abutment(env, lists, from + 1, v, i, env.scan_ranges(lists, from, 0, st));
    }
}

pub(crate) proof fn lemma_dest_moves_keep(
    hms: Seq<HalfMove>,
    j: int,
    end: int,
    source: Allocation,
    pos: ProgPoint,
    prio: InsertMovePrio,
    vreg_regs: Seq<VReg>,
    last: Option<Allocation>,
    acc: Seq<InsertedMove>,
    m: InsertedMove,
)
    requires
        acc.contains(m),
    ensures
        dest_moves(hms, j, end, source, pos, prio, vreg_regs, last, acc).contains(m),
    decreases end - j,
{
    if 0 <= j < end {
        if last == Some(hms[j].alloc) {
            lemma_dest_moves_keep(hms, j + 1, end, source, pos, prio, vreg_regs, last, acc, m);
        } else {
            let added = InsertedMove {
                pos,
                prio,
                from_alloc: source,
                to_alloc: hms[j].alloc,
                to_vreg: Some(vreg_regs[hms[j].spec_to_vreg().0 as int]),
            };
            lemma_push_keeps(acc, added, m);
            lemma_dest_moves_keep(
                hms,
                j + 1,
                end,
                source,
                pos,
                prio,
                vreg_regs,
                Some(hms[j].alloc),
                acc.push(added),
                m,
            );
        }
    }
}

pub(crate) proof fn lemma_edge_moves_keep(
    func: &Function,
    vreg_regs: Seq<VReg>,
    hms: Seq<HalfMove>,
    i: int,
    acc: Seq<InsertedMove>,
    m: InsertedMove,
)
    requires
        acc.contains(m),
        edge_moves(func, vreg_regs, hms, i, acc) is Ok,
    ensures
        edge_moves(func, vreg_regs, hms, i, acc)->Ok_0.contains(m),
    decreases hms.len() - i,
{
    if 0 <= i < hms.len() {
        let s = next_source(hms, i);
        lemma_next_source_bounds(hms, i);
        if s < hms.len() {
            let source = hms[s];
            let end = run_end(hms, spec_dest_key(source.key), s + 1);
            lemma_run_end_bounds(hms, spec_dest_key(source.key), s + 1);
            match edge_placement(func, source.spec_from_block(), source.spec_to_block()) {
                None => {},
                Some((pos, prio)) => {
                    lemma_dest_moves_keep(hms, s + 1, end, source.alloc, pos, prio, vreg_regs, None, acc, m);
                    lemma_edge_moves_keep(
                        func,
                        vreg_regs,
                        hms,
                        end,
                        dest_moves(hms, s + 1, end, source.alloc, pos, prio, vreg_regs, None, acc),
                        m,
                    );
                },
            }
        }
    }
}

proof fn lemma_fixups_keep(
    fixups: Seq<MultiFixedRegFixup>,
    pregs: Seq<PRegData>,
    offsets: Seq<u32>,
    k: int,
    moves: Seq<InsertedMove>,
    allocs: Seq<Allocation>,
    m: InsertedMove,
)
    requires
        moves.contains(m),
    ensures
        after_fixups(fixups, pregs, offsets, k, moves, allocs).0.contains(m),
    decreases fixups.len() - k,
{
    if 0 <= k < fixups.len() {
        let f = fixups[k];
        let from = Allocation::Reg(pregs[f.from_preg.0 as int].reg);
        let to = Allocation::Reg(pregs[f.to_preg.0 as int].reg);
        let added = InsertedMove {
            pos: f.pos,
            prio: InsertMovePrio::MultiFixedReg,
            from_alloc: from,
            to_alloc: to,
            to_vreg: None,
        };
        lemma_push_keeps(moves, added, m);
        lemma_fixups_keep(
            fixups,
            pregs,
            offsets,
            k + 1,
            moves.push(added),
            allocs.update(spec_slot_index(offsets, f.pos.spec_inst(), f.slot as int), to),
            m,
        );
    }
}

proof fn lemma_reuse_operands_keep(
    operands: Seq<Operand>,
    inst: Inst,
    offsets: Seq<u32>,
    k: int,
    moves: Seq<InsertedMove>,
    allocs: Seq<Allocation>,
    m: InsertedMove,
)
    requires
        moves.contains(m),
    ensures
        after_reuse_operands(operands, inst, offsets, k, moves, allocs).0.contains(m),
    decreases operands.len() - k,
{
    if 0 <= k < operands.len() {
        match operands[k].spec_reused_input() {
            Some(input) => {
                let input_alloc = allocs[spec_slot_index(offsets, inst, input as int)];
                let output_alloc = allocs[spec_slot_index(offsets, inst, k)];
                if input_alloc != output_alloc {
                    let added = InsertedMove {
                        pos: ProgPoint::spec_before(inst),
                        prio: InsertMovePrio::ReusedInput,
                        from_alloc: input_alloc,
                        to_alloc: output_alloc,
                        to_vreg: Some(operands[input as int].vreg),
                    };
                    lemma_push_keeps(moves, added, m);
                    lemma_reuse_operands_keep(
                        operands,
                        inst,
                        offsets,
                        k + 1,
                        moves.push(added),
                        allocs.update(spec_slot_index(offsets, inst, input as int), output_alloc),
                        m,
                    );
                } else {
                    lemma_reuse_operands_keep(operands, inst, offsets, k + 1, moves, allocs, m);
                }
            },
            None => {
                lemma_reuse_operands_keep(operands, inst, offsets, k + 1, moves, allocs, m);
            },
        }
    }
}

proof fn lemma_reuse_keeps(
    insts: Seq<InstData>,
    offsets: Seq<u32>,
    noted: Seq<Inst>,
    n: int,
    moves: Seq<InsertedMove>,
    allocs: Seq<Allocation>,
    m: InsertedMove,
)
    requires
        moves.contains(m),
    ensures
        after_reuse(insts, offsets, noted, n, moves, allocs).0.contains(m),
    decreases noted.len() - n,
{
    if 0 <= n < noted.len() {
        let operands = insts[noted[n].0 as int].operands@;
        lemma_reuse_operands_keep(operands, noted[n], offsets, 0, moves, allocs, m);
        let (moves2, allocs2) = after_reuse_operands(operands, noted[n], offsets, 0, moves, allocs);
        lemma_reuse_keeps(insts, offsets, noted, n + 1, moves2, allocs2, m);
    }
}

/// A move along an edge is among the pending moves in the end.
pub proof fn lemma_edge_moves_stay(env: &Env, found: Discovery, m: InsertedMove)
    requires
        env.discovery() == Ok::<Discovery, MoveError>(found),
        env.edge_result()->Ok_0.contains(m),
    ensures
        found.inserted_moves.contains(m),
{
    let st = env.scanned();
    let moves = env.edge_result()->Ok_0;
    lemma_fixups_keep(env.multi_fixed_reg_fixups@, env.pregs@, env.inst_alloc_offsets@, 0, moves, st.allocs, m);
    lemma_reuse_keeps(
        env.func.insts@,
        env.inst_alloc_offsets@,
        st.reuse_insts,
        0,
        env.fixed_up(moves).0,
        env.fixed_up(moves).1,
        m,
    );
    let kept = env.reused(moves).0;
    let at = choose|at: int| 0 <= at < kept.len() && kept[at] == m;
    assert(found.inserted_moves[at] == m);
}

/// A move that the scan records is among the pending moves in the end.
pub proof fn lemma_scanned_moves_stay(env: &Env, found: Discovery, m: InsertedMove)
    requires
        env.discovery() == Ok::<Discovery, MoveError>(found),
        env.scanned().inserted_moves.contains(m),
    ensures
        found.inserted_moves.contains(m),
{
    let st = env.scanned();
    lemma_edge_moves_keep(&env.func, env.vreg_regs@, half_moves_in_order(st.half_moves), 0, st.inserted_moves, m);
    lemma_edge_moves_stay(env, found, m);
}

/// Where a live range of a virtual register that is not pinned begins at
/// the point where the range before it ends, inside a block and not at a
/// definition, a move from the location of the range before to its own is
/// pending at that point, which lies before an instruction, with the
/// priority `Regular`.
pub proof fn lemma_abutting_ranges_get_a_move(
    env: &Env,
    found: Discovery,
    v: int,
    i: int,
)
    requires
        env.ready_for_discovery(),
        env.discovery() == Ok::<Discovery, MoveError>(found),
        0 <= v < env.vregs@.len(),
        1 <= i < env.sorted_lists()[v].len(),
        env.pinned_reg(v) is None,
        env.abuts(env.sorted_lists(), v, i),
    ensures
        found.inserted_moves.contains(env.abutment_move(env.sorted_lists(), v, i)),
        env.abutment_move(env.sorted_lists(), v, i).pos.spec_pos() == InstPosition::Before,
        env.abutment_move(env.sorted_lists(), v, i).pos == env.ranges@[env.sorted_lists()[v][i - 1].index.0 as int].range.to,
{
    let lists = env.sorted_lists();
    lemma_vregs_record_abutment(env, lists, 0, v, i, env.scan_start());
    lemma_scanned_moves_stay(env, found, env.abutment_move(lists, v, i));
}

} // verus!
