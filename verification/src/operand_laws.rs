//! What holds of the operand slots once the locations are written.

use vstd::prelude::*;
use crate::apply::after_reuse_operands;
use crate::discover::ScanState;
use crate::edits::{InsertedMove, InsertMovePrio};
use crate::env::{Env, LiveRangeListEntry, SLOT_NONE, spec_slot_index, Use};
use crate::function::reuse_is_proper;
use crate::index::{Inst, ProgPoint};
use crate::locations::Allocation;
use crate::operand::Operand;
use crate::scan::{after_uses, uses_ok};

verus! {

/// For a pinned virtual register the scan finds no move and no half-move:
/// a live range of it only has the register written into the operand slots
/// of its uses and given to the ends of program moves that it covers.
pub proof fn lemma_pinned_range_finds_no_move(
    env: &Env,
    lists: Seq<Seq<LiveRangeListEntry>>,
    v: int,
    i: int,
    st: ScanState,
)
    requires
        env.pinned_reg(v) is Some,
    ensures
        ({
            let out = env.scan_range(lists, v, i, st);
            &&& out.half_moves == st.half_moves
            &&& out.inserted_moves == st.inserted_moves
            &&& out.blockparam_allocs == st.blockparam_allocs
            &&& out.in_idx == st.in_idx
            &&& out.out_idx == st.out_idx
            &&& out.allocs == after_uses(
                env.ranges@[lists[v][i].index.0 as int].uses@,
                env.inst_alloc_offsets@,
                Allocation::Reg(env.pinned_reg(v)->0),
                0,
                st.allocs,
                st.reuse_insts,
            ).0
        }),
{
}

/// The use has an operand slot, and it is slot `k` of `allocs`.
pub open spec fn use_writes(usedata: Use, offsets: Seq<u32>, k: int) -> bool {
    usedata.slot != SLOT_NONE && spec_slot_index(offsets, usedata.pos.spec_inst(), usedata.slot as int) == k
}

/// One of the uses from position `from` on writes slot `k`.
pub open spec fn uses_write(uses: Seq<Use>, offsets: Seq<u32>, from: int, k: int) -> bool {
    exists|u: int| from <= u < uses.len() && use_writes(#[trigger] uses[u], offsets, k)
}

impl Env {
    /// A use of the live range `i` of the virtual register `v` writes
    /// slot `k`.
    pub open spec fn range_writes(&self, lists: Seq<Seq<LiveRangeListEntry>>, v: int, i: int, k: int) -> bool {
        uses_write(self.ranges@[lists[v][i].index.0 as int].uses@, self.inst_alloc_offsets@, 0, k)
    }

    /// A live range of `v` from position `from` on writes slot `k`.
    pub open spec fn ranges_write(&self, lists: Seq<Seq<LiveRangeListEntry>>, v: int, from: int, k: int) -> bool {
        exists|j: int| from <= j < lists[v].len() && #[trigger] self.range_writes(lists, v, j, k)
    }

    /// A live range of a virtual register from `from` on writes slot `k`.
    pub open spec fn vregs_write(&self, lists: Seq<Seq<LiveRangeListEntry>>, from: int, k: int) -> bool {
        exists|w: int| from <= w < lists.len() && #[trigger] self.ranges_write(lists, w, 0, k)
    }
}

proof fn lemma_uses_write_slots(
    uses: Seq<Use>,
    offsets: Seq<u32>,
    alloc: Allocation,
    u: int,
    allocs: Seq<Allocation>,
    reuse: Seq<Inst>,
    k: int,
)
    requires
        0 <= u,
        0 <= k < allocs.len(),
        uses_ok(uses, offsets, allocs.len() as int),
    ensures
        after_uses(uses, offsets, alloc, u, allocs, reuse).0.len() == allocs.len(),
        after_uses(uses, offsets, alloc, u, allocs, reuse).0[k] == if uses_write(uses, offsets, u, k) {
            alloc
        } else {
            allocs[k]
        },
    decreases uses.len() - u,
{
    if u < uses.len() {
        let usedata = uses[u];
        let inst = usedata.pos.spec_inst();
        let written = if usedata.slot != SLOT_NONE {
            allocs.update(spec_slot_index(offsets, inst, usedata.slot as int), alloc)
        } else {
            allocs
        };
        let noted = if usedata.operand.spec_is_reuse() {
            reuse.push(inst)
        } else {
            reuse
        };
        lemma_uses_write_slots(uses, offsets, alloc, u + 1, written, noted, k);
        if uses_write(uses, offsets, u + 1, k) {
            let w = choose|w: int| u + 1 <= w < uses.len() && use_writes(#[trigger] uses[w], offsets, k);
            assert(use_writes(uses[w], offsets, k));
        } else if use_writes(usedata, offsets, k) {
            assert(use_writes(uses[u], offsets, k));
        } else if uses_write(uses, offsets, u, k) {
            let w = choose|w: int| u <= w < uses.len() && use_writes(#[trigger] uses[w], offsets, k);
            assert(w >= u + 1);
            assert(use_writes(uses[w], offsets, k));
        }
    }
}

proof fn lemma_range_writes_slots(env: &Env, lists: Seq<Seq<LiveRangeListEntry>>, v: int, i: int, st: ScanState, k: int)
    requires
        env.ready_for_scan(lists),
        0 <= v < lists.len(),
        0 <= i < lists[v].len(),
        st.allocs.len() == env.allocs@.len(),
        0 <= k < st.allocs.len(),
    ensures
        env.scan_range(lists, v, i, st).allocs.len() == st.allocs.len(),
        env.scan_range(lists, v, i, st).allocs[k] == if env.range_writes(lists, v, i, k) {
            env.scan_alloc(lists, v, i)
        } else {
            st.allocs[k]
        },
{
    let r = lists[v][i].index.0 as int;
    let uses = env.ranges@[r].uses@;
    assert(uses_ok(uses, env.inst_alloc_offsets@, st.allocs.len() as int)) by {
        assert forall|u: int| 0 <= u < uses.len() implies {
            &&& (#[trigger] uses[u]).pos.spec_inst().0 < env.inst_alloc_offsets@.len()
            &&& uses[u].slot != SLOT_NONE ==> spec_slot_index(
                env.inst_alloc_offsets@,
                uses[u].pos.spec_inst(),
                uses[u].slot as int,
            ) < st.allocs.len()
        } by {
            let usedata = env.ranges@[r].uses@[u];
        }
    }
    lemma_uses_write_slots(
        uses,
        env.inst_alloc_offsets@,
        env.scan_alloc(lists, v, i),
        0,
        st.allocs,
        st.reuse_insts,
        k,
    );
}

proof fn lemma_ranges_keep_slot(env: &Env, lists: Seq<Seq<LiveRangeListEntry>>, v: int, i: int, st: ScanState, k: int)
    requires
        env.ready_for_scan(lists),
        0 <= v < lists.len(),
        0 <= i,
        st.allocs.len() == env.allocs@.len(),
        0 <= k < st.allocs.len(),
    ensures
        env.scan_ranges(lists, v, i, st).allocs.len() == st.allocs.len(),
        !env.ranges_write(lists, v, i, k) ==> env.scan_ranges(lists, v, i, st).allocs[k] == st.allocs[k],
    decreases lists[v].len() - i,
{
    if i < lists[v].len() {
        lemma_range_writes_slots(env, lists, v, i, st, k);
        lemma_ranges_keep_slot(env, lists, v, i + 1, env.scan_range(lists, v, i, st), k);
        if !env.ranges_write(lists, v, i, k) {
            assert(!env.range_writes(lists, v, i, k));
            if env.ranges_write(lists, v, i + 1, k) {
                let j = choose|j: int| i + 1 <= j < lists[v].len() && #[trigger] env.range_writes(lists, v, j, k);
                assert(env.range_writes(lists, v, j, k));
            }
        }
    }
}

proof fn lemma_ranges_write_slot(
    env: &Env,
    lists: Seq<Seq<LiveRangeListEntry>>,
    v: int,
    from: int,
    i: int,
    st: ScanState,
    k: int,
)
    requires
        env.ready_for_scan(lists),
        0 <= v < lists.len(),
        0 <= from <= i < lists[v].len(),
        st.allocs.len() == env.allocs@.len(),
        0 <= k < st.allocs.len(),
        env.range_writes(lists, v, i, k),
        !env.ranges_write(lists, v, i + 1, k),
    ensures
        env.scan_ranges(lists, v, from, st).allocs[k] == env.scan_alloc(lists, v, i),
    decreases i - from,
{
    lemma_range_writes_slots(env, lists, v, from, st, k);
    if from == i {
        lemma_ranges_keep_slot(env, lists, v, i + 1, env.scan_range(lists, v, i, st), k);
    } else {
        lemma_ranges_write_slot(env, lists, v, from + 1, i, env.scan_range(lists, v, from, st), k);
    }
}

proof fn lemma_vregs_keep_slot(env: &Env, lists: Seq<Seq<LiveRangeListEntry>>, v: int, st: ScanState, k: int)
    requires
        env.ready_for_scan(lists),
        0 <= v,
        st.allocs.len() == env.allocs@.len(),
        0 <= k < st.allocs.len(),
    ensures
        env.scan_vregs(lists, v, st).allocs.len() == st.allocs.len(),
        !env.vregs_write(lists, v, k) ==> env.scan_vregs(lists, v, st).allocs[k] == st.allocs[k],
    decreases lists.len() - v,
{
    if v < lists.len() {
        lemma_ranges_keep_slot(env, lists, v, 0, st, k);
        lemma_vregs_keep_slot(env, lists, v + 1, env.scan_ranges(lists, v, 0, st), k);
        if !env.vregs_write(lists, v, k) {
            assert(!env.ranges_write(lists, v, 0, k));
            if env.vregs_write(lists, v + 1, k) {
                let w = choose|w: int| v + 1 <= w < lists.len() && #[trigger] env.ranges_write(lists, w, 0, k);
                assert(env.ranges_write(lists, w, 0, k));
            }
        }
    }
}

proof fn lemma_vregs_write_slot(
    env: &Env,
    lists: Seq<Seq<LiveRangeListEntry>>,
    from: int,
    v: int,
    i: int,
    st: ScanState,
    k: int,
)
    requires
        env.ready_for_scan(lists),
        0 <= from <= v < lists.len(),
        0 <= i < lists[v].len(),
        st.allocs.len() == env.allocs@.len(),
        0 <= k < st.allocs.len(),
        env.range_writes(lists, v, i, k),
        !env.ranges_write(lists, v, i + 1, k),
        !env.vregs_write(lists, v + 1, k),
    ensures
        env.scan_vregs(lists, from, st).allocs[k] == env.scan_alloc(lists, v, i),
    decreases v - from,
{
    lemma_ranges_keep_slot(env, lists, from, 0, st, k);
    if from == v {
        lemma_ranges_write_slot(env, lists, v, 0, i, st, k);
        lemma_vregs_keep_slot(env, lists, v + 1, env.scan_ranges(lists, v, 0, st), k);
    } else {
        lemma_vregs_write_slot(env, lists, from + 1, v, i, env.scan_ranges(lists, from, 0, st), k);
    }
}

/// The scan leaves in every operand slot the location of the live range
/// whose use names the slot.
///
/// Where several live ranges have a use that names one slot, the range
/// that the scan looks at last decides: so the statement is for a use of
/// the live range `i` of the virtual register `v` whose slot no later live
/// range of `v`, and no live range of a later virtual register, names.
pub proof fn lemma_scan_finalizes_operands(env: &Env, lists: Seq<Seq<LiveRangeListEntry>>, v: int, i: int, u: int)
    requires
        env.ready_for_scan(lists),
        0 <= v < lists.len(),
        0 <= i < lists[v].len(),
        0 <= u < env.ranges@[lists[v][i].index.0 as int].uses@.len(),
        env.ranges@[lists[v][i].index.0 as int].uses@[u].slot != SLOT_NONE,
        ({
            let usedata = env.ranges@[lists[v][i].index.0 as int].uses@[u];
            let k = spec_slot_index(env.inst_alloc_offsets@, usedata.pos.spec_inst(), usedata.slot as int);
            !env.ranges_write(lists, v, i + 1, k) && !env.vregs_write(lists, v + 1, k)
        }),
    ensures
        ({
            let usedata = env.ranges@[lists[v][i].index.0 as int].uses@[u];
            let k = spec_slot_index(env.inst_alloc_offsets@, usedata.pos.spec_inst(), usedata.slot as int);
            &&& 0 <= k < env.allocs@.len()
            &&& env.scan_vregs(lists, 0, env.scan_start()).allocs.len() == env.allocs@.len()
            &&& env.scan_vregs(lists, 0, env.scan_start()).allocs[k] == env.scan_alloc(lists, v, i)
        }),
{
    let r = lists[v][i].index.0 as int;
    let usedata = env.ranges@[r].uses@[u];
    let k = spec_slot_index(env.inst_alloc_offsets@, usedata.pos.spec_inst(), usedata.slot as int);
    assert(use_writes(env.ranges@[r].uses@[u], env.inst_alloc_offsets@, k));
    assert(env.range_writes(lists, v, i, k));
    lemma_vregs_keep_slot(env, lists, 0, env.scan_start(), k);
    lemma_vregs_write_slot(env, lists, 0, v, i, env.scan_start(), k);
}

/// No operand that is reused as an input itself reuses an input.
pub open spec fn reused_inputs_are_plain(operands: Seq<Operand>) -> bool {
    forall|k: int|
        0 <= k < operands.len() && (#[trigger] operands[k]).spec_is_reuse() ==> {
            let input = operands[k].spec_reused_input()->0 as int;
            !operands[input].spec_is_reuse()
        }
}

/// Some operand from position `k` on reuses the input `x`.
pub open spec fn is_reused_from(operands: Seq<Operand>, k: int, x: int) -> bool {
    exists|j: int| k <= j < operands.len() && (#[trigger] operands[j]).spec_is_reuse() && operands[j].spec_reused_input()->0 == x
}

proof fn lemma_reuse_keeps_slot(
    operands: Seq<Operand>,
    inst: Inst,
    offsets: Seq<u32>,
    k: int,
    moves: Seq<InsertedMove>,
    allocs: Seq<Allocation>,
    x: int,
)
    requires
        0 <= k,
        0 <= inst.0 < offsets.len(),
        offsets[inst.0 as int] + operands.len() <= allocs.len(),
        reuse_is_proper(operands),
        reused_inputs_are_plain(operands),
        0 <= x < operands.len(),
        !is_reused_from(operands, k, x),
    ensures
        after_reuse_operands(operands, inst, offsets, k, moves, allocs).1.len() == allocs.len(),
        after_reuse_operands(operands, inst, offsets, k, moves, allocs).1[spec_slot_index(offsets, inst, x)]
            == allocs[spec_slot_index(offsets, inst, x)],
    decreases operands.len() - k,
{
    if k < operands.len() {
        assert(!is_reused_from(operands, k + 1, x)) by {
            if is_reused_from(operands, k + 1, x) {
                let t = choose|t: int|
                    k + 1 <= t < operands.len() && (#[trigger] operands[t]).spec_is_reuse()
                        && operands[t].spec_reused_input()->0 == x;
                assert(operands[t].spec_is_reuse());
            }
        }
        match operands[k].spec_reused_input() {
            Some(input) => {
                assert(operands[k].spec_is_reuse());
                assert(input != x);
                let input_alloc = allocs[spec_slot_index(offsets, inst, input as int)];
                let output_alloc = allocs[spec_slot_index(offsets, inst, k)];
                if input_alloc != output_alloc {
                    let added = InsertedMove {
                        pos: ProgPoint::spec_before(inst),
                        prio: InsertMovePrio::ReusedInput,
                        from_alloc: input_alloc,
                        to_alloc: output_alloc,
                        to_vreg: Some(operands[input as int].vreg),
                    };
                    lemma_reuse_keeps_slot(
                        operands,
                        inst,
                        offsets,
                        k + 1,
                        moves.push(added),
                        allocs.update(spec_slot_index(offsets, inst, input as int), output_alloc),
                        x,
                    );
                } else {
                    lemma_reuse_keeps_slot(operands, inst, offsets, k + 1, moves, allocs, x);
                }
            },
            None => {
                lemma_reuse_keeps_slot(operands, inst, offsets, k + 1, moves, allocs, x);
            },
        }
    }
}

/// Once the reused inputs of an instruction are handled, the slot of each
/// reused input holds the location of the output that reuses it, and the
/// slot of the output holds what it held.
///
/// This rests on no input being reused twice: with two outputs reusing one
/// input, the input's slot could hold the location of only one of them.
/// It also asks that a reused input does not itself reuse an input.
pub proof fn lemma_reused_input_takes_output_location(
    operands: Seq<Operand>,
    inst: Inst,
    offsets: Seq<u32>,
    k: int,
    moves: Seq<InsertedMove>,
    allocs: Seq<Allocation>,
    j: int,
)
    requires
        0 <= k <= j < operands.len(),
        0 <= inst.0 < offsets.len(),
        offsets[inst.0 as int] + operands.len() <= allocs.len(),
        reuse_is_proper(operands),
        reused_inputs_are_plain(operands),
        operands[j].spec_is_reuse(),
    ensures
        ({
            let out = after_reuse_operands(operands, inst, offsets, k, moves, allocs).1;
            let input = operands[j].spec_reused_input()->0 as int;
            &&& out[spec_slot_index(offsets, inst, input)] == allocs[spec_slot_index(offsets, inst, j)]
            &&& out[spec_slot_index(offsets, inst, j)] == allocs[spec_slot_index(offsets, inst, j)]
        }),
    decreases j - k,
{
    let input = operands[j].spec_reused_input()->0 as int;
    assert(!is_reused_from(operands, k, j)) by {
        if is_reused_from(operands, k, j) {
            let t = choose|t: int|
                k <= t < operands.len() && (#[trigger] operands[t]).spec_is_reuse()
                    && operands[t].spec_reused_input()->0 == j;
            assert(operands[t].spec_is_reuse());
        }
    }
    lemma_reuse_keeps_slot(operands, inst, offsets, k, moves, allocs, j);
    if k == j {
        let input_alloc = allocs[spec_slot_index(offsets, inst, input)];
        let output_alloc = allocs[spec_slot_index(offsets, inst, j)];
        assert(!is_reused_from(operands, j + 1, input)) by {
            if is_reused_from(operands, j + 1, input) {
                let t = choose|t: int|
                    j + 1 <= t < operands.len() && (#[trigger] operands[t]).spec_is_reuse()
                        && operands[t].spec_reused_input()->0 == input;
                assert(operands[t].spec_is_reuse());
            }
        }
        if input_alloc != output_alloc {
            let added = InsertedMove {
                pos: ProgPoint::spec_before(inst),
                prio: InsertMovePrio::ReusedInput,
                from_alloc: input_alloc,
                to_alloc: output_alloc,
                to_vreg: Some(operands[input].vreg),
            };
            lemma_reuse_keeps_slot(
                operands,
                inst,
                offsets,
                j + 1,
                moves.push(added),
                allocs.update(spec_slot_index(offsets, inst, input), output_alloc),
                input,
            );
        } else {
            lemma_reuse_keeps_slot(operands, inst, offsets, j + 1, moves, allocs, input);
        }
    } else {
        match operands[k].spec_reused_input() {
            Some(other) => {
                assert(operands[k].spec_is_reuse());
                assert(other as int != j);
                let input_alloc = allocs[spec_slot_index(offsets, inst, other as int)];
                let output_alloc = allocs[spec_slot_index(offsets, inst, k)];
                if input_alloc != output_alloc {
                    let added = InsertedMove {
                        pos: ProgPoint::spec_before(inst),
                        prio: InsertMovePrio::ReusedInput,
                        from_alloc: input_alloc,
                        to_alloc: output_alloc,
                        to_vreg: Some(operands[other as int].vreg),
                    };
                    lemma_reused_input_takes_output_location(
                        operands,
                        inst,
                        offsets,
                        k + 1,
                        moves.push(added),
                        allocs.update(spec_slot_index(offsets, inst, other as int), output_alloc),
                        j,
                    );
                } else {
                    lemma_reused_input_takes_output_location(operands, inst, offsets, k + 1, moves, allocs, j);
                }
            },
            None => {
                lemma_reused_input_takes_output_location(operands, inst, offsets, k + 1, moves, allocs, j);
            },
        }
    }
}

} // verus!
