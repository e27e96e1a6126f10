//! From pending moves to the ordered list of edits.

use vstd::prelude::*;
use crate::edits::{Edit, InsertedMove, InsertMovePrio, spec_place_key};
use crate::env::{
    BlockparamAlloc,
    EditEntry,
    Env,
    MAX_SPILLSLOTS,
    move_classes_agree,
    move_fits,
    Stats,
};
use crate::function::{CFGInfo, Function, InstData};
use crate::index::{Inst, InstPosition, MAX_INSTS, MAX_POINT, ProgPoint};
use crate::locations::{Allocation, PReg, RegClass, SpillSlot, VReg};
use crate::operand::Operand;
use crate::parallel::{is_drawn_from, Move, ParallelMoves, resolved_moves};
use crate::redundant::{action_for_move, forget, Known, RedundantMoveEliminator, state_after_move};
use crate::smallbuf::{buf_get, buf_len, buf_new, buf_push, buffered_moves, MoveBuf};
use crate::sorting::{is_stable_order, sort_by_keys, stable_order, stable_sorted};

verus! {

/// An edit that would change nothing: a move of an allocation onto itself
/// that names no virtual register.
pub open spec fn edit_is_noop(edit: Edit) -> bool {
    edit matches Edit::Move { from, to, to_vreg } && from == to && to_vreg is None
}

/// A move between two registers stays within one class.
pub open spec fn edit_classes_agree(edit: Edit) -> bool {
    edit matches Edit::Move { from, to, to_vreg } ==> move_classes_agree(from, to)
}

/// The list of edits after `edit` is added at `pos` with `prio`: appended,
/// unless it would change nothing.
pub open spec fn with_edit(edits: Seq<EditEntry>, pos: ProgPoint, prio: InsertMovePrio, edit: Edit) -> Seq<
    EditEntry,
> {
    if edit_is_noop(edit) {
        edits
    } else {
        edits.push((pos.bits, prio, edit))
    }
}

/// No edit in the list is a move of an allocation onto itself that names no
/// virtual register.
pub open spec fn no_noop_edits(edits: Seq<EditEntry>) -> bool {
    forall|i: int| 0 <= i < edits.len() ==> !edit_is_noop((#[trigger] edits[i]).2)
}

/// An edit that copies from one stack slot to another.
pub open spec fn edit_is_stack_to_stack(edit: Edit) -> bool {
    edit matches Edit::Move { from, to, to_vreg } && from is Stack && to is Stack
}

/// No edit in the list copies from one stack slot to another.
pub open spec fn no_stack_to_stack_edits(edits: Seq<EditEntry>) -> bool {
    forall|i: int| 0 <= i < edits.len() ==> !edit_is_stack_to_stack((#[trigger] edits[i]).2)
}

/// Every edit in the list lies at a program point that exists.
pub open spec fn edits_in_bounds(edits: Seq<EditEntry>) -> bool {
    forall|i: int| 0 <= i < edits.len() ==> (#[trigger] edits[i]).0 <= MAX_POINT
}

/// Appends an edit, unless it would change nothing.
pub fn push_edit(edits: &mut Vec<EditEntry>, pos: ProgPoint, prio: InsertMovePrio, edit: Edit)
    requires
        edit_classes_agree(edit),
    ensures
        final(edits)@ == with_edit(old(edits)@, pos, prio, edit),
        no_noop_edits(old(edits)@) ==> no_noop_edits(final(edits)@),
        no_stack_to_stack_edits(old(edits)@) && !edit_is_stack_to_stack(edit) ==> no_stack_to_stack_edits(
            final(edits)@,
        ),
        edits_in_bounds(old(edits)@) && pos.bits <= MAX_POINT ==> edits_in_bounds(final(edits)@),
{
    match edit {
        Edit::Move { from, to, to_vreg } => {
            if from == to && to_vreg.is_none() {
                return ;
            }
        },
        _ => {},
    }
    edits.push((pos.to_index(), prio, edit));
}

impl Env {
    /// Appends an edit at `pos` with `prio`, unless it is a move of an
    /// allocation onto itself that names no virtual register.
    pub fn add_edit(&mut self, pos: ProgPoint, prio: InsertMovePrio, edit: Edit)
        requires
            edit_classes_agree(edit),
        ensures
            final(self).edits@ == with_edit(old(self).edits@, pos, prio, edit),
            no_noop_edits(old(self).edits@) ==> no_noop_edits(final(self).edits@),
            no_stack_to_stack_edits(old(self).edits@) && !edit_is_stack_to_stack(edit) ==> no_stack_to_stack_edits(
                final(self).edits@,
            ),
            *final(self) == (Env { edits: final(self).edits, ..*old(self) }),
    {
        push_edit(&mut self.edits, pos, prio, edit);
    }
}

/// The first instruction that lies wholly at or behind a program point.
pub open spec fn first_inst_from(point: ProgPoint) -> int {
    if point.spec_pos() == InstPosition::Before {
        point.spec_inst().0 as int
    } else {
        point.spec_inst().0 + 1
    }
}

/// What is still known once the operands `i`, `i + 1`, .. of an instruction
/// have been written where the instruction writes them.
pub open spec fn after_operand_writes(
    known: Map<Allocation, Known>,
    operands: Seq<Operand>,
    allocs: Seq<Allocation>,
    base: int,
    i: int,
) -> Map<Allocation, Known>
    decreases operands.len() - i,
{
    if i < 0 || i >= operands.len() {
        known
    } else if operands[i].spec_is_written() {
        after_operand_writes(forget(known, allocs[base + i]), operands, allocs, base, i + 1)
    } else {
        after_operand_writes(known, operands, allocs, base, i + 1)
    }
}

/// What is still known once the registers `i`, `i + 1`, .. of a clobber
/// list have been overwritten.
pub open spec fn after_clobbers(known: Map<Allocation, Known>, clobbers: Seq<PReg>, i: int) -> Map<
    Allocation,
    Known,
>
    decreases clobbers.len() - i,
{
    if i < 0 || i >= clobbers.len() {
        known
    } else {
        after_clobbers(forget(known, Allocation::Reg(clobbers[i])), clobbers, i + 1)
    }
}

/// What is still known once the instructions `inst`, .., `end - 1` have
/// run: each forgets what its written operands and its clobbers held.
pub open spec fn after_insts(
    known: Map<Allocation, Known>,
    insts: Seq<InstData>,
    allocs: Seq<Allocation>,
    offsets: Seq<u32>,
    inst: int,
    end: int,
) -> Map<Allocation, Known>
    decreases end - inst,
{
    if inst < 0 || inst >= end {
        known
    } else {
        let written = after_operand_writes(known, insts[inst].operands@, allocs, offsets[inst] as int, 0);
        let clobbered = after_clobbers(written, insts[inst].clobbers@, 0);
        after_insts(clobbered, insts, allocs, offsets, inst + 1, end)
    }
}

/// Some instruction from `lo` to `hi`, both included, is a safepoint.
pub open spec fn has_safepoint(insts: Seq<InstData>, lo: int, hi: int) -> bool {
    exists|i: int| lo <= i <= hi && 0 <= i < insts.len() && (#[trigger] insts[i]).is_safepoint
}

/// What is still known at `to` of what was known at `from`.
///
/// Nothing, if the two points lie in different blocks or a safepoint lies
/// between them. Otherwise whatever the instructions that run between the
/// two points do not write.
pub open spec fn after_side_effects(
    known: Map<Allocation, Known>,
    func: &Function,
    cfginfo: &CFGInfo,
    allocs: Seq<Allocation>,
    offsets: Seq<u32>,
    from: ProgPoint,
    to: ProgPoint,
) -> Map<Allocation, Known> {
    if cfginfo.insn_block@[from.spec_inst().0 as int] != cfginfo.insn_block@[to.spec_inst().0 as int]
        || has_safepoint(func.insts@, from.spec_inst().0 as int, to.spec_inst().0 as int) {
        Map::empty()
    } else {
        after_insts(known, func.insts@, allocs, offsets, first_inst_from(from), first_inst_from(to))
    }
}

/// The operand slots of every instruction lie within `allocs`.
pub open spec fn slots_fit(func: &Function, allocs: Seq<Allocation>, offsets: Seq<u32>) -> bool {
    &&& offsets.len() == func.insts@.len()
    &&& forall|i: int|
        0 <= i < func.insts@.len() ==> (#[trigger] offsets[i]) + func.insts@[i].operands@.len() <= allocs.len()
}

fn forget_written(
    elim: &mut RedundantMoveEliminator,
    func: &Function,
    allocs: &Vec<Allocation>,
    offsets: &Vec<u32>,
    inst: Inst,
)
    requires
        old(elim).wf(),
        slots_fit(func, allocs@, offsets@),
        inst.0 < func.insts@.len(),
    ensures
        final(elim).wf(),
        final(elim)@ == after_clobbers(
            after_operand_writes(
                old(elim)@,
                func.insts@[inst.0 as int].operands@,
                allocs@,
                offsets@[inst.0 as int] as int,
                0,
            ),
            func.insts@[inst.0 as int].clobbers@,
            0,
        ),
{
    let operands = func.inst_operands(inst);
    let base = offsets[inst.0] as usize;
    let ghost goal = after_operand_writes(elim@, operands@, allocs@, base as int, 0);
    let mut i: usize = 0;
    while i < operands.len()
        invariant
            i <= operands@.len(),
            elim.wf(),
            base + operands@.len() <= allocs@.len(),
            after_operand_writes(elim@, operands@, allocs@, base as int, i as int) == goal,
        decreases operands@.len() - i,
    {
        assert(allocs@.len() == allocs.len());
        if operands[i].is_written() {
            elim.clear_alloc(allocs[base + i]);
        }
        i += 1;
    }
    let clobbers = func.inst_clobbers(inst);
    let ghost goal2 = after_clobbers(elim@, clobbers@, 0);
    let mut k: usize = 0;
    while k < clobbers.len()
        invariant
            k <= clobbers@.len(),
            elim.wf(),
            after_clobbers(elim@, clobbers@, k as int) == goal2,
        decreases clobbers@.len() - k,
    {
        elim.clear_alloc(Allocation::reg(clobbers[k]));
        k += 1;
    }
}

/// Updates what is known at `from` to what is known at `to`.
pub fn process_side_effects(
    elim: &mut RedundantMoveEliminator,
    func: &Function,
    cfginfo: &CFGInfo,
    allocs: &Vec<Allocation>,
    offsets: &Vec<u32>,
    from: ProgPoint,
    to: ProgPoint,
)
    requires
        old(elim).wf(),
        slots_fit(func, allocs@, offsets@),
        cfginfo.insn_block@.len() == func.insts@.len(),
        from.spec_inst().0 < func.insts@.len(),
        to.spec_inst().0 < func.insts@.len(),
    ensures
        final(elim).wf(),
        final(elim)@ == after_side_effects(old(elim)@, func, cfginfo, allocs@, offsets@, from, to),
{
    if cfginfo.insn_block[from.inst().index()] != cfginfo.insn_block[to.inst().index()] {
        elim.clear();
        return ;
    }
    let lo = from.inst().index();
    let hi = to.inst().index();
    let mut inst: usize = lo;
    let n = func.num_insts();
    while inst <= hi
        invariant
            lo <= inst,
            inst <= hi + 1 || inst == lo,
            lo == from.spec_inst().0,
            hi == to.spec_inst().0,
            cfginfo.insn_block@[from.spec_inst().0 as int] == cfginfo.insn_block@[to.spec_inst().0 as int],
            hi < func.insts@.len(),
            n == func.insts@.len(),
            elim.wf(),
            elim@ == old(elim)@,
            forall|i: int| lo <= i < inst ==> !(#[trigger] func.insts@[i]).is_safepoint,
        decreases hi + 1 - inst,
    {
        if func.is_safepoint(Inst::new(inst)) {
            assert(func.insts@[inst as int].is_safepoint);
            assert(has_safepoint(func.insts@, lo as int, hi as int));
            elim.clear();
            return ;
        }
        inst += 1;
    }
    assert(!has_safepoint(func.insts@, lo as int, hi as int));
    let start = if from.pos() == InstPosition::Before {
        from.inst().index()
    } else {
        from.inst().index() + 1
    };
    let end = if to.pos() == InstPosition::Before {
        to.inst().index()
    } else {
        to.inst().index() + 1
    };
    let ghost goal = after_insts(elim@, func.insts@, allocs@, offsets@, start as int, end as int);
    let mut inst: usize = start;
    while inst < end
        invariant
            end <= func.insts@.len(),
            elim.wf(),
            slots_fit(func, allocs@, offsets@),
            after_insts(elim@, func.insts@, allocs@, offsets@, inst as int, end as int) == goal,
        decreases end - inst,
    {
        forget_written(elim, func, allocs, offsets, Inst::new(inst));
        inst += 1;
    }
}

/// The move as the scheduler sees it: without its place.
pub open spec fn as_move(m: InsertedMove) -> Move {
    Move { from: m.from_alloc, to: m.to_alloc, to_vreg: m.to_vreg }
}

/// The moves as the scheduler sees them.
pub open spec fn as_moves(moves: Seq<InsertedMove>) -> Seq<Move> {
    Seq::new(moves.len(), |i: int| as_move(moves[i]))
}

/// Some move of the schedule reads or writes the scratch.
pub open spec fn scratch_is_used(resolved: Seq<Move>, scratch: Allocation) -> bool {
    exists|i: int|
        0 <= i < resolved.len() && ((#[trigger] resolved[i]).from == scratch || resolved[i].to
            == scratch)
}

/// Some move of the schedule goes from one stack slot to another.
pub open spec fn has_stack_to_stack(resolved: Seq<Move>) -> bool {
    exists|i: int| 0 <= i < resolved.len() && (#[trigger] resolved[i]).from is Stack && resolved[i].to is Stack
}

/// The edits after one scheduled move is emitted.
///
/// A move between two stack slots goes through the scratch register. If
/// the scratch holds a value by then, that value is parked in the spare
/// stack slot for the duration.
pub open spec fn edits_after_move(
    edits: Seq<EditEntry>,
    pos: ProgPoint,
    prio: InsertMovePrio,
    m: Move,
    scratch: Allocation,
    scratch_holds_value: bool,
    extra: Option<Allocation>,
) -> Seq<EditEntry> {
    if m.from is Stack && m.to is Stack {
        let load = Edit::Move { from: m.from, to: scratch, to_vreg: m.to_vreg };
        let store = Edit::Move { from: scratch, to: m.to, to_vreg: m.to_vreg };
        if !scratch_holds_value {
            with_edit(with_edit(edits, pos, prio, load), pos, prio, store)
        } else {
            let park = Edit::Move { from: scratch, to: extra->0, to_vreg: None };
            let unpark = Edit::Move { from: extra->0, to: scratch, to_vreg: None };
            with_edit(
                with_edit(with_edit(with_edit(edits, pos, prio, park), pos, prio, load), pos, prio, store),
                pos,
                prio,
                unpark,
            )
        }
    } else {
        with_edit(edits, pos, prio, Edit::Move { from: m.from, to: m.to, to_vreg: m.to_vreg })
    }
}

/// The edits after a binding is announced, if there is one to announce.
pub open spec fn edits_after_def(
    edits: Seq<EditEntry>,
    pos: ProgPoint,
    prio: InsertMovePrio,
    def_alloc: Option<(Allocation, VReg)>,
) -> Seq<EditEntry> {
    match def_alloc {
        Some((alloc, vreg)) => with_edit(edits, pos, prio, Edit::DefAlloc { alloc, vreg }),
        None => edits,
    }
}

/// What is known, and the edits, after the scheduled moves `i`, `i + 1`, ..
/// are emitted in turn: each move unless it is redundant, and the binding it
/// announces.
pub open spec fn emit_resolved(
    resolved: Seq<Move>,
    i: int,
    scratch: Allocation,
    extra: Option<Allocation>,
    pos: ProgPoint,
    prio: InsertMovePrio,
    scratch_holds_value: bool,
    known: Map<Allocation, Known>,
    edits: Seq<EditEntry>,
) -> (Map<Allocation, Known>, Seq<EditEntry>)
    decreases resolved.len() - i,
{
    if i < 0 || i >= resolved.len() {
        (known, edits)
    } else {
        let m = resolved[i];
        let action = action_for_move(known, m.from, m.to, m.to_vreg);
        let holds = scratch_holds_value || (!action.elide && m.to == scratch);
        let moved = if action.elide {
            edits
        } else {
            edits_after_move(edits, pos, prio, m, scratch, holds, extra)
        };
        emit_resolved(
            resolved,
            i + 1,
            scratch,
            extra,
            pos,
            prio,
            holds,
            state_after_move(known, m.from, m.to, m.to_vreg),
            edits_after_def(moved, pos, prio, action.def_alloc),
        )
    }
}

/// Emits the scheduled moves of one class at one place.
fn emit_moves(
    edits: &mut Vec<EditEntry>,
    elim: &mut RedundantMoveEliminator,
    resolved: &Vec<Move>,
    scratch: Allocation,
    extra: Option<Allocation>,
    pos: ProgPoint,
    prio: InsertMovePrio,
)
    requires
        old(elim).wf(),
        scratch is Reg,
        extra matches Some(a) ==> a is Stack,
        forall|i: int|
            0 <= i < resolved@.len() ==> move_classes_agree(
                (#[trigger] resolved@[i]).from,
                resolved@[i].to,
            ),
        scratch_is_used(resolved@, scratch) && has_stack_to_stack(resolved@) ==> extra is Some,
    ensures
        final(elim).wf(),
        (final(elim)@, final(edits)@) == emit_resolved(
            resolved@,
            0,
            scratch,
            extra,
            pos,
            prio,
            false,
            old(elim)@,
            old(edits)@,
        ),
        no_noop_edits(old(edits)@) ==> no_noop_edits(final(edits)@),
        no_stack_to_stack_edits(old(edits)@) ==> no_stack_to_stack_edits(final(edits)@),
        edits_in_bounds(old(edits)@) && pos.bits <= MAX_POINT ==> edits_in_bounds(final(edits)@),
{
    let ghost goal = emit_resolved(resolved@, 0, scratch, extra, pos, prio, false, elim@, edits@);
    let mut holds = false;
    let mut i: usize = 0;
    while i < resolved.len()
        invariant
            i <= resolved@.len(),
            elim.wf(),
            scratch is Reg,
            extra matches Some(a) ==> a is Stack,
            forall|k: int|
                0 <= k < resolved@.len() ==> move_classes_agree(
                    (#[trigger] resolved@[k]).from,
                    resolved@[k].to,
                ),
            scratch_is_used(resolved@, scratch) && has_stack_to_stack(resolved@) ==> extra is Some,
            holds ==> scratch_is_used(resolved@, scratch),
            emit_resolved(resolved@, i as int, scratch, extra, pos, prio, holds, elim@, edits@) == goal,
            no_noop_edits(old(edits)@) ==> no_noop_edits(edits@),
            no_stack_to_stack_edits(old(edits)@) ==> no_stack_to_stack_edits(edits@),
            edits_in_bounds(old(edits)@) && pos.bits <= MAX_POINT ==> edits_in_bounds(edits@),
        decreases resolved@.len() - i,
    {
        let m = resolved[i];
        let action = elim.process_move(m.from, m.to, m.to_vreg);
        if !action.elide {
            if m.to == scratch {
                holds = true;
                assert(resolved@[i as int].to == scratch);
            }
            if m.from.is_stack() && m.to.is_stack() {
                assert(resolved@[i as int].from is Stack && resolved@[i as int].to is Stack);
                if !holds {
                    push_edit(edits, pos, prio, Edit::Move { from: m.from, to: scratch, to_vreg: m.to_vreg });
                    push_edit(edits, pos, prio, Edit::Move { from: scratch, to: m.to, to_vreg: m.to_vreg });
                } else {
                    let spare = extra.unwrap();
                    push_edit(edits, pos, prio, Edit::Move { from: scratch, to: spare, to_vreg: None });
                    push_edit(edits, pos, prio, Edit::Move { from: m.from, to: scratch, to_vreg: m.to_vreg });
                    push_edit(edits, pos, prio, Edit::Move { from: scratch, to: m.to, to_vreg: m.to_vreg });
                    push_edit(edits, pos, prio, Edit::Move { from: spare, to: scratch, to_vreg: None });
                }
            } else {
                push_edit(edits, pos, prio, Edit::Move { from: m.from, to: m.to, to_vreg: m.to_vreg });
            }
        }
        match action.def_alloc {
            Some((alloc, vreg)) => {
                push_edit(edits, pos, prio, Edit::DefAlloc { alloc, vreg });
            },
            None => {},
        }
        i += 1;
    }
}

/// What is known, and the edits, after the moves `i`, `i + 1`, .. of an
/// allocation onto itself have announced their bindings.
pub open spec fn emit_self_moves(
    moves: Seq<InsertedMove>,
    i: int,
    pos: ProgPoint,
    prio: InsertMovePrio,
    known: Map<Allocation, Known>,
    edits: Seq<EditEntry>,
) -> (Map<Allocation, Known>, Seq<EditEntry>)
    decreases moves.len() - i,
{
    if i < 0 || i >= moves.len() {
        (known, edits)
    } else {
        let m = moves[i];
        let action = action_for_move(known, m.from_alloc, m.to_alloc, m.to_vreg);
        emit_self_moves(
            moves,
            i + 1,
            pos,
            prio,
            state_after_move(known, m.from_alloc, m.to_alloc, m.to_vreg),
            edits_after_def(edits, pos, prio, action.def_alloc),
        )
    }
}

/// What emission has produced so far: what is known of the allocations,
/// the edits, the spare stack slot of each class and the number of stack
/// slots handed out.
pub struct EmitState {
    pub known: Map<Allocation, Known>,
    pub edits: Seq<EditEntry>,
    pub extra: Seq<Option<Allocation>>,
    pub num_spillslots: int,
}

/// The stack slot that is handed out when `num` slots are in use.
pub open spec fn new_spillslot(num: int, class: RegClass) -> Allocation {
    Allocation::Stack(SpillSlot { slot: num as u32, class })
}

/// A move that changes something, with its source in `class`.
pub open spec fn is_class_move(m: InsertedMove, class: RegClass) -> bool {
    m.from_alloc != m.to_alloc && m.from_alloc.spec_class() == class
}

/// A move of an allocation onto itself that names a virtual register.
pub open spec fn is_self_move(m: InsertedMove) -> bool {
    m.from_alloc == m.to_alloc && m.to_vreg is Some
}

/// The moves of the group that change something and have their source in
/// `class`, in their order.
pub open spec fn class_moves(group: Seq<InsertedMove>, class: RegClass) -> Seq<InsertedMove>
    decreases group.len(),
{
    if group.len() == 0 {
        Seq::empty()
    } else if is_class_move(group.last(), class) {
        class_moves(group.drop_last(), class).push(group.last())
    } else {
        class_moves(group.drop_last(), class)
    }
}

/// The moves of the group that only announce a binding, in their order.
pub open spec fn self_moves(group: Seq<InsertedMove>) -> Seq<InsertedMove>
    decreases group.len(),
{
    if group.len() == 0 {
        Seq::empty()
    } else if is_self_move(group.last()) {
        self_moves(group.drop_last()).push(group.last())
    } else {
        self_moves(group.drop_last())
    }
}

/// The state after the moves of one class at one place are scheduled and
/// emitted.
///
/// Where the schedule uses the scratch register and also moves between two
/// stack slots, the class needs its spare stack slot: it is handed out the
/// first time, and kept.
pub open spec fn emit_class(
    moves: Seq<InsertedMove>,
    class: RegClass,
    scratch_reg: PReg,
    pos: ProgPoint,
    prio: InsertMovePrio,
    st: EmitState,
) -> EmitState {
    let scratch = Allocation::Reg(scratch_reg);
    let resolved = resolved_moves(as_moves(moves), scratch);
    let c = class.spec_number();
    if scratch_is_used(resolved, scratch) && has_stack_to_stack(resolved) {
        let fresh = st.extra[c] is None;
        let extra = if fresh {
            st.extra.update(c, Some(new_spillslot(st.num_spillslots, class)))
        } else {
            st.extra
        };
        let num = if fresh {
            st.num_spillslots + 1
        } else {
            st.num_spillslots
        };
        let (known, edits) = emit_resolved(resolved, 0, scratch, extra[c], pos, prio, false, st.known, st.edits);
        EmitState { known, edits, extra, num_spillslots: num }
    } else {
        let (known, edits) = emit_resolved(resolved, 0, scratch, None, pos, prio, false, st.known, st.edits);
        EmitState { known, edits, extra: st.extra, num_spillslots: st.num_spillslots }
    }
}

/// Each spare stack slot is a stack slot, and there is room to hand out
/// the ones that are still missing.
pub open spec fn spare_slots_ok(extra: Seq<Option<Allocation>>, num_spillslots: int) -> bool {
    &&& extra.len() == 2
    &&& extra[0] matches Some(a) ==> a is Stack
    &&& extra[1] matches Some(a) ==> a is Stack
    &&& num_spillslots + (if extra[0] is None {
        1int
    } else {
        0int
    }) + (if extra[1] is None {
        1int
    } else {
        0int
    }) <= MAX_SPILLSLOTS + 2
    &&& 0 <= num_spillslots
}

impl Env {
    /// The part of the state that emission works on, with what is known of
    /// the allocations.
    pub open spec fn emit_state(&self, known: Map<Allocation, Known>) -> EmitState {
        EmitState {
            known,
            edits: self.edits@,
            extra: self.extra_spillslot@,
            num_spillslots: self.num_spillslots as int,
        }
    }

    /// Only the edits, the spare stack slots and the count of stack slots
    /// differ between the two states.
    pub open spec fn differs_in_emission(&self, before: &Env) -> bool {
        *self == (Env {
            edits: self.edits,
            extra_spillslot: self.extra_spillslot,
            num_spillslots: self.num_spillslots,
            ..*before
        })
    }

    /// Hands out a new stack slot of the class.
    pub fn allocate_spillslot(&mut self, class: RegClass) -> (r: Allocation)
        requires
            old(self).num_spillslots < u32::MAX,
        ensures
            r == new_spillslot(old(self).num_spillslots as int, class),
            final(self).num_spillslots == old(self).num_spillslots + 1,
            *final(self) == (Env { num_spillslots: final(self).num_spillslots, ..*old(self) }),
    {
        let slot = self.num_spillslots;
        self.num_spillslots = slot + 1;
        Allocation::stack(SpillSlot { slot, class })
    }

    /// Schedules and emits the moves of one class at one place.
    fn emit_class_moves(
        &mut self,
        elim: &mut RedundantMoveEliminator,
        buf: &MoveBuf,
        class: RegClass,
        pos: ProgPoint,
        prio: InsertMovePrio,
    )
        requires
            old(elim).wf(),
            old(self).env.wf(),
            spare_slots_ok(old(self).extra_spillslot@, old(self).num_spillslots as int),
            forall|i: int|
                0 <= i < buffered_moves(*buf).len() ==> {
                    let m = #[trigger] buffered_moves(*buf)[i];
                    &&& m.from_alloc != Allocation::Unassigned
                    &&& m.to_alloc != Allocation::Unassigned
                    &&& m.from_alloc.spec_class() == class
                    &&& m.to_alloc.spec_class() == class
                },
        ensures
            final(elim).wf(),
            final(self).differs_in_emission(old(self)),
            spare_slots_ok(final(self).extra_spillslot@, final(self).num_spillslots as int),
            final(self).emit_state(final(elim)@) == emit_class(
                buffered_moves(*buf),
                class,
                old(self).env.spec_scratch(class),
                pos,
                prio,
                old(self).emit_state(old(elim)@),
            ),
            no_noop_edits(old(self).edits@) ==> no_noop_edits(final(self).edits@),
            no_stack_to_stack_edits(old(self).edits@) ==> no_stack_to_stack_edits(final(self).edits@),
            edits_in_bounds(old(self).edits@) && pos.bits <= MAX_POINT ==> edits_in_bounds(final(self).edits@),
    {
        let scratch_reg = self.env.scratch(class);
        let scratch = Allocation::reg(scratch_reg);
        let mut parallel_moves = ParallelMoves::new(scratch);
        let n = buf_len(buf);
        let mut i: usize = 0;
        while i < n
            invariant
                i <= n,
                n == buffered_moves(*buf).len(),
                parallel_moves.scratch == scratch,
                parallel_moves.parallel_moves@ == as_moves(buffered_moves(*buf)).take(i as int),
            decreases n - i,
        {
            let m = buf_get(buf, i);
            parallel_moves.add(m.from_alloc, m.to_alloc, m.to_vreg);
            i += 1;
            assert(parallel_moves.parallel_moves@ =~= as_moves(buffered_moves(*buf)).take(i as int));
        }
        assert(parallel_moves.parallel_moves@ =~= as_moves(buffered_moves(*buf)));
        let ghost given = parallel_moves.parallel_moves@;
        let resolved = parallel_moves.resolve();
        proof {
            assert forall|k: int| 0 <= k < resolved@.len() implies move_classes_agree(
                (#[trigger] resolved@[k]).from,
                resolved@[k].to,
            ) by {
                let m = resolved@[k];
                assert(is_drawn_from(m, given, scratch));
                if m.from != scratch {
                    let j = choose|j: int| 0 <= j < given.len() && (#[trigger] given[j]).from == m.from;
                    assert(given[j] == as_move(buffered_moves(*buf)[j]));
                }
                if m.to != scratch {
                    let j = choose|j: int| 0 <= j < given.len() && (#[trigger] given[j]).to == m.to;
                    assert(given[j] == as_move(buffered_moves(*buf)[j]));
                }
                assert(m.from.spec_class() == class);
                assert(m.to.spec_class() == class);
            }
        }
        let mut scratch_used = false;
        let mut stack_stack = false;
        let mut k: usize = 0;
        while k < resolved.len()
            invariant
                k <= resolved@.len(),
                scratch_used <==> scratch_is_used(resolved@.take(k as int), scratch),
                stack_stack <==> has_stack_to_stack(resolved@.take(k as int)),
            decreases resolved@.len() - k,
        {
            let m = resolved[k];
            let ghost before = resolved@.take(k as int);
            let ghost after = resolved@.take(k + 1);
            let uses_it = m.from == scratch || m.to == scratch;
            let is_ss = m.from.is_stack() && m.to.is_stack();
            proof {
                assert(after[k as int] == m);
                assert forall|j: int| 0 <= j < k implies after[j] == before[j] by {}
                if scratch_is_used(before, scratch) {
                    let j = choose|j: int|
                        0 <= j < before.len() && ((#[trigger] before[j]).from == scratch || before[j].to
                            == scratch);
                    assert(after[j] == before[j]);
                }
                if has_stack_to_stack(before) {
                    let j = choose|j: int|
                        0 <= j < before.len() && (#[trigger] before[j]).from is Stack && before[j].to is Stack;
                    assert(after[j] == before[j]);
                }
                if scratch_is_used(after, scratch) && !uses_it {
                    let j = choose|j: int|
                        0 <= j < after.len() && ((#[trigger] after[j]).from == scratch || after[j].to
                            == scratch);
                    assert(before[j] == after[j]);
                }
                if has_stack_to_stack(after) && !is_ss {
                    let j = choose|j: int|
                        0 <= j < after.len() && (#[trigger] after[j]).from is Stack && after[j].to is Stack;
                    assert(before[j] == after[j]);
                }
            }
            if uses_it {
                scratch_used = true;
            }
            if is_ss {
                stack_stack = true;
            }
            k += 1;
        }
        assert(resolved@.take(k as int) =~= resolved@);
        let extra = if scratch_used && stack_stack {
            let c = class.number();
            if self.extra_spillslot[c].is_none() {
                let slot = self.allocate_spillslot(class);
                self.extra_spillslot[c] = Some(slot);
            }
            self.extra_spillslot[c]
        } else {
            None
        };
        emit_moves(&mut self.edits, elim, &resolved, scratch, extra, pos, prio);
    }
}

/// A move that emission can handle: it lies at an instruction that exists,
/// and if it changes something, both ends are assigned and of one class.
pub open spec fn move_is_resolvable(m: InsertedMove, num_insts: int) -> bool {
    &&& m.pos.spec_inst().0 < num_insts
    &&& move_fits(m.from_alloc, m.to_alloc)
}

/// Emission can handle every move of the list.
pub open spec fn moves_resolvable(moves: Seq<InsertedMove>, num_insts: int) -> bool {
    forall|i: int| 0 <= i < moves.len() ==> move_is_resolvable(#[trigger] moves[i], num_insts)
}

/// A list of moves that emission can handle stays one when such a move is
/// added.
pub proof fn lemma_resolvable_push(moves: Seq<InsertedMove>, m: InsertedMove, num_insts: int)
    requires
        moves_resolvable(moves, num_insts),
        move_is_resolvable(m, num_insts),
    ensures
        moves_resolvable(moves.push(m), num_insts),
{
    assert forall|i: int| 0 <= i < moves.push(m).len() implies move_is_resolvable(
        #[trigger] moves.push(m)[i],
        num_insts,
    ) by {
        if i < moves.len() {
            assert(moves.push(m)[i] == moves[i]);
        }
    }
}

/// Every block-parameter location names a block and a virtual register
/// that exist, and each block that has one has as many as it has
/// parameters.
pub open spec fn blockparams_ok(params: Seq<BlockparamAlloc>, func: &Function, num_vregs: int) -> bool {
    forall|i: int|
        0 <= i < params.len() ==> {
            let p = #[trigger] params[i];
            &&& p.block.0 < func.blocks@.len()
            &&& p.vreg.0 < num_vregs
            &&& count_for_block(params, p.block) == func.blocks@[p.block.0 as int].params@.len()
        }
}

/// The state after one group of moves, all at one place, is emitted: what
/// is known is brought forward from the place of the group before, then the
/// moves of each class are scheduled and emitted, `Int` first, and last the
/// moves that only announce a binding.
pub open spec fn emit_group(env: &Env, group: Seq<InsertedMove>, last_pos: ProgPoint, st: EmitState) -> EmitState {
    let pos = group[0].pos;
    let prio = group[0].prio;
    let known = after_side_effects(
        st.known,
        &env.func,
        &env.cfginfo,
        env.allocs@,
        env.inst_alloc_offsets@,
        last_pos,
        pos,
    );
    let st0 = EmitState { known, edits: st.edits, extra: st.extra, num_spillslots: st.num_spillslots };
    let st1 = emit_class(
        class_moves(group, RegClass::Int),
        RegClass::Int,
        env.env.spec_scratch(RegClass::Int),
        pos,
        prio,
        st0,
    );
    let st2 = emit_class(
        class_moves(group, RegClass::Float),
        RegClass::Float,
        env.env.spec_scratch(RegClass::Float),
        pos,
        prio,
        st1,
    );
    let (known2, edits2) = emit_self_moves(self_moves(group), 0, pos, prio, st2.known, st2.edits);
    EmitState { known: known2, edits: edits2, extra: st2.extra, num_spillslots: st2.num_spillslots }
}

/// Two moves lie at the same point with the same priority.
pub open spec fn same_place(a: InsertedMove, b: InsertedMove) -> bool {
    a.pos == b.pos && a.prio == b.prio
}

/// The end of the group that begins at `start`: the first position at or
/// behind `i` whose move lies at another place than the move at `start`.
pub open spec fn group_end(moves: Seq<InsertedMove>, start: int, i: int) -> int
    decreases moves.len() - i,
{
    if 0 <= i < moves.len() && same_place(moves[i], moves[start]) {
        group_end(moves, start, i + 1)
    } else {
        i
    }
}

/// A group ends at or behind the position it is followed from, and within the list.
pub proof fn lemma_group_end_bounds(moves: Seq<InsertedMove>, start: int, i: int)
    requires
        0 <= i <= moves.len(),
    ensures
        i <= group_end(moves, start, i) <= moves.len(),
    decreases moves.len() - i,
{
    if i < moves.len() && same_place(moves[i], moves[start]) {
        lemma_group_end_bounds(moves, start, i + 1);
    }
}

/// The state after the groups that begin at position `i` and behind are
/// emitted, one after the other.
pub open spec fn emit_groups(
    env: &Env,
    moves: Seq<InsertedMove>,
    i: int,
    last_pos: ProgPoint,
    st: EmitState,
) -> EmitState
    decreases moves.len() - i,
{
    if i < 0 || i >= moves.len() {
        st
    } else {
        let end = group_end(moves, i, i + 1);
        proof {
            lemma_group_end_bounds(moves, i, i + 1);
        }
        emit_groups(env, moves, end, moves[i].pos, emit_group(env, moves.subrange(i, end), last_pos, st))
    }
}

/// Splits a group into the moves of each class and the moves that only
/// announce a binding.
fn partition_group(moves: &Vec<InsertedMove>, start: usize, end: usize) -> (r: (MoveBuf, MoveBuf, MoveBuf))
    requires
        start <= end <= moves@.len(),
        forall|i: int| start <= i < end ==> move_is_resolvable(#[trigger] moves@[i], MAX_INSTS as int),
    ensures
        buffered_moves(r.0) == class_moves(moves@.subrange(start as int, end as int), RegClass::Int),
        buffered_moves(r.1) == class_moves(moves@.subrange(start as int, end as int), RegClass::Float),
        buffered_moves(r.2) == self_moves(moves@.subrange(start as int, end as int)),
        forall|i: int|
            0 <= i < buffered_moves(r.0).len() ==> move_is_resolvable(
                #[trigger] buffered_moves(r.0)[i],
                MAX_INSTS as int,
            ) && is_class_move(buffered_moves(r.0)[i], RegClass::Int),
        forall|i: int|
            0 <= i < buffered_moves(r.1).len() ==> move_is_resolvable(
                #[trigger] buffered_moves(r.1)[i],
                MAX_INSTS as int,
            ) && is_class_move(buffered_moves(r.1)[i], RegClass::Float),
{
    let ghost group = moves@.subrange(start as int, end as int);
    let mut int_moves = buf_new();
    let mut float_moves = buf_new();
    let mut selfs = buf_new();
    let mut i: usize = start;
    assert(group.take(0) =~= Seq::<InsertedMove>::empty());
    while i < end
        invariant
            start <= i <= end <= moves@.len(),
            group == moves@.subrange(start as int, end as int),
            forall|k: int| start <= k < end ==> move_is_resolvable(#[trigger] moves@[k], MAX_INSTS as int),
            buffered_moves(int_moves) == class_moves(group.take(i - start), RegClass::Int),
            buffered_moves(float_moves) == class_moves(group.take(i - start), RegClass::Float),
            buffered_moves(selfs) == self_moves(group.take(i - start)),
            forall|k: int|
                0 <= k < buffered_moves(int_moves).len() ==> move_is_resolvable(
                    #[trigger] buffered_moves(int_moves)[k],
                    MAX_INSTS as int,
                ) && is_class_move(buffered_moves(int_moves)[k], RegClass::Int),
            forall|k: int|
                0 <= k < buffered_moves(float_moves).len() ==> move_is_resolvable(
                    #[trigger] buffered_moves(float_moves)[k],
                    MAX_INSTS as int,
                ) && is_class_move(buffered_moves(float_moves)[k], RegClass::Float),
        decreases end - i,
    {
        let m = moves[i];
        proof {
            let next = group.take(i - start + 1);
            assert(next.last() == m);
            assert(next.drop_last() =~= group.take(i - start));
            assert(move_is_resolvable(moves@[i as int], MAX_INSTS as int));
        }
        if m.from_alloc == m.to_alloc {
            if m.to_vreg.is_some() {
                buf_push(&mut selfs, m);
            }
        } else {
            match m.from_alloc.class() {
                RegClass::Int => {
                    buf_push(&mut int_moves, m);
                },
                RegClass::Float => {
                    buf_push(&mut float_moves, m);
                },
            }
        }
        i += 1;
    }
    assert(group.take(end - start) =~= group);
    (int_moves, float_moves, selfs)
}

impl Env {
    /// What emission needs of the state: a consistent program, operand
    /// slots within `allocs`, and room for the spare stack slots.
    pub open spec fn wf_for_emission(&self) -> bool {
        &&& self.wf_program()
        &&& spare_slots_ok(self.extra_spillslot@, self.num_spillslots as int)
    }

    /// Emits the moves that only announce a binding.
    fn emit_self_moves(
        &mut self,
        elim: &mut RedundantMoveEliminator,
        buf: &MoveBuf,
        pos: ProgPoint,
        prio: InsertMovePrio,
    )
        requires
            old(elim).wf(),
        ensures
            final(elim).wf(),
            *final(self) == (Env { edits: final(self).edits, ..*old(self) }),
            (final(elim)@, final(self).edits@) == emit_self_moves(
                buffered_moves(*buf),
                0,
                pos,
                prio,
                old(elim)@,
                old(self).edits@,
            ),
            no_noop_edits(old(self).edits@) ==> no_noop_edits(final(self).edits@),
            no_stack_to_stack_edits(old(self).edits@) ==> no_stack_to_stack_edits(final(self).edits@),
            edits_in_bounds(old(self).edits@) && pos.bits <= MAX_POINT ==> edits_in_bounds(final(self).edits@),
    {
        let ghost goal = emit_self_moves(buffered_moves(*buf), 0, pos, prio, elim@, self.edits@);
        let n = buf_len(buf);
        let mut i: usize = 0;
        while i < n
            invariant
                i <= n,
                n == buffered_moves(*buf).len(),
                elim.wf(),
                *self == (Env { edits: self.edits, ..*old(self) }),
                emit_self_moves(buffered_moves(*buf), i as int, pos, prio, elim@, self.edits@) == goal,
                no_noop_edits(old(self).edits@) ==> no_noop_edits(self.edits@),
                no_stack_to_stack_edits(old(self).edits@) ==> no_stack_to_stack_edits(self.edits@),
                edits_in_bounds(old(self).edits@) && pos.bits <= MAX_POINT ==> edits_in_bounds(self.edits@),
            decreases n - i,
        {
            let m = buf_get(buf, i);
            let action = elim.process_move(m.from_alloc, m.to_alloc, m.to_vreg);
            match action.def_alloc {
                Some((alloc, vreg)) => {
                    self.add_edit(pos, prio, Edit::DefAlloc { alloc, vreg });
                    assert(edits_in_bounds(old(self).edits@) && pos.bits <= MAX_POINT ==> edits_in_bounds(
                        self.edits@,
                    ));
                },
                None => {},
            }
            i += 1;
        }
    }

    /// Emits the group of moves at positions `start` to `end - 1`.
    fn emit_group(&mut self, elim: &mut RedundantMoveEliminator, start: usize, end: usize, last_pos: ProgPoint)
        requires
            old(elim).wf(),
            old(self).wf_for_emission(),
            start < end <= old(self).inserted_moves@.len(),
            last_pos.spec_inst().0 < old(self).func.insts@.len(),
            forall|i: int|
                start <= i < end ==> move_is_resolvable(
                    #[trigger] old(self).inserted_moves@[i],
                    old(self).func.insts@.len() as int,
                ),
        ensures
            final(elim).wf(),
            final(self).differs_in_emission(old(self)),
            final(self).wf_for_emission(),
            final(self).emit_state(final(elim)@) == emit_group(
                old(self),
                old(self).inserted_moves@.subrange(start as int, end as int),
                last_pos,
                old(self).emit_state(old(elim)@),
            ),
            no_noop_edits(old(self).edits@) ==> no_noop_edits(final(self).edits@),
            no_stack_to_stack_edits(old(self).edits@) ==> no_stack_to_stack_edits(final(self).edits@),
            edits_in_bounds(old(self).edits@) ==> edits_in_bounds(final(self).edits@),
    {
        let ghost group = self.inserted_moves@.subrange(start as int, end as int);
        assert(group[0] == self.inserted_moves@[start as int]);
        let pos = self.inserted_moves[start].pos;
        let prio = self.inserted_moves[start].prio;
        assert(move_is_resolvable(self.inserted_moves@[start as int], self.func.insts@.len() as int));
        process_side_effects(
            elim,
            &self.func,
            &self.cfginfo,
            &self.allocs,
            &self.inst_alloc_offsets,
            last_pos,
            pos,
        );
        let (int_moves, float_moves, selfs) = partition_group(&self.inserted_moves, start, end);
        proof {
            assert forall|i: int| 0 <= i < buffered_moves(int_moves).len() implies {
                let m = #[trigger] buffered_moves(int_moves)[i];
                &&& m.from_alloc != Allocation::Unassigned
                &&& m.to_alloc != Allocation::Unassigned
                &&& m.from_alloc.spec_class() == RegClass::Int
                &&& m.to_alloc.spec_class() == RegClass::Int
            } by {
                let m = buffered_moves(int_moves)[i];
                assert(move_is_resolvable(m, MAX_INSTS as int) && is_class_move(m, RegClass::Int));
            }
            assert forall|i: int| 0 <= i < buffered_moves(float_moves).len() implies {
                let m = #[trigger] buffered_moves(float_moves)[i];
                &&& m.from_alloc != Allocation::Unassigned
                &&& m.to_alloc != Allocation::Unassigned
                &&& m.from_alloc.spec_class() == RegClass::Float
                &&& m.to_alloc.spec_class() == RegClass::Float
            } by {
                let m = buffered_moves(float_moves)[i];
                assert(move_is_resolvable(m, MAX_INSTS as int) && is_class_move(m, RegClass::Float));
            }
        }
        self.emit_class_moves(elim, &int_moves, RegClass::Int, pos, prio);
        self.emit_class_moves(elim, &float_moves, RegClass::Float, pos, prio);
        self.emit_self_moves(elim, &selfs, pos, prio);
    }
}

/// The keys by which pending moves are put in order.
pub open spec fn move_keys(moves: Seq<InsertedMove>) -> Seq<u64> {
    Seq::new(moves.len(), |i: int| spec_place_key(moves[i].pos.bits as int, moves[i].prio) as u64)
}

/// The keys by which edits are put in order.
pub open spec fn edit_keys(edits: Seq<EditEntry>) -> Seq<u64> {
    Seq::new(edits.len(), |i: int| spec_place_key(edits[i].0 as int, edits[i].1) as u64)
}

/// The keys by which block-parameter locations are put in order: by block,
/// then by the parameter's position.
pub open spec fn blockparam_keys(params: Seq<BlockparamAlloc>) -> Seq<u64> {
    Seq::new(params.len(), |i: int| (params[i].block.0 * 0x1_0000_0000 + params[i].index) as u64)
}

/// The pending moves in the order in which they are emitted: by program
/// point, then by priority, moves at one place in the order they were found.
pub open spec fn moves_in_order(moves: Seq<InsertedMove>) -> Seq<InsertedMove> {
    stable_sorted(moves, move_keys(moves))
}

/// The block-parameter locations by block and position.
pub open spec fn blockparams_in_order(params: Seq<BlockparamAlloc>) -> Seq<BlockparamAlloc> {
    stable_sorted(params, blockparam_keys(params))
}

/// The edits in their final order: by program point, then by priority,
/// edits at one place in the order they were emitted.
pub open spec fn edits_in_order(edits: Seq<EditEntry>) -> Seq<EditEntry> {
    stable_sorted(edits, edit_keys(edits))
}

/// The edit that announces where a block parameter lives on entry.
pub open spec fn blockparam_edit(param: BlockparamAlloc, cfginfo: &CFGInfo, vreg_regs: Seq<VReg>) -> EditEntry {
    (
        cfginfo.block_entry@[param.block.0 as int].bits,
        InsertMovePrio::BlockParam,
        Edit::DefAlloc { alloc: param.alloc, vreg: vreg_regs[param.vreg.0 as int] },
    )
}

/// The edits that announce the block parameters, in the given order.
pub open spec fn blockparam_edits(params: Seq<BlockparamAlloc>, cfginfo: &CFGInfo, vreg_regs: Seq<VReg>) -> Seq<
    EditEntry,
> {
    Seq::new(params.len(), |i: int| blockparam_edit(params[i], cfginfo, vreg_regs))
}

/// How many of the locations belong to parameters of `block`.
pub open spec fn count_for_block(params: Seq<BlockparamAlloc>, block: crate::index::Block) -> nat
    decreases params.len(),
{
    if params.len() == 0 {
        0
    } else {
        count_for_block(params.drop_last(), block) + if params.last().block == block {
            1nat
        } else {
            0nat
        }
    }
}

/// The list is in ascending order of program point and, at one point, of
/// priority.
pub open spec fn is_ordered_by_place(edits: Seq<EditEntry>) -> bool {
    forall|i: int, j: int|
        0 <= i <= j < edits.len() ==> spec_place_key(edits[i].0 as int, edits[i].1) <= spec_place_key(
            edits[j].0 as int,
            edits[j].1,
        )
}

fn move_keys_of(moves: &Vec<InsertedMove>) -> (keys: Vec<u64>)
    requires
        forall|i: int| 0 <= i < moves@.len() ==> (#[trigger] moves@[i]).pos.bits <= MAX_POINT,
    ensures
        keys@ == move_keys(moves@),
{
    let mut keys: Vec<u64> = Vec::new();
    let mut i: usize = 0;
    while i < moves.len()
        invariant
            i <= moves@.len(),
            forall|k: int| 0 <= k < moves@.len() ==> (#[trigger] moves@[k]).pos.bits <= MAX_POINT,
            keys@.len() == i,
            forall|k: int|
                0 <= k < i ==> keys@[k] == spec_place_key(moves@[k].pos.bits as int, moves@[k].prio),
        decreases moves@.len() - i,
    {
        let m = moves[i];
        assert(moves@[i as int].pos.bits <= MAX_POINT);
        keys.push((m.pos.to_index() as u64) * 8 + m.prio.rank());
        i += 1;
    }
    assert(keys@ =~= move_keys(moves@));
    keys
}

fn edit_keys_of(edits: &Vec<EditEntry>) -> (keys: Vec<u64>)
    requires
        edits_in_bounds(edits@),
    ensures
        keys@ == edit_keys(edits@),
{
    let mut keys: Vec<u64> = Vec::new();
    let mut i: usize = 0;
    while i < edits.len()
        invariant
            i <= edits@.len(),
            edits_in_bounds(edits@),
            keys@.len() == i,
            forall|k: int| 0 <= k < i ==> keys@[k] == spec_place_key(edits@[k].0 as int, edits@[k].1),
        decreases edits@.len() - i,
    {
        let e = edits[i];
        assert(edits@[i as int].0 <= MAX_POINT);
        keys.push((e.0 as u64) * 8 + e.1.rank());
        i += 1;
    }
    assert(keys@ =~= edit_keys(edits@));
    keys
}

fn blockparam_keys_of(params: &Vec<BlockparamAlloc>) -> (keys: Vec<u64>)
    requires
        forall|i: int| 0 <= i < params@.len() ==> (#[trigger] params@[i]).block.0 < crate::function::MAX_KEY_FIELD,
    ensures
        keys@ == blockparam_keys(params@),
{
    let mut keys: Vec<u64> = Vec::new();
    let mut i: usize = 0;
    while i < params.len()
        invariant
            i <= params@.len(),
            forall|k: int|
                0 <= k < params@.len() ==> (#[trigger] params@[k]).block.0 < crate::function::MAX_KEY_FIELD,
            keys@.len() == i,
            forall|k: int| 0 <= k < i ==> keys@[k] == params@[k].block.0 * 0x1_0000_0000 + params@[k].index,
        decreases params@.len() - i,
    {
        let p = params[i];
        assert(params@[i as int].block.0 < crate::function::MAX_KEY_FIELD);
        keys.push((p.block.0 as u64) * 0x1_0000_0000 + (p.index as u64));
        i += 1;
    }
    assert(keys@ =~= blockparam_keys(params@));
    keys
}

/// Whatever holds of every item of a list holds of every item of the list
/// in sorted order.
pub proof fn lemma_sorted_keeps<T>(items: Seq<T>, keys: Seq<u64>, holds: spec_fn(T) -> bool)
    requires
        items.len() == keys.len(),
        is_stable_order(keys, stable_order(keys)),
        forall|i: int| 0 <= i < items.len() ==> holds(#[trigger] items[i]),
    ensures
        forall|i: int| 0 <= i < stable_sorted(items, keys).len() ==> holds(#[trigger] stable_sorted(items, keys)[i]),
{
    let order = stable_order(keys);
    assert forall|i: int| 0 <= i < stable_sorted(items, keys).len() implies holds(
        #[trigger] stable_sorted(items, keys)[i],
    ) by {
        assert(0 <= order[i] < keys.len());
        assert(stable_sorted(items, keys)[i] == items[order[i] as int]);
    }
}

impl Env {
    /// What `resolve_inserted_moves` needs of the state.
    ///
    /// Every pending move can be handled, every edit already present lies
    /// at a program point that exists, and every block-parameter location
    /// names a block and a virtual register that exist, with as many
    /// locations for a block as the block has parameters.
    pub open spec fn ready_for_emission(&self) -> bool {
        &&& self.wf_for_emission()
        &&& moves_resolvable(self.inserted_moves@, self.func.insts@.len() as int)
        &&& edits_in_bounds(self.edits@)
        &&& blockparams_ok(self.blockparam_allocs@, &self.func, self.vreg_regs@.len() as int)
    }

    /// The state of emission once every group of pending moves is emitted,
    /// starting from nothing known.
    pub open spec fn emitted_moves(&self) -> EmitState {
        emit_groups(
            self,
            moves_in_order(self.inserted_moves@),
            0,
            ProgPoint::spec_before(Inst(0)),
            self.emit_state(Map::empty()),
        )
    }

    /// Every edit before its final ordering: those for the pending moves,
    /// then those that announce the block parameters.
    pub open spec fn emitted_edits(&self) -> Seq<EditEntry> {
        self.emitted_moves().edits + blockparam_edits(
            blockparams_in_order(self.blockparam_allocs@),
            &self.cfginfo,
            self.vreg_regs@,
        )
    }

    /// This state is `before` with its pending moves turned into edits:
    /// the pending moves and the block-parameter locations stand in order,
    /// the edits are all edits emitted, in their final order, the spare
    /// stack slots and the counts are as emission left them, and nothing
    /// else has changed.
    pub open spec fn holds_emission(&self, before: &Env) -> bool {
        &&& self.inserted_moves@ == moves_in_order(before.inserted_moves@)
        &&& self.blockparam_allocs@ == blockparams_in_order(before.blockparam_allocs@)
        &&& self.edits@ == edits_in_order(before.emitted_edits())
        &&& self.extra_spillslot@ == before.emitted_moves().extra
        &&& self.num_spillslots == before.emitted_moves().num_spillslots
        &&& self.stats == (Stats {
            halfmoves_count: before.stats.halfmoves_count,
            edits_count: self.edits.len(),
            blockparam_allocs_count: before.blockparam_allocs.len(),
        })
        &&& *self == (Env {
            inserted_moves: self.inserted_moves,
            blockparam_allocs: self.blockparam_allocs,
            edits: self.edits,
            extra_spillslot: self.extra_spillslot,
            num_spillslots: self.num_spillslots,
            stats: self.stats,
            ..*before
        })
    }

    /// Turns the pending moves into edits.
    ///
    /// The pending moves are put in order of program point and priority and
    /// emitted group by group; then the location of every block parameter
    /// is announced at the entry of its block; then all edits are put in
    /// order of program point and priority, edits at one place staying in
    /// the order in which they were emitted.
    pub fn resolve_inserted_moves(&mut self)
        requires
            old(self).ready_for_emission(),
        ensures
            final(self).holds_emission(old(self)),
            is_ordered_by_place(final(self).edits@),
            no_noop_edits(old(self).edits@) ==> no_noop_edits(final(self).edits@),
            no_stack_to_stack_edits(old(self).edits@) ==> no_stack_to_stack_edits(final(self).edits@),
    {
        let ghost num_insts = self.func.insts@.len() as int;
        proof {
            assert forall|i: int| 0 <= i < self.inserted_moves@.len() implies (
            #[trigger] self.inserted_moves@[i]).pos.bits <= MAX_POINT by {
                assert(move_is_resolvable(self.inserted_moves@[i], num_insts));
            }
        }
        let keys = move_keys_of(&self.inserted_moves);
        let sorted = sort_by_keys(&self.inserted_moves, &keys);
        proof {
            lemma_sorted_keeps(
                self.inserted_moves@,
                keys@,
                |m: InsertedMove| move_is_resolvable(m, num_insts),
            );
        }
        self.inserted_moves = sorted;
        let mut elim = RedundantMoveEliminator::new();
        let mut last_pos = ProgPoint::before(Inst::new(0));
        let ghost goal = old(self).emitted_moves();
        let ghost moves = self.inserted_moves@;
        let mut i: usize = 0;
        while i < self.inserted_moves.len()
            invariant
                i <= moves.len(),
                moves == self.inserted_moves@,
                moves == moves_in_order(old(self).inserted_moves@),
                num_insts == self.func.insts@.len(),
                forall|k: int| 0 <= k < moves.len() ==> move_is_resolvable(#[trigger] moves[k], num_insts),
                last_pos.spec_inst().0 < num_insts || moves.len() == 0,
                elim.wf(),
                self.wf_for_emission(),
                *self == (Env {
                    inserted_moves: self.inserted_moves,
                    edits: self.edits,
                    extra_spillslot: self.extra_spillslot,
                    num_spillslots: self.num_spillslots,
                    ..*old(self)
                }),
                emit_groups(old(self), moves, i as int, last_pos, self.emit_state(elim@)) == goal,
                no_noop_edits(old(self).edits@) ==> no_noop_edits(self.edits@),
                no_stack_to_stack_edits(old(self).edits@) ==> no_stack_to_stack_edits(self.edits@),
                edits_in_bounds(self.edits@),
            decreases moves.len() - i,
        {
            let start = i;
            let first = self.inserted_moves[start];
            i += 1;
            while i < self.inserted_moves.len() && self.inserted_moves[i].pos == first.pos
                && self.inserted_moves[i].prio == first.prio
                invariant
                    start < i <= moves.len(),
                    moves == self.inserted_moves@,
                    first == moves[start as int],
                    group_end(moves, start as int, i as int) == group_end(moves, start as int, start + 1),
                decreases moves.len() - i,
            {
                i += 1;
            }
            assert(move_is_resolvable(moves[start as int], num_insts));
            let ghost before = *self;
            let ghost known = elim@;
            self.emit_group(&mut elim, start, i, last_pos);
            proof {
                assert(i == group_end(moves, start as int, start + 1));
                assert(emit_group(&before, moves.subrange(start as int, i as int), last_pos, before.emit_state(
                    known,
                )) == emit_group(
                    old(self),
                    moves.subrange(start as int, i as int),
                    last_pos,
                    before.emit_state(known),
                ));
            }
            last_pos = first.pos;
        }
        proof {
            assert forall|k: int| 0 <= k < self.blockparam_allocs@.len() implies (
            #[trigger] self.blockparam_allocs@[k]).block.0 < crate::function::MAX_KEY_FIELD by {}
        }
        let bkeys = blockparam_keys_of(&self.blockparam_allocs);
        let params = sort_by_keys(&self.blockparam_allocs, &bkeys);
        proof {
            let num_blocks = self.func.blocks@.len();
            let num_vregs = self.vreg_regs@.len();
            lemma_sorted_keeps(
                self.blockparam_allocs@,
                bkeys@,
                |p: BlockparamAlloc| p.block.0 < num_blocks && p.vreg.0 < num_vregs,
            );
        }
        self.blockparam_allocs = params;
        self.stats.blockparam_allocs_count = self.blockparam_allocs.len();
        let ghost emitted = self.edits@;
        let mut k: usize = 0;
        while k < self.blockparam_allocs.len()
            invariant
                k <= self.blockparam_allocs@.len(),
                self.wf_program(),
                forall|j: int|
                    0 <= j < self.blockparam_allocs@.len() ==> (#[trigger] self.blockparam_allocs@[j]).block.0
                        < self.func.blocks@.len() && self.blockparam_allocs@[j].vreg.0 < self.vreg_regs@.len(),
                self.blockparam_allocs@ == blockparams_in_order(old(self).blockparam_allocs@),
                self.cfginfo == old(self).cfginfo,
                self.vreg_regs == old(self).vreg_regs,
                self.inserted_moves@ == moves,
                self.extra_spillslot@ == goal.extra,
                self.num_spillslots == goal.num_spillslots,
                self.stats == (Stats {
                    halfmoves_count: old(self).stats.halfmoves_count,
                    edits_count: old(self).stats.edits_count,
                    blockparam_allocs_count: old(self).blockparam_allocs.len(),
                }),
                *self == (Env {
                    inserted_moves: self.inserted_moves,
                    blockparam_allocs: self.blockparam_allocs,
                    edits: self.edits,
                    extra_spillslot: self.extra_spillslot,
                    num_spillslots: self.num_spillslots,
                    stats: self.stats,
                    ..*old(self)
                }),
                self.edits@ == emitted + blockparam_edits(
                    self.blockparam_allocs@,
                    &self.cfginfo,
                    self.vreg_regs@,
                ).take(k as int),
                no_noop_edits(old(self).edits@) ==> no_noop_edits(self.edits@),
                no_stack_to_stack_edits(old(self).edits@) ==> no_stack_to_stack_edits(self.edits@),
                edits_in_bounds(self.edits@),
            decreases self.blockparam_allocs@.len() - k,
        {
            let p = self.blockparam_allocs[k];
            assert(self.blockparam_allocs@[k as int].block.0 < self.func.blocks@.len());
            let pos = self.cfginfo.block_entry[p.block.0];
            let vreg = self.vreg_regs[p.vreg.0];
            assert(self.cfginfo.block_entry@[p.block.0 as int].spec_inst().0 < self.func.insts@.len());
            push_edit(&mut self.edits, pos, InsertMovePrio::BlockParam, Edit::DefAlloc { alloc: p.alloc, vreg });
            k += 1;
            assert(self.edits@ =~= emitted + blockparam_edits(
                self.blockparam_allocs@,
                &self.cfginfo,
                self.vreg_regs@,
            ).take(k as int));
        }
        proof {
            let all = blockparam_edits(self.blockparam_allocs@, &self.cfginfo, self.vreg_regs@);
            assert(all.take(k as int) =~= all);
            assert(emitted == goal.edits);
        }
        let ekeys = edit_keys_of(&self.edits);
        let ordered = sort_by_keys(&self.edits, &ekeys);
        proof {
            if no_noop_edits(old(self).edits@) {
                lemma_sorted_keeps(self.edits@, ekeys@, |e: EditEntry| !edit_is_noop(e.2));
            }
            if no_stack_to_stack_edits(old(self).edits@) {
                lemma_sorted_keeps(self.edits@, ekeys@, |e: EditEntry| !edit_is_stack_to_stack(e.2));
            }
            let order = stable_order(ekeys@);
            assert forall|a: int, b: int| 0 <= a <= b < ordered@.len() implies spec_place_key(
                ordered@[a].0 as int,
                ordered@[a].1,
            ) <= spec_place_key(ordered@[b].0 as int, ordered@[b].1) by {
                assert(0 <= order[a] < ekeys@.len() && 0 <= order[b] < ekeys@.len());
                assert(ordered@[a] == self.edits@[order[a] as int]);
                assert(ordered@[b] == self.edits@[order[b] as int]);
                assert(self.edits@[order[a] as int].0 <= MAX_POINT);
                assert(self.edits@[order[b] as int].0 <= MAX_POINT);
                if a < b {
                    assert(crate::sorting::comes_before(ekeys@, order[a] as int, order[b] as int));
                }
            }
        }
        self.edits = ordered;
        self.stats.edits_count = self.edits.len();
    }
}

} // verus!
