//! What the edits do to the values in the allocations: that a move left
//! out would have changed nothing, and that a move between two stack slots
//! arrives through the scratch register.

use vstd::prelude::*;
use crate::edits::{Edit, InsertedMove, InsertMovePrio};
use crate::emit::{
    as_moves,
    edit_is_noop,
    edits_after_def,
    edits_after_move,
    emit_class,
    emit_resolved,
    has_stack_to_stack,
    with_edit,
    EmitState,
};
use crate::env::EditEntry;
use crate::index::ProgPoint;
use crate::locations::{Allocation, PReg, RegClass, VReg};
use crate::parallel::{resolved_moves, Move};
use crate::redundant::{action_for_move, forget, move_is_redundant, state_after_move, Known};
use crate::schedule_laws::{
    comes_from,
    is_schedulable,
    is_written,
    lemma_resolved_moves_carry_out,
    lemma_values_come_from,
    values_after,
};

verus! {

/// The values after one edit has been carried out: a move copies a value,
/// the announcement of a binding changes nothing.
pub open spec fn edit_applied(edit: Edit, values: Map<Allocation, int>) -> Map<Allocation, int> {
    match edit {
        Edit::Move { from, to, to_vreg } => values.insert(to, values[from]),
        Edit::DefAlloc { alloc, vreg } => values,
    }
}

/// The values in the allocations after the edits of the list have been
/// carried out in their order, from the values before.
pub open spec fn values_after_edits(edits: Seq<EditEntry>, values: Map<Allocation, int>) -> Map<Allocation, int>
    decreases edits.len(),
{
    if edits.len() == 0 {
        values
    } else {
        edit_applied(edits.last().2, values_after_edits(edits.drop_last(), values))
    }
}

/// Every allocation holds the same value in both.
pub open spec fn same_values(a: Map<Allocation, int>, b: Map<Allocation, int>) -> bool {
    forall|x: Allocation| #![trigger a[x]] #![trigger b[x]] a[x] == b[x]
}

/// What is known is true of the values: an allocation recorded as a copy
/// of another holds the same value as the other.
pub open spec fn known_holds(known: Map<Allocation, Known>, values: Map<Allocation, int>) -> bool {
    forall|a: Allocation|
        known.contains_key(a) && (#[trigger] known[a]).copy_of is Some ==> values[a] == values[known[a].copy_of->0]
}

/// A move that is left out would have changed nothing, and what is known
/// after a move, carried out or left out, is true of the values after it.
pub proof fn lemma_elision_is_sound(
    known: Map<Allocation, Known>,
    values: Map<Allocation, int>,
    from: Allocation,
    to: Allocation,
    to_vreg: Option<VReg>,
)
    requires
        known_holds(known, values),
    ensures
        move_is_redundant(known, from, to, to_vreg) ==> values[to] == values[from],
        known_holds(
            state_after_move(known, from, to, to_vreg),
            if move_is_redundant(known, from, to, to_vreg) {
                values
            } else {
                values.insert(to, values[from])
            },
        ),
{
    let after = state_after_move(known, from, to, to_vreg);
    let redundant = move_is_redundant(known, from, to, to_vreg);
    if redundant && from != to {
        if known.contains_key(to) && known[to].copy_of == Some(from) {
            assert(values[to] == values[from]);
        } else {
            assert(known.contains_key(from) && known[from].copy_of == Some(to));
            assert(values[from] == values[to]);
        }
    }
    let values2 = if redundant {
        values
    } else {
        values.insert(to, values[from])
    };
    assert forall|a: Allocation| after.contains_key(a) && (#[trigger] after[a]).copy_of is Some implies values2[a]
        == values2[after[a].copy_of->0] by {
        let b = after[a].copy_of->0;
        if a == to && after[a].copy_of == Some(from) && !(known.contains_key(a) && known[a] == after[a]) {
            // The entry that the move adds.
        } else if redundant {
            assert(known.contains_key(a) && known[a] == after[a]);
        } else {
            assert(forget(known, to).contains_key(a) || a == to);
            if a != to {
                assert(known.contains_key(a) && known[a] == after[a]);
                assert(b != to);
            }
        }
    }
}

proof fn lemma_values_after_with_edit(
    edits: Seq<EditEntry>,
    pos: ProgPoint,
    prio: InsertMovePrio,
    edit: Edit,
    values: Map<Allocation, int>,
)
    ensures
        same_values(
            values_after_edits(with_edit(edits, pos, prio, edit), values),
            edit_applied(edit, values_after_edits(edits, values)),
        ),
{
    if edit_is_noop(edit) {
    } else {
        let pushed = edits.push((pos.bits, prio, edit));
        assert(pushed.drop_last() =~= edits);
        assert(pushed.last().2 == edit);
    }
}

proof fn lemma_same_values_after(schedule: Seq<Move>, a: Map<Allocation, int>, b: Map<Allocation, int>)
    requires
        same_values(a, b),
    ensures
        same_values(values_after(schedule, a), values_after(schedule, b)),
{
    assert forall|x: Allocation| values_after(schedule, a)[x] == values_after(schedule, b)[x] by {
        lemma_values_come_from(schedule, a, x);
        lemma_values_come_from(schedule, b, x);
    }
}

proof fn lemma_known_holds_of_same(known: Map<Allocation, Known>, a: Map<Allocation, int>, b: Map<Allocation, int>)
    requires
        known_holds(known, a),
        same_values(a, b),
    ensures
        known_holds(known, b),
{
    assert forall|x: Allocation| known.contains_key(x) && (#[trigger] known[x]).copy_of is Some implies b[x]
        == b[known[x].copy_of->0] by {
        assert(a[x] == a[known[x].copy_of->0]);
    }
}

/// No move from position `i` on goes from one stack slot to another.
pub open spec fn no_stack_to_stack_from(resolved: Seq<Move>, i: int) -> bool {
    forall|k: int| i <= k < resolved.len() ==> !((#[trigger] resolved[k]).from is Stack && resolved[k].to is Stack)
}

/// Emitting a schedule that has no move between two stack slots, with
/// moves left out where the tracker says so, leaves the values that the
/// whole schedule would leave, provided what the tracker knew was true of
/// the values before. And what the tracker knows afterwards is true of the
/// values afterwards.
pub proof fn lemma_emitted_moves_do_the_schedule(
    resolved: Seq<Move>,
    i: int,
    scratch: Allocation,
    extra: Option<Allocation>,
    pos: ProgPoint,
    prio: InsertMovePrio,
    scratch_holds_value: bool,
    known: Map<Allocation, Known>,
    edits: Seq<EditEntry>,
    start: Map<Allocation, int>,
)
    requires
        0 <= i <= resolved.len(),
        no_stack_to_stack_from(resolved, i),
        known_holds(known, values_after_edits(edits, start)),
    ensures
        ({
            let (known2, edits2) = emit_resolved(
                resolved,
                i,
                scratch,
                extra,
                pos,
                prio,
                scratch_holds_value,
                known,
                edits,
            );
            &&& same_values(
                values_after_edits(edits2, start),
                values_after(resolved.skip(i), values_after_edits(edits, start)),
            )
            &&& known_holds(known2, values_after_edits(edits2, start))
        }),
    decreases resolved.len() - i,
{
    let before = values_after_edits(edits, start);
    if i >= resolved.len() {
        assert(resolved.skip(i).len() == 0);
    } else {
        let m = resolved[i];
        let action = action_for_move(known, m.from, m.to, m.to_vreg);
        let holds = scratch_holds_value || (!action.elide && m.to == scratch);
        let move_edit = Edit::Move { from: m.from, to: m.to, to_vreg: m.to_vreg };
        let moved = if action.elide {
            edits
        } else {
            edits_after_move(edits, pos, prio, m, scratch, holds, extra)
        };
        let announced = edits_after_def(moved, pos, prio, action.def_alloc);
        let known2 = state_after_move(known, m.from, m.to, m.to_vreg);
        let ideal = before.insert(m.to, before[m.from]);
        lemma_elision_is_sound(known, before, m.from, m.to, m.to_vreg);
        assert(!(m.from is Stack && m.to is Stack));
        if !action.elide {
            lemma_values_after_with_edit(edits, pos, prio, move_edit, start);
        }
        let after_move = values_after_edits(moved, start);
        assert(same_values(after_move, ideal));
        match action.def_alloc {
            Some((alloc, vreg)) => {
                lemma_values_after_with_edit(moved, pos, prio, Edit::DefAlloc { alloc, vreg }, start);
            },
            None => {},
        }
        let now = values_after_edits(announced, start);
        assert(same_values(now, ideal));
        let told = if action.elide {
            before
        } else {
            ideal
        };
        assert(same_values(told, now));
        lemma_known_holds_of_same(known2, told, now);
        lemma_emitted_moves_do_the_schedule(resolved, i + 1, scratch, extra, pos, prio, holds, known2, announced, start);
        assert(resolved.skip(i).drop_first() =~= resolved.skip(i + 1));
        assert(resolved.skip(i)[0] == m);
        lemma_same_values_after(resolved.skip(i + 1), now, ideal);
    }
}

/// The moves of one class at one place, scheduled and emitted, do what
/// they say when they happen all at once.
///
/// No two of the moves write the same allocation, none reads or writes the
/// scratch register, and the schedule has no move between two stack slots.
/// What the tracker knows is true of the values that the edits so far
/// leave. Then, after the edits that emission adds, the destination of
/// every move holds the value that its source held before them, every
/// allocation that no move writes, but for the scratch register, holds the
/// value it held, and what the tracker knows is true again.
pub proof fn lemma_emitted_class_moves_values(
    moves: Seq<InsertedMove>,
    class: RegClass,
    scratch_reg: PReg,
    pos: ProgPoint,
    prio: InsertMovePrio,
    st: EmitState,
    start: Map<Allocation, int>,
)
    requires
        is_schedulable(as_moves(moves), Allocation::Reg(scratch_reg)),
        !has_stack_to_stack(resolved_moves(as_moves(moves), Allocation::Reg(scratch_reg))),
        known_holds(st.known, values_after_edits(st.edits, start)),
    ensures
        ({
            let out = emit_class(moves, class, scratch_reg, pos, prio, st);
            let before = values_after_edits(st.edits, start);
            let after = values_after_edits(out.edits, start);
            &&& forall|j: int| 0 <= j < moves.len() ==> after[(#[trigger] moves[j]).to_alloc] == before[moves[j].from_alloc]
            &&& forall|x: Allocation|
                x != Allocation::Reg(scratch_reg) && !is_written(as_moves(moves), x) ==> #[trigger] after[x]
                    == before[x]
            &&& known_holds(out.known, after)
            &&& out.extra == st.extra
            &&& out.num_spillslots == st.num_spillslots
        }),
{
    let scratch = Allocation::Reg(scratch_reg);
    let given = as_moves(moves);
    let resolved = resolved_moves(given, scratch);
    let before = values_after_edits(st.edits, start);
    assert(no_stack_to_stack_from(resolved, 0)) by {
        assert forall|k: int| 0 <= k < resolved.len() implies !((#[trigger] resolved[k]).from is Stack
            && resolved[k].to is Stack) by {
            if resolved[k].from is Stack && resolved[k].to is Stack {
                assert(has_stack_to_stack(resolved));
            }
        }
    }
    lemma_emitted_moves_do_the_schedule(resolved, 0, scratch, None, pos, prio, false, st.known, st.edits, start);
    assert(resolved.skip(0) =~= resolved);
    lemma_resolved_moves_carry_out(given, scratch);
    let out = emit_class(moves, class, scratch_reg, pos, prio, st);
    let after = values_after_edits(out.edits, start);
    assert forall|j: int| 0 <= j < moves.len() implies after[(#[trigger] moves[j]).to_alloc]
        == before[moves[j].from_alloc] by {
        assert(given[j].to == moves[j].to_alloc && given[j].from == moves[j].from_alloc);
        lemma_values_come_from(resolved, before, moves[j].to_alloc);
        assert(comes_from(resolved, given[j].to) == given[j].from);
    }
    assert forall|x: Allocation| x != scratch && !is_written(given, x) implies #[trigger] after[x] == before[x] by {
        lemma_values_come_from(resolved, before, x);
    }
}

/// A move between two stack slots, emitted through the scratch register,
/// moves the value.
///
/// After the edits for the move, its destination holds the value that its
/// source held before them. Every other allocation holds the value it
/// held, but for the scratch register where it held no value to keep, and
/// for the spare stack slot where it had to keep one.
pub proof fn lemma_lowered_move_moves_the_value(
    edits: Seq<EditEntry>,
    pos: ProgPoint,
    prio: InsertMovePrio,
    m: Move,
    scratch: Allocation,
    scratch_holds_value: bool,
    extra: Option<Allocation>,
    start: Map<Allocation, int>,
)
    requires
        m.from is Stack,
        m.to is Stack,
        scratch is Reg,
        scratch_holds_value ==> extra is Some && extra->0 is Stack && extra->0 != m.from && extra->0 != m.to,
    ensures
        ({
            let before = values_after_edits(edits, start);
            let after = values_after_edits(
                edits_after_move(edits, pos, prio, m, scratch, scratch_holds_value, extra),
                start,
            );
            &&& after[m.to] == before[m.from]
            &&& scratch_holds_value ==> after[scratch] == before[scratch]
            &&& forall|x: Allocation|
                x != m.to && x != scratch && !(scratch_holds_value && extra == Some(x)) ==> #[trigger] after[x]
                    == before[x]
        }),
{
    let load = Edit::Move { from: m.from, to: scratch, to_vreg: m.to_vreg };
    let store = Edit::Move { from: scratch, to: m.to, to_vreg: m.to_vreg };
    if !scratch_holds_value {
        lemma_values_after_with_edit(edits, pos, prio, load, start);
        lemma_values_after_with_edit(with_edit(edits, pos, prio, load), pos, prio, store, start);
    } else {
        let park = Edit::Move { from: scratch, to: extra->0, to_vreg: None };
        let unpark = Edit::Move { from: extra->0, to: scratch, to_vreg: None };
        let parked = with_edit(edits, pos, prio, park);
        let loaded = with_edit(parked, pos, prio, load);
        let stored = with_edit(loaded, pos, prio, store);
        lemma_values_after_with_edit(edits, pos, prio, park, start);
        lemma_values_after_with_edit(parked, pos, prio, load, start);
        lemma_values_after_with_edit(loaded, pos, prio, store, start);
        lemma_values_after_with_edit(stored, pos, prio, unpark, start);
    }
}

/// Something is known of the allocation, or of a copy of it.
pub open spec fn is_mentioned(known: Map<Allocation, Known>, alloc: Allocation) -> bool {
    known.contains_key(alloc) || exists|b: Allocation|
        known.contains_key(b) && (#[trigger] known[b]).copy_of == Some(alloc)
}

/// What is known stays true across a move between two stack slots that is
/// carried out through the scratch register, as long as nothing is known
/// of what the edits for the move overwrite beside its destination: the
/// scratch register, where it held no value to keep, and the spare stack
/// slot, where it had to keep one.
///
/// The condition matters: the tracker is told of the move, not of what the
/// edits for it overwrite on the way.
pub proof fn lemma_lowered_move_keeps_what_is_known(
    known: Map<Allocation, Known>,
    edits: Seq<EditEntry>,
    pos: ProgPoint,
    prio: InsertMovePrio,
    m: Move,
    scratch: Allocation,
    scratch_holds_value: bool,
    extra: Option<Allocation>,
    start: Map<Allocation, int>,
)
    requires
        m.from is Stack,
        m.to is Stack,
        scratch is Reg,
        scratch_holds_value ==> extra is Some && extra->0 is Stack && extra->0 != m.from && extra->0 != m.to,
        known_holds(known, values_after_edits(edits, start)),
        !move_is_redundant(known, m.from, m.to, m.to_vreg),
        !scratch_holds_value ==> !is_mentioned(state_after_move(known, m.from, m.to, m.to_vreg), scratch),
        scratch_holds_value ==> !is_mentioned(state_after_move(known, m.from, m.to, m.to_vreg), extra->0),
    ensures
        known_holds(
            state_after_move(known, m.from, m.to, m.to_vreg),
            values_after_edits(edits_after_move(edits, pos, prio, m, scratch, scratch_holds_value, extra), start),
        ),
{
    let before = values_after_edits(edits, start);
    let after = values_after_edits(
        edits_after_move(edits, pos, prio, m, scratch, scratch_holds_value, extra),
        start,
    );
    let known2 = state_after_move(known, m.from, m.to, m.to_vreg);
    let ideal = before.insert(m.to, before[m.from]);
    lemma_elision_is_sound(known, before, m.from, m.to, m.to_vreg);
    lemma_lowered_move_moves_the_value(edits, pos, prio, m, scratch, scratch_holds_value, extra, start);
    assert forall|a: Allocation| known2.contains_key(a) && (#[trigger] known2[a]).copy_of is Some implies after[a]
        == after[known2[a].copy_of->0] by {
        let b = known2[a].copy_of->0;
        assert(ideal[a] == ideal[b]);
        if scratch_holds_value {
            assert(a != extra->0 && b != extra->0);
        } else {
            assert(a != scratch && b != scratch);
        }
        assert(after[a] == ideal[a]);
        assert(after[b] == ideal[b]);
    }
}

} // verus!
