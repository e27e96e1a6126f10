//! What holds of the edits that emission gives.

use vstd::prelude::*;
use crate::apply::Discovery;
use crate::edits::{Edit, InsertedMove, InsertMovePrio};
use crate::emit::{
    after_side_effects,
    as_moves,
    class_moves,
    edits_after_def,
    edits_in_order,
    emit_class,
    emit_group,
    emit_groups,
    emit_self_moves,
    EmitState,
    group_end,
    has_safepoint,
    is_self_move,
    lemma_group_end_bounds,
    scratch_is_used,
    self_moves,
};
use crate::env::{EditEntry, Env};
use crate::function::{CFGInfo, Function};
use crate::halfmove::MoveError;
use crate::index::{Inst, ProgPoint};
use crate::locations::{Allocation, RegClass, VReg};
use crate::parallel::{Move, resolved_moves};
use crate::redundant::{action_for_move, Known, state_after_move};
use crate::sorting::{comes_before, lemma_stable_order_exists, stable_order};

verus! {

/// The two states agree in everything that emission reads.
pub open spec fn same_for_emission(a: &Env, b: &Env) -> bool {
    &&& a.func == b.func
    &&& a.cfginfo == b.cfginfo
    &&& a.env == b.env
    &&& a.inst_alloc_offsets@ == b.inst_alloc_offsets@
    &&& a.allocs@ == b.allocs@
    &&& a.vreg_regs@ == b.vreg_regs@
    &&& a.inserted_moves@ == b.inserted_moves@
    &&& a.blockparam_allocs@ == b.blockparam_allocs@
    &&& a.edits@ == b.edits@
    &&& a.extra_spillslot@ == b.extra_spillslot@
    &&& a.num_spillslots == b.num_spillslots
}

proof fn lemma_emit_groups_same(
    a: &Env,
    b: &Env,
    moves: Seq<InsertedMove>,
    i: int,
    last_pos: ProgPoint,
    st: EmitState,
)
    requires
        same_for_emission(a, b),
    ensures
        emit_groups(a, moves, i, last_pos, st) == emit_groups(b, moves, i, last_pos, st),
    decreases moves.len() - i,
{
    if 0 <= i < moves.len() {
        let end = group_end(moves, i, i + 1);
        lemma_group_end_bounds(moves, i, i + 1);
        let group = moves.subrange(i, end);
        assert(emit_group(a, group, last_pos, st) == emit_group(b, group, last_pos, st));
        lemma_emit_groups_same(a, b, moves, end, moves[i].pos, emit_group(a, group, last_pos, st));
    }
}

/// Emission is a function of what it reads: two states that agree in it
/// give the same edits, in the same order.
pub proof fn lemma_emission_is_determined(a: &Env, b: &Env)
    requires
        same_for_emission(a, b),
    ensures
        a.emitted_edits() == b.emitted_edits(),
        edits_in_order(a.emitted_edits()) == edits_in_order(b.emitted_edits()),
{
    lemma_emit_groups_same(
        a,
        b,
        crate::emit::moves_in_order(a.inserted_moves@),
        0,
        ProgPoint::spec_before(Inst(0)),
        a.emit_state(Map::empty()),
    );
    assert(a.emit_state(Map::empty()) == b.emit_state(Map::empty()));
}

/// Running the two phases twice from one state gives the same edits.
///
/// Whatever two runs of `apply_allocations_and_insert_moves` leave behind
/// when both succeed, and whatever two runs of `resolve_inserted_moves`
/// make of that, the lists of edits are equal item by item.
pub proof fn lemma_two_runs_give_the_same_edits(
    start: &Env,
    found: Discovery,
    middle1: &Env,
    middle2: &Env,
    end1: &Env,
    end2: &Env,
)
    requires
        start.discovery() == Ok::<Discovery, crate::halfmove::MoveError>(found),
        middle1.holds_discovery(start, found),
        middle2.holds_discovery(start, found),
        end1.holds_emission(middle1),
        end2.holds_emission(middle2),
    ensures
        end1.edits@ == end2.edits@,
        end1.allocs@ == end2.allocs@,
{
    lemma_emission_is_determined(middle1, middle2);
}

proof fn lemma_no_class_moves(group: Seq<InsertedMove>, class: RegClass)
    requires
        forall|i: int| 0 <= i < group.len() ==> (#[trigger] group[i]).from_alloc == group[i].to_alloc,
    ensures
        class_moves(group, class) == Seq::<InsertedMove>::empty(),
    decreases group.len(),
{
    if group.len() > 0 {
        assert(group.last() == group[group.len() - 1]);
        assert forall|i: int| 0 <= i < group.drop_last().len() implies (#[trigger] group.drop_last()[i]).from_alloc
            == group.drop_last()[i].to_alloc by {
            assert(group.drop_last()[i] == group[i]);
        }
        lemma_no_class_moves(group.drop_last(), class);
    }
}

proof fn lemma_self_moves_are_self_moves(group: Seq<InsertedMove>)
    ensures
        forall|i: int| 0 <= i < self_moves(group).len() ==> is_self_move(#[trigger] self_moves(group)[i]),
    decreases group.len(),
{
    if group.len() > 0 {
        lemma_self_moves_are_self_moves(group.drop_last());
        let rest = self_moves(group.drop_last());
        assert forall|i: int| 0 <= i < self_moves(group).len() implies is_self_move(
            #[trigger] self_moves(group)[i],
        ) by {
            if i < rest.len() {
                assert(self_moves(group)[i] == rest[i]);
            }
        }
    }
}

/// The entries from position `from` on all announce a binding.
pub open spec fn only_bindings_from(edits: Seq<EditEntry>, from: int) -> bool {
    forall|k: int| from <= k < edits.len() ==> (#[trigger] edits[k]).2 is DefAlloc
}

proof fn lemma_self_moves_only_announce(
    moves: Seq<InsertedMove>,
    i: int,
    pos: ProgPoint,
    prio: InsertMovePrio,
    known: Map<Allocation, Known>,
    edits: Seq<EditEntry>,
    base: int,
)
    requires
        0 <= i <= moves.len(),
        0 <= base <= edits.len(),
        forall|k: int| 0 <= k < moves.len() ==> is_self_move(#[trigger] moves[k]),
        only_bindings_from(edits, base),
    ensures
        ({
            let out = emit_self_moves(moves, i, pos, prio, known, edits).1;
            &&& out.len() == edits.len() + moves.len() - i
            &&& out.take(base) == edits.take(base)
            &&& only_bindings_from(out, base)
        }),
    decreases moves.len() - i,
{
    if i < moves.len() {
        let m = moves[i];
        assert(is_self_move(m));
        let action = action_for_move(known, m.from_alloc, m.to_alloc, m.to_vreg);
        let next = edits_after_def(edits, pos, prio, action.def_alloc);
        assert(next == edits.push((pos.bits, prio, Edit::DefAlloc { alloc: m.to_alloc, vreg: m.to_vreg->0 })));
        assert(next.take(base) =~= edits.take(base));
        lemma_self_moves_only_announce(
            moves,
            i + 1,
            pos,
            prio,
            state_after_move(known, m.from_alloc, m.to_alloc, m.to_vreg),
            next,
            base,
        );
    }
}

/// A group in which every move goes from an allocation onto itself emits
/// no move: the edits that were there stay, and behind them comes one
/// announcement of a binding for each move that names a virtual register.
pub proof fn lemma_self_move_group_emits_no_move(env: &Env, group: Seq<InsertedMove>, last_pos: ProgPoint, st: EmitState)
    requires
        group.len() > 0,
        forall|i: int| 0 <= i < group.len() ==> (#[trigger] group[i]).from_alloc == group[i].to_alloc,
    ensures
        ({
            let out = emit_group(env, group, last_pos, st);
            &&& out.edits.len() == st.edits.len() + self_moves(group).len()
            &&& out.edits.take(st.edits.len() as int) == st.edits
            &&& only_bindings_from(out.edits, st.edits.len() as int)
            &&& out.extra == st.extra
            &&& out.num_spillslots == st.num_spillslots
        }),
{
    let pos = group[0].pos;
    let prio = group[0].prio;
    lemma_no_class_moves(group, RegClass::Int);
    lemma_no_class_moves(group, RegClass::Float);
    lemma_self_moves_are_self_moves(group);
    let none = Seq::<InsertedMove>::empty();
    assert(as_moves(none) =~= Seq::<Move>::empty());
    let known = after_side_effects(
        st.known,
        &env.func,
        &env.cfginfo,
        env.allocs@,
        env.inst_alloc_offsets@,
        last_pos,
        pos,
    );
    let st0 = EmitState { known, edits: st.edits, extra: st.extra, num_spillslots: st.num_spillslots };
    let int_scratch = Allocation::Reg(env.env.spec_scratch(RegClass::Int));
    let float_scratch = Allocation::Reg(env.env.spec_scratch(RegClass::Float));
    assert(resolved_moves(Seq::<Move>::empty(), int_scratch) == Seq::<Move>::empty());
    assert(resolved_moves(Seq::<Move>::empty(), float_scratch) == Seq::<Move>::empty());
    assert(!scratch_is_used(Seq::<Move>::empty(), int_scratch));
    assert(!scratch_is_used(Seq::<Move>::empty(), float_scratch));
    let st1 = emit_class(none, RegClass::Int, env.env.spec_scratch(RegClass::Int), pos, prio, st0);
    assert(st1 == st0);
    let st2 = emit_class(none, RegClass::Float, env.env.spec_scratch(RegClass::Float), pos, prio, st1);
    assert(st2 == st0);
    lemma_self_moves_only_announce(self_moves(group), 0, pos, prio, st0.known, st0.edits, st.edits.len() as int);
    assert(st.edits.take(st.edits.len() as int) =~= st.edits);
}

/// Nothing is known behind a safepoint, and with nothing known no move
/// that changes something is left out.
pub proof fn lemma_safepoint_stops_elision(
    known: Map<Allocation, Known>,
    func: &Function,
    cfginfo: &CFGInfo,
    allocs: Seq<Allocation>,
    offsets: Seq<u32>,
    from: ProgPoint,
    to: ProgPoint,
    src: Allocation,
    dst: Allocation,
    to_vreg: Option<VReg>,
)
    requires
        has_safepoint(func.insts@, from.spec_inst().0 as int, to.spec_inst().0 as int),
        src != dst,
    ensures
        after_side_effects(known, func, cfginfo, allocs, offsets, from, to) == Map::<Allocation, Known>::empty(),
        !action_for_move(
            after_side_effects(known, func, cfginfo, allocs, offsets, from, to),
            src,
            dst,
            to_vreg,
        ).elide,
{
}

/// In the stable order of a list of keys, keys never go down, and
/// positions with equal keys stand as they stood.
pub proof fn lemma_equal_keys_keep_their_order(keys: Seq<u64>, a: int, b: int)
    requires
        keys.len() <= usize::MAX,
        0 <= a < b < keys.len(),
    ensures
        keys[stable_order(keys)[a] as int] <= keys[stable_order(keys)[b] as int],
        keys[stable_order(keys)[a] as int] == keys[stable_order(keys)[b] as int] ==> stable_order(keys)[a]
            < stable_order(keys)[b],
{
    lemma_stable_order_exists(keys);
    let order = stable_order(keys);
    assert(comes_before(keys, order[a] as int, order[b] as int));
}

/// How many classes have no spare stack slot yet.
pub open spec fn missing_spare_slots(extra: Seq<Option<Allocation>>) -> int {
    (if extra[0] is None {
        1int
    } else {
        0int
    }) + (if extra[1] is None {
        1int
    } else {
        0int
    })
}

proof fn lemma_class_keeps_spare_slots(
    moves: Seq<InsertedMove>,
    class: RegClass,
    scratch: crate::locations::PReg,
    pos: ProgPoint,
    prio: InsertMovePrio,
    st: EmitState,
)
    requires
        st.extra.len() == 2,
    ensures
        ({
            let out = emit_class(moves, class, scratch, pos, prio, st);
            &&& out.extra.len() == 2
            &&& forall|c: int| 0 <= c < 2 && st.extra[c] is Some ==> out.extra[c] == st.extra[c]
            &&& out.num_spillslots + missing_spare_slots(out.extra) == st.num_spillslots + missing_spare_slots(
                st.extra,
            )
            &&& out.num_spillslots >= st.num_spillslots
        }),
{
}

proof fn lemma_group_keeps_spare_slots(env: &Env, group: Seq<InsertedMove>, last_pos: ProgPoint, st: EmitState)
    requires
        st.extra.len() == 2,
    ensures
        ({
            let out = emit_group(env, group, last_pos, st);
            &&& out.extra.len() == 2
            &&& forall|c: int| 0 <= c < 2 && st.extra[c] is Some ==> out.extra[c] == st.extra[c]
            &&& out.num_spillslots + missing_spare_slots(out.extra) == st.num_spillslots + missing_spare_slots(
                st.extra,
            )
            &&& out.num_spillslots >= st.num_spillslots
        }),
{
    let pos = group[0].pos;
    let prio = group[0].prio;
    let known = after_side_effects(
        st.known,
        &env.func,
        &env.cfginfo,
        env.allocs@,
        env.inst_alloc_offsets@,
        last_pos,
        pos,
    );
    let st0 = EmitState { known, edits: st.edits, extra: st.extra, num_spillslots: st.num_spillslots };
    lemma_class_keeps_spare_slots(
        class_moves(group, RegClass::Int),
        RegClass::Int,
        env.env.spec_scratch(RegClass::Int),
        pos,
        prio,
        st0,
    );
    let st1 = emit_class(
        class_moves(group, RegClass::Int),
        RegClass::Int,
        env.env.spec_scratch(RegClass::Int),
        pos,
        prio,
        st0,
    );
    lemma_class_keeps_spare_slots(
        class_moves(group, RegClass::Float),
        RegClass::Float,
        env.env.spec_scratch(RegClass::Float),
        pos,
        prio,
        st1,
    );
}

/// The spare stack slot of a class is handed out at most once: a class
/// that has one keeps it through every group, and the count of stack slots
/// grows by one for each class that gets its spare slot, and by nothing
/// else.
pub proof fn lemma_spare_slots_are_kept(
    env: &Env,
    moves: Seq<InsertedMove>,
    i: int,
    last_pos: ProgPoint,
    st: EmitState,
)
    requires
        st.extra.len() == 2,
    ensures
        ({
            let out = emit_groups(env, moves, i, last_pos, st);
            &&& out.extra.len() == 2
            &&& forall|c: int| 0 <= c < 2 && st.extra[c] is Some ==> out.extra[c] == st.extra[c]
            &&& out.num_spillslots + missing_spare_slots(out.extra) == st.num_spillslots + missing_spare_slots(
                st.extra,
            )
            &&& st.num_spillslots <= out.num_spillslots <= st.num_spillslots + 2
        }),
    decreases moves.len() - i,
{
    if 0 <= i < moves.len() {
        let end = group_end(moves, i, i + 1);
        lemma_group_end_bounds(moves, i, i + 1);
        let group = moves.subrange(i, end);
        lemma_group_keeps_spare_slots(env, group, last_pos, st);
        lemma_spare_slots_are_kept(env, moves, end, moves[i].pos, emit_group(env, group, last_pos, st));
    }
}

} // verus!
