//! That a schedule of parallel moves does what the parallel moves say.

use vstd::prelude::*;
use crate::locations::Allocation;
use crate::parallel::{
    count_unvisited,
    dest_keys,
    first_writer_from,
    is_independent,
    lemma_first_writer_found,
    lemma_first_writer_found_back,
    lemma_no_writer,
    lemma_visit_counts_down,
    Move,
    occurs_in,
    resolved_moves,
    schedule_from,
    sorted_by_dest,
    sorted_by_source,
    source_keys,
    unwound,
    unwound_cycle,
    walk,
    writers_of_sources,
};
use crate::sorting::{
    comes_before,
    lemma_order_is_onto,
    lemma_stable_order_exists,
    stable_order,
    stable_sorted,
};

verus! {

/// No two moves write the same allocation.
pub open spec fn dests_are_distinct(moves: Seq<Move>) -> bool {
    forall|i: int, j: int| 0 <= i < j < moves.len() ==> (#[trigger] moves[i]).to != (#[trigger] moves[j]).to
}

/// No move reads or writes the scratch.
pub open spec fn scratch_is_free(moves: Seq<Move>, scratch: Allocation) -> bool {
    forall|i: int| 0 <= i < moves.len() ==> (#[trigger] moves[i]).from != scratch && moves[i].to != scratch
}

/// The allocation whose value, from before the schedule, is in `x` once
/// the moves of the schedule have been carried out one after the other.
pub open spec fn comes_from(schedule: Seq<Move>, x: Allocation) -> Allocation
    decreases schedule.len(),
{
    if schedule.len() == 0 {
        x
    } else {
        let later = comes_from(schedule.drop_first(), x);
        if later == schedule[0].to {
            schedule[0].from
        } else {
            later
        }
    }
}

/// `comes_from` for the moves carried out from the last to the first.
pub open spec fn source_of(out: Seq<Move>, x: Allocation) -> Allocation
    decreases out.len(),
{
    if out.len() == 0 {
        x
    } else {
        let later = source_of(out.drop_last(), x);
        if later == out.last().to {
            out.last().from
        } else {
            later
        }
    }
}

/// `source_of` is `comes_from` of the moves in the opposite order.
pub proof fn lemma_reverse_order(out: Seq<Move>, x: Allocation)
    ensures
        comes_from(out.reverse(), x) == source_of(out, x),
    decreases out.len(),
{
    if out.len() > 0 {
        let r = out.reverse();
        assert(r[0] == out.last());
        assert(r.drop_first() =~= out.drop_last().reverse());
        lemma_reverse_order(out.drop_last(), x);
    }
}

/// Where the value in `x` is to come from once the moves marked as emitted
/// have been scheduled: from the source of the move that writes `x`, if it
/// is emitted; from the scratch while that move waits for the value it
/// closes a cycle with; from `x` itself otherwise.
pub open spec fn expected_source(
    moves: Seq<Move>,
    scratch: Allocation,
    emitted: Seq<bool>,
    pending: Option<int>,
    x: Allocation,
) -> Allocation {
    match first_writer_from(moves, x, 0) {
        Some(w) => if emitted[w as int] {
            if pending == Some(w as int) {
                scratch
            } else {
                moves[w as int].from
            }
        } else {
            x
        },
        None => x,
    }
}

/// What is scheduled so far does what the emitted moves say.
pub open spec fn realizes(
    moves: Seq<Move>,
    scratch: Allocation,
    out: Seq<Move>,
    emitted: Seq<bool>,
    pending: Option<int>,
) -> bool {
    forall|x: Allocation|
        x != scratch ==> #[trigger] source_of(out, x) == expected_source(moves, scratch, emitted, pending, x)
}

/// The move that overwrites the source of an emitted move is emitted too.
pub open spec fn is_closed(moves: Seq<Move>, emitted: Seq<bool>, pending: Option<int>) -> bool {
    forall|i: int|
        0 <= i < moves.len() && #[trigger] emitted[i] && pending != Some(i) ==> (writers_of_sources(
            moves,
        )[i] matches Some(w) ==> emitted[w as int])
}

/// The moves and the scratch are what the laws of scheduling speak of.
pub open spec fn is_schedulable(moves: Seq<Move>, scratch: Allocation) -> bool {
    &&& dests_are_distinct(moves)
    &&& scratch_is_free(moves, scratch)
    &&& moves.len() <= usize::MAX
}

/// Where no two moves write the same allocation, the first writer of the destination of a move is that move.
pub proof fn lemma_writer_of_dest(moves: Seq<Move>, i: int)
    requires
        dests_are_distinct(moves),
        0 <= i < moves.len(),
        moves.len() <= usize::MAX,
    ensures
        first_writer_from(moves, moves[i].to, 0) == Some(i as usize),
{
    assert forall|k: int| 0 <= k < i implies moves[k].to != moves[i].to by {}
    lemma_first_writer_found(moves, moves[i].to, 0, i);
}

/// The first writer of an allocation writes it, and where there is none, no move writes it.
pub proof fn lemma_writer_writes(moves: Seq<Move>, x: Allocation)
    requires
        moves.len() <= usize::MAX,
    ensures
        match first_writer_from(moves, x, 0) {
            Some(w) => w < moves.len() && moves[w as int].to == x,
            None => forall|k: int| 0 <= k < moves.len() ==> moves[k].to != x,
        },
{
    if first_writer_from(moves, x, 0) is Some {
        lemma_first_writer_found_back(moves, x, 0);
    } else {
        lemma_no_writer(moves, x, 0);
    }
}

proof fn lemma_source_after_push(out: Seq<Move>, m: Move, x: Allocation)
    ensures
        source_of(out.push(m), x) == if source_of(out, x) == m.to {
            m.from
        } else {
            source_of(out, x)
        },
{
    assert(out.push(m).drop_last() =~= out);
    assert(out.push(m).last() == m);
}

/// Scheduling a move whose source nothing scheduled so far needs.
proof fn lemma_emit_move(
    moves: Seq<Move>,
    scratch: Allocation,
    out: Seq<Move>,
    emitted: Seq<bool>,
    pending: Option<int>,
    i: int,
)
    requires
        is_schedulable(moves, scratch),
        emitted.len() == moves.len(),
        0 <= i < moves.len(),
        !emitted[i],
        pending != Some(i),
        realizes(moves, scratch, out, emitted, pending),
        is_closed(moves, emitted, pending),
        writers_of_sources(moves)[i] matches Some(w) ==> emitted[w as int],
    ensures
        realizes(moves, scratch, out.push(moves[i]), emitted.update(i, true), pending),
        is_closed(moves, emitted.update(i, true), pending),
{
    let emitted2 = emitted.update(i, true);
    assert forall|x: Allocation| x != scratch implies #[trigger] source_of(out.push(moves[i]), x)
        == expected_source(moves, scratch, emitted2, pending, x) by {
        lemma_source_after_push(out, moves[i], x);
        lemma_writer_writes(moves, x);
        assert(source_of(out, x) == expected_source(moves, scratch, emitted, pending, x));
        match first_writer_from(moves, x, 0) {
            Some(w) => {
                if emitted[w as int] {
                    if pending != Some(w as int) {
                        if moves[w as int].from == moves[i].to {
                            lemma_writer_of_dest(moves, i);
                            assert(writers_of_sources(moves)[w as int] == Some(i as usize));
                        }
                    }
                } else if w as int != i {
                    if w < i {
                        assert(moves[w as int].to != moves[i].to);
                    } else {
                        assert(moves[i].to != moves[w as int].to);
                    }
                }
            },
            None => {},
        }
    }
    assert forall|j: int| 0 <= j < moves.len() && #[trigger] emitted2[j] && pending != Some(j) implies (
    writers_of_sources(moves)[j] matches Some(w) ==> emitted2[w as int]) by {
        lemma_writer_writes(moves, moves[j].from);
        if j != i {
            assert(emitted[j]);
        }
    }
}

/// Scheduling the move that closes a cycle: it reads the scratch.
proof fn lemma_emit_closing(moves: Seq<Move>, scratch: Allocation, out: Seq<Move>, emitted: Seq<bool>, top: int)
    requires
        is_schedulable(moves, scratch),
        emitted.len() == moves.len(),
        0 <= top < moves.len(),
        !emitted[top],
        realizes(moves, scratch, out, emitted, None),
        is_closed(moves, emitted, None),
    ensures
        realizes(
            moves,
            scratch,
            out.push(Move { from: scratch, to: moves[top].to, to_vreg: moves[top].to_vreg }),
            emitted.update(top, true),
            Some(top),
        ),
        is_closed(moves, emitted.update(top, true), Some(top)),
{
    let emitted2 = emitted.update(top, true);
    let closing = Move { from: scratch, to: moves[top].to, to_vreg: moves[top].to_vreg };
    assert forall|x: Allocation| x != scratch implies #[trigger] source_of(out.push(closing), x)
        == expected_source(moves, scratch, emitted2, Some(top), x) by {
        lemma_source_after_push(out, closing, x);
        lemma_writer_writes(moves, x);
        assert(source_of(out, x) == expected_source(moves, scratch, emitted, None, x));
        match first_writer_from(moves, x, 0) {
            Some(w) => {
                if emitted[w as int] {
                    if moves[w as int].from == moves[top].to {
                        lemma_writer_of_dest(moves, top);
                        assert(writers_of_sources(moves)[w as int] == Some(top as usize));
                    }
                } else if w as int != top {
                    if w < top {
                        assert(moves[w as int].to != moves[top].to);
                    } else {
                        assert(moves[top].to != moves[w as int].to);
                    }
                }
            },
            None => {},
        }
    }
    assert forall|j: int| 0 <= j < moves.len() && #[trigger] emitted2[j] && Some(top) != Some(j) implies (
    writers_of_sources(moves)[j] matches Some(w) ==> emitted2[w as int]) by {
        lemma_writer_writes(moves, moves[j].from);
        assert(emitted[j]);
    }
}

/// Scheduling the move that saves the source of the closing move in the
/// scratch: with it the cycle is complete.
proof fn lemma_emit_saving(moves: Seq<Move>, scratch: Allocation, out: Seq<Move>, emitted: Seq<bool>, top: int)
    requires
        is_schedulable(moves, scratch),
        emitted.len() == moves.len(),
        0 <= top < moves.len(),
        emitted[top],
        realizes(moves, scratch, out, emitted, Some(top)),
        is_closed(moves, emitted, Some(top)),
        writers_of_sources(moves)[top] matches Some(w) ==> emitted[w as int],
    ensures
        realizes(moves, scratch, out.push(Move { from: moves[top].from, to: scratch, to_vreg: None }), emitted, None),
        is_closed(moves, emitted, None),
{
    let saving = Move { from: moves[top].from, to: scratch, to_vreg: None };
    assert forall|x: Allocation| x != scratch implies #[trigger] source_of(out.push(saving), x)
        == expected_source(moves, scratch, emitted, None, x) by {
        lemma_source_after_push(out, saving, x);
        lemma_writer_writes(moves, x);
        assert(source_of(out, x) == expected_source(moves, scratch, emitted, Some(top), x));
    }
}

/// The moves that are scheduled: visited, and no longer on the stack.
pub open spec fn emitted_of(visited: Seq<bool>, stack: Seq<usize>) -> Seq<bool> {
    Seq::new(visited.len(), |i: int| visited[i] && !stack.contains(i as usize))
}

/// The stack holds visited moves, none twice, each below the move that
/// overwrites its source.
pub open spec fn is_chain(moves: Seq<Move>, visited: Seq<bool>, stack: Seq<usize>) -> bool {
    &&& forall|t: int| 0 <= t < stack.len() ==> (#[trigger] stack[t]) < moves.len() && visited[stack[t] as int]
    &&& forall|a: int, b: int| 0 <= a < b < stack.len() ==> (#[trigger] stack[a]) != (#[trigger] stack[b])
    &&& forall|t: int|
        0 <= t < stack.len() - 1 ==> writers_of_sources(moves)[(#[trigger] stack[t]) as int] == Some(stack[t + 1])
}

proof fn lemma_emitted_after_pop(moves: Seq<Move>, visited: Seq<bool>, stack: Seq<usize>)
    requires
        visited.len() == moves.len(),
        moves.len() <= usize::MAX,
        is_chain(moves, visited, stack),
        stack.len() > 0,
    ensures
        emitted_of(visited, stack).update(stack.last() as int, true) =~= emitted_of(visited, stack.drop_last()),
        !emitted_of(visited, stack)[stack.last() as int],
        is_chain(moves, visited, stack.drop_last()),
{
    let rest = stack.drop_last();
    let top = stack.last();
    assert(stack[stack.len() - 1] == top);
    assert(stack.contains(top));
    assert forall|i: int| 0 <= i < visited.len() implies emitted_of(visited, stack).update(top as int, true)[i]
        == emitted_of(visited, rest)[i] by {
        let u = i as usize;
        if i == top as int {
            if rest.contains(top) {
                let at = choose|at: int| 0 <= at < rest.len() && rest[at] == top;
                assert(stack[at] == top);
            }
        } else {
            if stack.contains(u) {
                let at = choose|at: int| 0 <= at < stack.len() && stack[at] == u;
                assert(rest[at] == u);
            }
            if rest.contains(u) {
                let at = choose|at: int| 0 <= at < rest.len() && rest[at] == u;
                assert(stack[at] == u);
            }
        }
    }
    assert forall|t: int| 0 <= t < rest.len() implies (#[trigger] rest[t]) < moves.len() && visited[rest[t] as int] by {
        assert(rest[t] == stack[t]);
    }
    assert forall|a: int, b: int| 0 <= a < b < rest.len() implies (#[trigger] rest[a]) != (#[trigger] rest[b]) by {
        assert(rest[a] == stack[a] && rest[b] == stack[b]);
    }
    assert forall|t: int| 0 <= t < rest.len() - 1 implies writers_of_sources(moves)[(#[trigger] rest[t]) as int]
        == Some(rest[t + 1]) by {
        assert(rest[t] == stack[t] && rest[t + 1] == stack[t + 1]);
    }
}

/// Unwinding the stack schedules every move on it.
proof fn lemma_unwind(moves: Seq<Move>, scratch: Allocation, visited: Seq<bool>, stack: Seq<usize>, out: Seq<Move>)
    requires
        is_schedulable(moves, scratch),
        visited.len() == moves.len(),
        is_chain(moves, visited, stack),
        realizes(moves, scratch, out, emitted_of(visited, stack), None),
        is_closed(moves, emitted_of(visited, stack), None),
        stack.len() > 0 ==> (writers_of_sources(moves)[stack.last() as int] matches Some(w) ==> emitted_of(
            visited,
            stack,
        )[w as int]),
    ensures
        realizes(moves, scratch, out + unwound(moves, stack), emitted_of(visited, Seq::empty()), None),
        is_closed(moves, emitted_of(visited, Seq::empty()), None),
    decreases stack.len(),
{
    if stack.len() == 0 {
        assert(out + unwound(moves, stack) =~= out);
        assert(stack =~= Seq::<usize>::empty());
    } else {
        let top = stack.last();
        let rest = stack.drop_last();
        assert(stack[stack.len() - 1] == top);
        lemma_emitted_after_pop(moves, visited, stack);
        lemma_emit_move(moves, scratch, out, emitted_of(visited, stack), None, top as int);
        if rest.len() > 0 {
            assert(rest.last() == stack[stack.len() - 2]);
            assert(writers_of_sources(moves)[stack[stack.len() - 2] as int] == Some(stack[stack.len() - 2 + 1]));
        }
        lemma_unwind(moves, scratch, visited, rest, out.push(moves[top as int]));
        assert(out.push(moves[top as int]) + unwound(moves, rest) =~= out + unwound(moves, stack));
    }
}

/// Unwinding a cycle from the stack schedules its moves, the closing move
/// waiting for the scratch.
proof fn lemma_unwind_cycle(
    moves: Seq<Move>,
    scratch: Allocation,
    visited: Seq<bool>,
    stack: Seq<usize>,
    out: Seq<Move>,
    next: usize,
    top: int,
    is_top: bool,
)
    requires
        is_schedulable(moves, scratch),
        visited.len() == moves.len(),
        is_chain(moves, visited, stack),
        stack.contains(next),
        0 <= top < moves.len(),
        is_top ==> top == stack.last() && realizes(moves, scratch, out, emitted_of(visited, stack), None)
            && is_closed(moves, emitted_of(visited, stack), None),
        !is_top ==> emitted_of(visited, stack)[top] && realizes(
            moves,
            scratch,
            out,
            emitted_of(visited, stack),
            Some(top),
        ) && is_closed(moves, emitted_of(visited, stack), Some(top)) && (writers_of_sources(
            moves,
        )[stack.last() as int] matches Some(w) ==> emitted_of(visited, stack)[w as int]),
    ensures
        ({
            let (steps, rest) = unwound_cycle(moves, stack, next, scratch, is_top);
            &&& realizes(moves, scratch, out + steps, emitted_of(visited, rest), Some(top))
            &&& is_closed(moves, emitted_of(visited, rest), Some(top))
            &&& is_chain(moves, visited, rest)
            &&& emitted_of(visited, rest)[next as int]
            &&& emitted_of(visited, rest)[top]
            &&& rest.len() > 0 ==> writers_of_sources(moves)[rest.last() as int] == Some(next)
        }),
    decreases stack.len(),
{
    let idx = stack.last();
    let rest = stack.drop_last();
    assert(stack[stack.len() - 1] == idx);
    let m = moves[idx as int];
    let step = if is_top {
        Move { from: scratch, to: m.to, to_vreg: m.to_vreg }
    } else {
        m
    };
    lemma_emitted_after_pop(moves, visited, stack);
    if is_top {
        lemma_emit_closing(moves, scratch, out, emitted_of(visited, stack), top);
    } else {
        lemma_emit_move(moves, scratch, out, emitted_of(visited, stack), Some(top), idx as int);
    }
    if rest.len() > 0 {
        assert(rest.last() == stack[stack.len() - 2]);
        assert(writers_of_sources(moves)[stack[stack.len() - 2] as int] == Some(stack[stack.len() - 2 + 1]));
    }
    if idx == next {
        assert(out + seq![step] =~= out.push(step));
    } else {
        let at = choose|at: int| 0 <= at < stack.len() && stack[at] == next;
        assert(rest[at] == next);
        lemma_unwind_cycle(moves, scratch, visited, rest, out.push(step), next, top, false);
        let (steps, left) = unwound_cycle(moves, rest, next, scratch, false);
        assert(out.push(step) + steps =~= out + (seq![step] + steps));
    }
}

/// Following one chain schedules every move that was on the stack or is
/// visited on the way.
proof fn lemma_walk(moves: Seq<Move>, scratch: Allocation, visited: Seq<bool>, stack: Seq<usize>, out: Seq<Move>)
    requires
        is_schedulable(moves, scratch),
        visited.len() == moves.len(),
        stack.len() > 0,
        is_chain(moves, visited, stack),
        realizes(moves, scratch, out, emitted_of(visited, stack), None),
        is_closed(moves, emitted_of(visited, stack), None),
    ensures
        ({
            let (seen, scheduled) = walk(moves, writers_of_sources(moves), scratch, visited, stack, out);
            &&& seen.len() == moves.len()
            &&& forall|i: int| 0 <= i < visited.len() && visited[i] ==> seen[i]
            &&& realizes(moves, scratch, scheduled, emitted_of(seen, Seq::empty()), None)
            &&& is_closed(moves, emitted_of(seen, Seq::empty()), None)
        }),
    decreases count_unvisited(visited),
{
    let writers = writers_of_sources(moves);
    let top = stack.last();
    assert(stack[stack.len() - 1] == top);
    lemma_writer_writes(moves, moves[top as int].from);
    match writers[top as int] {
        None => {
            lemma_unwind(moves, scratch, visited, stack, out);
        },
        Some(next) => {
            if !visited[next as int] {
                lemma_visit_counts_down(visited, next as int);
                let visited2 = visited.update(next as int, true);
                let stack2 = stack.push(next);
                assert(!stack.contains(next)) by {
                    if stack.contains(next) {
                        let at = choose|at: int| 0 <= at < stack.len() && stack[at] == next;
                        assert(visited[stack[at] as int]);
                    }
                }
                assert(emitted_of(visited2, stack2) =~= emitted_of(visited, stack)) by {
                    assert forall|i: int| 0 <= i < visited.len() implies emitted_of(visited2, stack2)[i]
                        == emitted_of(visited, stack)[i] by {
                        let u = i as usize;
                        if u == next {
                            assert(stack2[stack2.len() - 1] == next);
                        } else {
                            if stack.contains(u) {
                                let at = choose|at: int| 0 <= at < stack.len() && stack[at] == u;
                                assert(stack2[at] == u);
                            }
                            if stack2.contains(u) {
                                let at = choose|at: int| 0 <= at < stack2.len() && stack2[at] == u;
                                assert(stack[at] == u);
                            }
                        }
                    }
                }
                assert(is_chain(moves, visited2, stack2)) by {
                    assert forall|t: int| 0 <= t < stack2.len() implies (#[trigger] stack2[t]) < moves.len()
                        && visited2[stack2[t] as int] by {
                        if t < stack.len() {
                            assert(stack2[t] == stack[t]);
                        }
                    }
                    assert forall|a: int, b: int| 0 <= a < b < stack2.len() implies (#[trigger] stack2[a]) != (
                    #[trigger] stack2[b]) by {
                        assert(stack2[a] == stack[a]);
                        if b < stack.len() {
                            assert(stack2[b] == stack[b]);
                        } else {
                            assert(stack.contains(stack[a]));
                        }
                    }
                    assert forall|t: int| 0 <= t < stack2.len() - 1 implies writers_of_sources(
                        moves,
                    )[(#[trigger] stack2[t]) as int] == Some(stack2[t + 1]) by {
                        assert(stack2[t] == stack[t]);
                        if t < stack.len() - 1 {
                            assert(stack2[t + 1] == stack[t + 1]);
                        }
                    }
                }
                lemma_walk(moves, scratch, visited2, stack2, out);
            } else if !stack.contains(next) {
                lemma_unwind(moves, scratch, visited, stack, out);
            } else {
                lemma_unwind_cycle(moves, scratch, visited, stack, out, next, top as int, true);
                let (steps, rest) = unwound_cycle(moves, stack, next, scratch, true);
                lemma_emit_saving(moves, scratch, out + steps, emitted_of(visited, rest), top as int);
                let save = Move { from: moves[top as int].from, to: scratch, to_vreg: None };
                assert((out + steps).push(save) =~= out + steps + seq![save]);
                lemma_unwind(moves, scratch, visited, rest, out + steps + seq![save]);
            }
        },
    }
}

/// Every position before `start` is visited.
pub open spec fn visited_below(visited: Seq<bool>, start: int) -> bool {
    forall|i: int| 0 <= i < start && i < visited.len() ==> visited[i]
}

/// Walking the chains from every move schedules every move.
proof fn lemma_schedule(moves: Seq<Move>, scratch: Allocation, visited: Seq<bool>, start: int, out: Seq<Move>)
    requires
        is_schedulable(moves, scratch),
        visited.len() == moves.len(),
        0 <= start <= moves.len(),
        visited_below(visited, start),
        realizes(moves, scratch, out, emitted_of(visited, Seq::empty()), None),
        is_closed(moves, emitted_of(visited, Seq::empty()), None),
    ensures
        realizes(
            moves,
            scratch,
            schedule_from(moves, writers_of_sources(moves), scratch, visited, start, out),
            Seq::new(moves.len(), |i: int| true),
            None,
        ),
    decreases moves.len() - start,
{
    let none = Seq::<usize>::empty();
    if start >= moves.len() {
        assert(emitted_of(visited, none) =~= Seq::new(moves.len(), |i: int| true));
    } else if visited[start] {
        lemma_schedule(moves, scratch, visited, start + 1, out);
    } else {
        let visited2 = visited.update(start, true);
        let stack = seq![start as usize];
        assert(stack[0] == start as usize);
        assert(emitted_of(visited2, stack) =~= emitted_of(visited, none)) by {
            assert forall|i: int| 0 <= i < visited.len() implies emitted_of(visited2, stack)[i] == emitted_of(
                visited,
                none,
            )[i] by {
                let u = i as usize;
                if i == start {
                    assert(stack.contains(u));
                } else if stack.contains(u) {
                    let at = choose|at: int| 0 <= at < stack.len() && stack[at] == u;
                }
            }
        }
        lemma_walk(moves, scratch, visited2, stack, out);
        let (seen, scheduled) = walk(moves, writers_of_sources(moves), scratch, visited2, stack, out);
        assert(visited_below(seen, start + 1)) by {
            assert forall|i: int| 0 <= i < start + 1 && i < seen.len() implies seen[i] by {
                assert(visited2[i]);
            }
        }
        lemma_schedule(moves, scratch, seen, start + 1, scheduled);
    }
}

/// Some move writes `x`.
pub open spec fn is_written(moves: Seq<Move>, x: Allocation) -> bool {
    exists|j: int| 0 <= j < moves.len() && (#[trigger] moves[j]).to == x
}

/// Carried out one move after the other, the schedule does what the moves
/// say when they happen all at once: the destination of every move ends up
/// with the value that its source held before, and every other allocation
/// but the scratch keeps its value.
pub open spec fn carries_out(schedule: Seq<Move>, moves: Seq<Move>, scratch: Allocation) -> bool {
    &&& forall|j: int| 0 <= j < moves.len() ==> comes_from(schedule, (#[trigger] moves[j]).to) == moves[j].from
    &&& forall|x: Allocation| x != scratch && !is_written(moves, x) ==> #[trigger] comes_from(schedule, x) == x
}

/// The two lists hold the same moves.
pub open spec fn is_rearranged(a: Seq<Move>, b: Seq<Move>) -> bool {
    &&& a.len() == b.len()
    &&& forall|i: int| 0 <= i < a.len() ==> occurs_in(#[trigger] a[i], b)
    &&& forall|j: int| 0 <= j < b.len() ==> occurs_in(#[trigger] b[j], a)
}

proof fn lemma_sorted_is_schedulable(items: Seq<Move>, keys: Seq<u64>, scratch: Allocation)
    requires
        is_schedulable(items, scratch),
        items.len() == keys.len(),
    ensures
        is_schedulable(stable_sorted(items, keys), scratch),
        is_rearranged(stable_sorted(items, keys), items),
{
    lemma_stable_order_exists(keys);
    let order = stable_order(keys);
    let sorted = stable_sorted(items, keys);
    assert forall|i: int| 0 <= i < sorted.len() implies occurs_in(#[trigger] sorted[i], items) by {
        assert(0 <= order[i] < keys.len());
        assert(items[order[i] as int] == sorted[i]);
    }
    assert forall|j: int| 0 <= j < items.len() implies occurs_in(#[trigger] items[j], sorted) by {
        lemma_order_is_onto(keys, order, j);
        let i = choose|i: int| 0 <= i < order.len() && order[i] == j;
        assert(sorted[i] == items[j]);
    }
    assert forall|i: int, j: int| 0 <= i < j < sorted.len() implies (#[trigger] sorted[i]).to != (
    #[trigger] sorted[j]).to by {
        assert(0 <= order[i] < keys.len() && 0 <= order[j] < keys.len());
        assert(comes_before(keys, order[i] as int, order[j] as int));
        let a = order[i] as int;
        let b = order[j] as int;
        assert(a != b);
        if a < b {
            assert(items[a].to != items[b].to);
        } else {
            assert(items[b].to != items[a].to);
        }
    }
    assert forall|i: int| 0 <= i < sorted.len() implies (#[trigger] sorted[i]).from != scratch && sorted[i].to
        != scratch by {
        assert(0 <= order[i] < keys.len());
        assert(items[order[i] as int].from != scratch);
    }
}

proof fn lemma_rearranged_twice(a: Seq<Move>, b: Seq<Move>, c: Seq<Move>)
    requires
        is_rearranged(a, b),
        is_rearranged(b, c),
    ensures
        is_rearranged(a, c),
{
    assert forall|i: int| 0 <= i < a.len() implies occurs_in(#[trigger] a[i], c) by {
        assert(occurs_in(a[i], b));
        let j = choose|j: int| 0 <= j < b.len() && b[j] == a[i];
        assert(occurs_in(b[j], c));
    }
    assert forall|k: int| 0 <= k < c.len() implies occurs_in(#[trigger] c[k], a) by {
        assert(occurs_in(c[k], b));
        let j = choose|j: int| 0 <= j < b.len() && b[j] == c[k];
        assert(occurs_in(b[j], a));
    }
}

/// A schedule that carries out some moves carries out the same moves in
/// any other order.
proof fn lemma_carries_out_rearranged(schedule: Seq<Move>, a: Seq<Move>, b: Seq<Move>, scratch: Allocation)
    requires
        carries_out(schedule, a, scratch),
        is_rearranged(a, b),
    ensures
        carries_out(schedule, b, scratch),
{
    assert forall|j: int| 0 <= j < b.len() implies comes_from(schedule, (#[trigger] b[j]).to) == b[j].from by {
        assert(occurs_in(b[j], a));
        let i = choose|i: int| 0 <= i < a.len() && a[i] == b[j];
        assert(comes_from(schedule, a[i].to) == a[i].from);
    }
    assert forall|x: Allocation| x != scratch && !is_written(b, x) implies #[trigger] comes_from(schedule, x)
        == x by {
        if is_written(a, x) {
            let i = choose|i: int| 0 <= i < a.len() && (#[trigger] a[i]).to == x;
            assert(occurs_in(a[i], b));
            let j = choose|j: int| 0 <= j < b.len() && b[j] == a[i];
            assert(b[j].to == x);
        }
    }
}

/// Moves of which none overwrites the source of another can be carried
/// out in the order in which they stand.
proof fn lemma_independent_moves(schedule: Seq<Move>, x: Allocation)
    requires
        dests_are_distinct(schedule),
        is_independent(schedule),
    ensures
        forall|j: int| 0 <= j < schedule.len() && (#[trigger] schedule[j]).to == x ==> comes_from(schedule, x)
            == schedule[j].from,
        !is_written(schedule, x) ==> comes_from(schedule, x) == x,
    decreases schedule.len(),
{
    if schedule.len() > 0 {
        let rest = schedule.drop_first();
        assert forall|i: int, j: int| 0 <= i < j < rest.len() implies (#[trigger] rest[i]).to != (
        #[trigger] rest[j]).to by {
            assert(rest[i] == schedule[i + 1] && rest[j] == schedule[j + 1]);
        }
        assert forall|i: int, j: int| 0 <= i < rest.len() && 0 <= j < rest.len() implies rest[i].from
            != rest[j].to by {
            assert(rest[i] == schedule[i + 1] && rest[j] == schedule[j + 1]);
            assert(schedule[i + 1].from != schedule[j + 1].to);
        }
        lemma_independent_moves(rest, x);
        let later = comes_from(rest, x);
        if is_written(rest, x) {
            let k = choose|k: int| 0 <= k < rest.len() && (#[trigger] rest[k]).to == x;
            assert(rest[k] == schedule[k + 1]);
            assert(later == schedule[k + 1].from);
            assert(schedule[k + 1].from != schedule[0].to);
            assert forall|j: int| 0 <= j < schedule.len() && (#[trigger] schedule[j]).to == x implies j == k + 1 by {
                if j < k + 1 {
                    assert(schedule[j].to != schedule[k + 1].to);
                } else if j > k + 1 {
                    assert(schedule[k + 1].to != schedule[j].to);
                }
            }
            assert(is_written(schedule, x));
        } else {
            assert(later == x);
            assert forall|j: int| 0 <= j < schedule.len() && (#[trigger] schedule[j]).to == x implies j == 0 by {
                if j > 0 {
                    assert(rest[j - 1] == schedule[j]);
                    assert(rest[j - 1].to == x);
                }
            }
            if schedule[0].to == x {
                assert(is_written(schedule, x));
            }
        }
    }
}

/// The schedule that `resolved_moves` gives does what the parallel moves
/// say, provided no two of them write the same allocation and none of
/// them reads or writes the scratch.
pub proof fn lemma_resolved_moves_carry_out(moves: Seq<Move>, scratch: Allocation)
    requires
        is_schedulable(moves, scratch),
    ensures
        carries_out(resolved_moves(moves, scratch), moves, scratch),
{
    let resolved = resolved_moves(moves, scratch);
    if moves.len() == 0 {
    } else if moves.len() == 1 {
        let rest = moves.drop_first();
        assert(rest.len() == 0);
        assert forall|x: Allocation| comes_from(rest, x) == x by {}
        assert forall|j: int| 0 <= j < moves.len() implies comes_from(moves, (#[trigger] moves[j]).to)
            == moves[j].from by {
            assert(comes_from(rest, moves[0].to) == moves[0].to);
        }
        assert forall|x: Allocation| x != scratch && !is_written(moves, x) implies #[trigger] comes_from(moves, x)
            == x by {
            assert(comes_from(rest, x) == x);
            assert(moves[0].to != x);
        }
    } else {
        let by_dest0 = sorted_by_dest(moves);
        lemma_sorted_is_schedulable(moves, dest_keys(moves), scratch);
        let by_source = sorted_by_source(moves);
        lemma_sorted_is_schedulable(by_dest0, source_keys(by_dest0), scratch);
        let by_dest = sorted_by_dest(by_source);
        lemma_sorted_is_schedulable(by_source, dest_keys(by_source), scratch);
        lemma_rearranged_twice(by_source, by_dest0, moves);
        lemma_rearranged_twice(by_dest, by_source, moves);
        if is_independent(by_dest) {
            assert(is_independent(by_source)) by {
                assert forall|i: int, j: int| 0 <= i < by_source.len() && 0 <= j < by_source.len() implies by_source[i].from
                    != by_source[j].to by {
                    assert(occurs_in(by_source[i], by_dest));
                    assert(occurs_in(by_source[j], by_dest));
                    let a = choose|a: int| 0 <= a < by_dest.len() && by_dest[a] == by_source[i];
                    let b = choose|b: int| 0 <= b < by_dest.len() && by_dest[b] == by_source[j];
                    assert(by_dest[a].from != by_dest[b].to);
                }
            }
            assert(carries_out(by_source, by_source, scratch)) by {
                assert forall|j: int| 0 <= j < by_source.len() implies comes_from(
                    by_source,
                    (#[trigger] by_source[j]).to,
                ) == by_source[j].from by {
                    lemma_independent_moves(by_source, by_source[j].to);
                }
                assert forall|x: Allocation| x != scratch && !is_written(by_source, x) implies #[trigger] comes_from(
                    by_source,
                    x,
                ) == x by {
                    lemma_independent_moves(by_source, x);
                }
            }
            lemma_carries_out_rearranged(by_source, by_source, moves, scratch);
        } else {
            let n = by_dest.len();
            let unvisited = Seq::new(n, |i: int| false);
            let none = Seq::<usize>::empty();
            let nothing = Seq::<Move>::empty();
            assert(realizes(by_dest, scratch, nothing, emitted_of(unvisited, none), None)) by {
                assert forall|x: Allocation| x != scratch implies #[trigger] source_of(nothing, x)
                    == expected_source(by_dest, scratch, emitted_of(unvisited, none), None, x) by {
                    lemma_writer_writes(by_dest, x);
                }
            }
            lemma_schedule(by_dest, scratch, unvisited, 0, nothing);
            let out = schedule_from(by_dest, writers_of_sources(by_dest), scratch, unvisited, 0, nothing);
            assert(resolved == out.reverse());
            let all = Seq::new(n, |i: int| true);
            assert(carries_out(resolved, by_dest, scratch)) by {
                assert forall|j: int| 0 <= j < by_dest.len() implies comes_from(
                    resolved,
                    (#[trigger] by_dest[j]).to,
                ) == by_dest[j].from by {
                    let x = by_dest[j].to;
                    lemma_reverse_order(out, x);
                    lemma_writer_of_dest(by_dest, j);
                    assert(source_of(out, x) == expected_source(by_dest, scratch, all, None, x));
                }
                assert forall|x: Allocation| x != scratch && !is_written(by_dest, x) implies #[trigger] comes_from(
                    resolved,
                    x,
                ) == x by {
                    lemma_reverse_order(out, x);
                    lemma_writer_writes(by_dest, x);
                    assert(source_of(out, x) == expected_source(by_dest, scratch, all, None, x));
                    if first_writer_from(by_dest, x, 0) is Some {
                        let w = first_writer_from(by_dest, x, 0)->0 as int;
                        assert(by_dest[w].to == x);
                    }
                }
            }
            lemma_carries_out_rearranged(resolved, by_dest, moves, scratch);
        }
    }
}

/// The values in the allocations after the moves of the schedule have been
/// carried out one after the other, from the values before.
pub open spec fn values_after(schedule: Seq<Move>, values: Map<Allocation, int>) -> Map<Allocation, int>
    decreases schedule.len(),
{
    if schedule.len() == 0 {
        values
    } else {
        values_after(schedule.drop_first(), values.insert(schedule[0].to, values[schedule[0].from]))
    }
}

/// After the schedule, an allocation holds the value that was in the
/// allocation that `comes_from` names.
pub proof fn lemma_values_come_from(schedule: Seq<Move>, values: Map<Allocation, int>, x: Allocation)
    ensures
        values_after(schedule, values)[x] == values[comes_from(schedule, x)],
    decreases schedule.len(),
{
    if schedule.len() > 0 {
        let next = values.insert(schedule[0].to, values[schedule[0].from]);
        lemma_values_come_from(schedule.drop_first(), next, x);
    }
}

/// Parallel moves, scheduled and carried out: every destination holds the
/// value that its source held before, and every allocation that no move
/// writes, but for the scratch, holds the value it held before.
pub proof fn lemma_schedule_moves_values(moves: Seq<Move>, scratch: Allocation, values: Map<Allocation, int>)
    requires
        is_schedulable(moves, scratch),
    ensures
        forall|j: int|
            0 <= j < moves.len() ==> values_after(resolved_moves(moves, scratch), values)[(
            #[trigger] moves[j]).to] == values[moves[j].from],
        forall|x: Allocation|
            x != scratch && !is_written(moves, x) ==> #[trigger] values_after(
                resolved_moves(moves, scratch),
                values,
            )[x] == values[x],
{
    lemma_resolved_moves_carry_out(moves, scratch);
    let resolved = resolved_moves(moves, scratch);
    assert forall|j: int| 0 <= j < moves.len() implies values_after(resolved, values)[(#[trigger] moves[j]).to]
        == values[moves[j].from] by {
        lemma_values_come_from(resolved, values, moves[j].to);
    }
    assert forall|x: Allocation| x != scratch && !is_written(moves, x) implies #[trigger] values_after(
        resolved,
        values,
    )[x] == values[x] by {
        lemma_values_come_from(resolved, values, x);
    }
}

} // verus!
