//! Scheduling of moves that are meant to happen all at once.

use vstd::prelude::*;
use crate::locations::{Allocation, VReg};
use crate::sorting::{is_stable_order, sort_by_keys, stable_order, stable_sorted};

verus! {

/// One move of a value from one allocation to another.
#[derive(Clone, Copy, Debug, PartialEq, Eq, Structural)]
pub struct Move {
    pub from: Allocation,
    pub to: Allocation,
    pub to_vreg: Option<VReg>,
}

/// A set of moves that all read their sources before any of them writes,
/// and the scratch allocation that may be used to put them in sequence.
#[derive(Debug)]
pub struct ParallelMoves {
    pub parallel_moves: Vec<Move>,
    pub scratch: Allocation,
}

/// The order keys of the sources.
pub open spec fn source_keys(moves: Seq<Move>) -> Seq<u64> {
    Seq::new(moves.len(), |i: int| moves[i].from.spec_order_key() as u64)
}

/// The order keys of the destinations.
pub open spec fn dest_keys(moves: Seq<Move>) -> Seq<u64> {
    Seq::new(moves.len(), |i: int| moves[i].to.spec_order_key() as u64)
}

/// The moves ordered by destination, ties in their given order.
pub open spec fn sorted_by_dest(moves: Seq<Move>) -> Seq<Move> {
    stable_sorted(moves, dest_keys(moves))
}

/// The moves ordered by source and, among equal sources, by destination.
pub open spec fn sorted_by_source(moves: Seq<Move>) -> Seq<Move> {
    let by_dest = sorted_by_dest(moves);
    stable_sorted(by_dest, source_keys(by_dest))
}

/// The first move at or behind position `j` that writes `alloc`.
pub open spec fn first_writer_from(moves: Seq<Move>, alloc: Allocation, j: int) -> Option<usize>
    decreases moves.len() - j,
{
    if j < 0 || j >= moves.len() {
        None
    } else if moves[j].to == alloc {
        Some(j as usize)
    } else {
        first_writer_from(moves, alloc, j + 1)
    }
}

/// For each move, the first move that overwrites its source, if there is
/// one: the move has to be carried out before that one.
pub open spec fn writers_of_sources(moves: Seq<Move>) -> Seq<Option<usize>> {
    Seq::new(moves.len(), |i: int| first_writer_from(moves, moves[i].from, 0))
}

/// No move overwrites the source of a move.
pub open spec fn is_independent(moves: Seq<Move>) -> bool {
    forall|i: int, j: int| 0 <= i < moves.len() && 0 <= j < moves.len() ==> moves[i].from != moves[j].to
}

/// The move reads the scratch or a source of `moves`, and writes the
/// scratch or a destination of `moves`.
pub open spec fn is_drawn_from(m: Move, moves: Seq<Move>, scratch: Allocation) -> bool {
    &&& m.from == scratch || exists|j: int| 0 <= j < moves.len() && (#[trigger] moves[j]).from == m.from
    &&& m.to == scratch || exists|j: int| 0 <= j < moves.len() && (#[trigger] moves[j]).to == m.to
}

/// Every move of `out` reads and writes only what `moves` mention, or the
/// scratch.
pub open spec fn all_drawn_from(out: Seq<Move>, moves: Seq<Move>, scratch: Allocation) -> bool {
    forall|k: int| 0 <= k < out.len() ==> is_drawn_from(#[trigger] out[k], moves, scratch)
}

/// How many positions are not yet visited.
pub open spec fn count_unvisited(visited: Seq<bool>) -> nat
    decreases visited.len(),
{
    if visited.len() == 0 {
        0
    } else {
        count_unvisited(visited.drop_last()) + if visited.last() {
            0nat
        } else {
            1nat
        }
    }
}

/// Visiting a position that was not visited leaves one position fewer to visit.
pub proof fn lemma_visit_counts_down(visited: Seq<bool>, i: int)
    requires
        0 <= i < visited.len(),
        !visited[i],
    ensures
        count_unvisited(visited.update(i, true)) + 1 == count_unvisited(visited),
    decreases visited.len(),
{
    let after = visited.update(i, true);
    if i == visited.len() - 1 {
        assert(after.drop_last() =~= visited.drop_last());
    } else {
        assert(after.drop_last() =~= visited.drop_last().update(i, true));
        lemma_visit_counts_down(visited.drop_last(), i);
    }
}

/// The moves on the stack, from its top down.
pub open spec fn unwound(moves: Seq<Move>, stack: Seq<usize>) -> Seq<Move> {
    Seq::new(stack.len(), |i: int| moves[stack[stack.len() - 1 - i] as int])
}

/// The moves of a cycle, popped from the top of the stack down to `next`,
/// and what is left of the stack. The move on top, which closes the cycle,
/// reads the scratch in place of its source.
pub open spec fn unwound_cycle(
    moves: Seq<Move>,
    stack: Seq<usize>,
    next: usize,
    scratch: Allocation,
    is_top: bool,
) -> (Seq<Move>, Seq<usize>)
    decreases stack.len(),
{
    if stack.len() == 0 {
        (Seq::empty(), stack)
    } else {
        let m = moves[stack.last() as int];
        let step = if is_top {
            Move { from: scratch, to: m.to, to_vreg: m.to_vreg }
        } else {
            m
        };
        if stack.last() == next {
            (seq![step], stack.drop_last())
        } else {
            let (steps, rest) = unwound_cycle(moves, stack.drop_last(), next, scratch, false);
            (seq![step] + steps, rest)
        }
    }
}

/// Follows the chain of moves that starts on top of the stack, each move
/// before the one that overwrites its source, and appends what it
/// schedules to `out`, last move first.
///
/// The chain ends at a move whose source nobody overwrites, or at a move
/// that is already scheduled: then the stack is unwound onto `out`. Or it
/// runs into a move that is still on the stack: that is a cycle. Its moves
/// are unwound with the closing move reading the scratch, then comes the
/// move that saves the closing move's source in the scratch, then the rest
/// of the stack.
pub open spec fn walk(
    moves: Seq<Move>,
    writers: Seq<Option<usize>>,
    scratch: Allocation,
    visited: Seq<bool>,
    stack: Seq<usize>,
    out: Seq<Move>,
) -> (Seq<bool>, Seq<Move>)
    decreases count_unvisited(visited),
{
    if stack.len() == 0 {
        (visited, out)
    } else {
        let top = stack.last();
        match writers[top as int] {
            None => (visited, out + unwound(moves, stack)),
            Some(next) => {
                if next < visited.len() && !visited[next as int] {
                    proof {
                        lemma_visit_counts_down(visited, next as int);
                    }
                    walk(moves, writers, scratch, visited.update(next as int, true), stack.push(next), out)
                } else if !stack.contains(next) {
                    (visited, out + unwound(moves, stack))
                } else {
                    let (steps, rest) = unwound_cycle(moves, stack, next, scratch, true);
                    let save = Move { from: moves[top as int].from, to: scratch, to_vreg: None };
                    (visited, out + steps + seq![save] + unwound(moves, rest))
                }
            },
        }
    }
}

/// Walks the chains that start at the moves `start`, `start + 1`, .. in
/// turn, skipping the moves that an earlier walk has visited.
pub open spec fn schedule_from(
    moves: Seq<Move>,
    writers: Seq<Option<usize>>,
    scratch: Allocation,
    visited: Seq<bool>,
    start: int,
    out: Seq<Move>,
) -> Seq<Move>
    decreases moves.len() - start,
{
    if start < 0 || start >= moves.len() {
        out
    } else if visited[start] {
        schedule_from(moves, writers, scratch, visited, start + 1, out)
    } else {
        let (seen, scheduled) = walk(
            moves,
            writers,
            scratch,
            visited.update(start, true),
            seq![start as usize],
            out,
        );
        schedule_from(moves, writers, scratch, seen, start + 1, scheduled)
    }
}

/// The sequence of moves that stands for the parallel moves.
///
/// With at most one move there is nothing to order. Moves of which none
/// overwrites the source of another can go in any order, and go by source.
/// Otherwise the moves are ordered by destination and scheduled so that a
/// move comes before the one that overwrites its source, with cycles broken
/// through the scratch.
pub open spec fn resolved_moves(moves: Seq<Move>, scratch: Allocation) -> Seq<Move> {
    if moves.len() <= 1 {
        moves
    } else {
        let by_dest = sorted_by_dest(sorted_by_source(moves));
        if is_independent(by_dest) {
            sorted_by_source(moves)
        } else {
            schedule_from(
                by_dest,
                writers_of_sources(by_dest),
                scratch,
                Seq::new(by_dest.len(), |i: int| false),
                0,
                Seq::empty(),
            ).reverse()
        }
    }
}

/// The first move at or behind `j` that writes `alloc` is the move at `w`, if that one writes it and none between does.
pub proof fn lemma_first_writer_found(moves: Seq<Move>, alloc: Allocation, j: int, w: int)
    requires
        0 <= j <= w < moves.len(),
        forall|k: int| j <= k < w ==> moves[k].to != alloc,
        moves[w].to == alloc,
    ensures
        first_writer_from(moves, alloc, j) == Some(w as usize),
    decreases w - j,
{
    if j < w {
        lemma_first_writer_found(moves, alloc, j + 1, w);
    }
}

/// No move at or behind `j` is the first to write `alloc` if none writes it.
pub proof fn lemma_first_writer_missing(moves: Seq<Move>, alloc: Allocation, j: int)
    requires
        0 <= j,
        forall|k: int| j <= k < moves.len() ==> moves[k].to != alloc,
    ensures
        first_writer_from(moves, alloc, j) is None,
    decreases moves.len() - j,
{
    if j < moves.len() {
        lemma_first_writer_missing(moves, alloc, j + 1);
    }
}

/// The order keys of the sources, or of the destinations, of `moves`.
fn keys_of(moves: &Vec<Move>, of_sources: bool) -> (keys: Vec<u64>)
    ensures
        keys@ == if of_sources {
            source_keys(moves@)
        } else {
            dest_keys(moves@)
        },
{
    let mut keys: Vec<u64> = Vec::new();
    let mut i: usize = 0;
    while i < moves.len()
        invariant
            i <= moves@.len(),
            keys@.len() == i,
            forall|k: int|
                0 <= k < i ==> keys@[k] == if of_sources {
                    moves@[k].from.spec_order_key()
                } else {
                    moves@[k].to.spec_order_key()
                },
        decreases moves@.len() - i,
    {
        let m = moves[i];
        let key = if of_sources {
            m.from.order_key()
        } else {
            m.to.order_key()
        };
        keys.push(key);
        i += 1;
    }
    assert(of_sources ==> keys@ =~= source_keys(moves@));
    assert(!of_sources ==> keys@ =~= dest_keys(moves@));
    keys
}

/// Finds the first move that writes `alloc`, in moves ordered by destination.
fn find_writer(moves: &Vec<Move>, keys: &Vec<u64>, alloc: Allocation) -> (r: Option<usize>)
    requires
        keys@ == dest_keys(moves@),
        forall|i: int, j: int| 0 <= i <= j < keys@.len() ==> keys@[i] <= keys@[j],
    ensures
        r == first_writer_from(moves@, alloc, 0),
        r matches Some(w) ==> w < moves@.len() && moves@[w as int].to == alloc,
{
    let target = alloc.order_key();
    let mut lo: usize = 0;
    let mut hi: usize = keys.len();
    while lo < hi
        invariant
            lo <= hi <= keys@.len(),
            forall|i: int, j: int| 0 <= i <= j < keys@.len() ==> keys@[i] <= keys@[j],
            forall|k: int| 0 <= k < lo ==> keys@[k] < target,
            forall|k: int| hi <= k < keys@.len() ==> keys@[k] >= target,
        decreases hi - lo,
    {
        let mid = lo + (hi - lo) / 2;
        if keys[mid] < target {
            lo = mid + 1;
            assert forall|k: int| 0 <= k < lo implies keys@[k] < target by {
                assert(keys@[k] <= keys@[mid as int]);
            }
        } else {
            hi = mid;
            assert forall|k: int| hi <= k < keys@.len() implies keys@[k] >= target by {
                assert(keys@[mid as int] <= keys@[k]);
            }
        }
    }
    if lo < keys.len() && keys[lo] == target {
        proof {
            crate::locations::lemma_order_key_injective(moves@[lo as int].to, alloc);
            assert forall|k: int| 0 <= k < lo implies moves@[k].to != alloc by {
                assert(keys@[k] < target);
            }
            lemma_first_writer_found(moves@, alloc, 0, lo as int);
        }
        Some(lo)
    } else {
        proof {
            assert forall|k: int| 0 <= k < moves@.len() implies moves@[k].to != alloc by {
                if k >= lo {
                    assert(keys@[lo as int] <= keys@[k]);
                }
                assert(keys@[k] != target);
            }
            lemma_first_writer_missing(moves@, alloc, 0);
        }
        None
    }
}

/// Pops the whole stack onto `out`, top first.
fn unwind(moves: &Vec<Move>, stack: &mut Vec<usize>, onstack: &mut Vec<bool>, out: &mut Vec<Move>)
    requires
        old(onstack)@.len() == moves@.len(),
        forall|i: int| 0 <= i < old(stack)@.len() ==> old(stack)@[i] < moves@.len(),
        forall|i: usize| i < old(onstack)@.len() && old(onstack)@[i as int] ==> old(stack)@.contains(i),
    ensures
        final(stack)@.len() == 0,
        final(out)@ == old(out)@ + unwound(moves@, old(stack)@),
        final(onstack)@ == Seq::new(moves@.len(), |i: int| false),
{
    let ghost full = stack@;
    let ghost before = out@;
    while stack.len() > 0
        invariant
            onstack@.len() == moves@.len(),
            stack@.len() <= full.len(),
            stack@ == full.take(stack@.len() as int),
            forall|i: int| 0 <= i < full.len() ==> full[i] < moves@.len(),
            forall|i: usize| i < onstack@.len() && onstack@[i as int] ==> stack@.contains(i),
            out@.len() == before.len() + full.len() - stack@.len(),
            forall|k: int| 0 <= k < before.len() ==> out@[k] == before[k],
            forall|k: int|
                before.len() <= k < out@.len() ==> #[trigger] out@[k] == moves@[full[full.len() - 1 - (k
                    - before.len())] as int],
        decreases stack@.len(),
    {
        let ghost held = stack@;
        let idx = stack.pop().unwrap();
        onstack.set(idx, false);
        out.push(moves[idx]);
        proof {
            assert(stack@ =~= full.take(stack@.len() as int));
            assert forall|i: usize| i < onstack@.len() && onstack@[i as int] implies stack@.contains(
                i,
            ) by {
                assert(i != idx);
                assert(held.contains(i));
                let at = choose|at: int| 0 <= at < held.len() && held[at] == i;
                assert(held.last() == idx);
                assert(stack@[at] == i);
            }
        }
    }
    proof {
        assert(out@ =~= before + unwound(moves@, full));
        assert forall|i: int| 0 <= i < onstack@.len() implies !onstack@[i] by {
            assert(onstack@.len() == onstack.len());
            let u = i as usize;
            if onstack@[u as int] {
                assert(stack@.contains(u));
            }
        }
        assert(onstack@ =~= Seq::new(moves@.len(), |i: int| false));
    }
}

/// Where no first writer of `alloc` is found, no move at or behind `j` writes it.
pub proof fn lemma_no_writer(moves: Seq<Move>, alloc: Allocation, j: int)
    requires
        0 <= j,
        first_writer_from(moves, alloc, j) is None,
    ensures
        forall|k: int| j <= k < moves.len() ==> moves[k].to != alloc,
    decreases moves.len() - j,
{
    if j < moves.len() {
        lemma_no_writer(moves, alloc, j + 1);
    }
}

proof fn lemma_unwound_drawn(moves: Seq<Move>, stack: Seq<usize>, scratch: Allocation)
    requires
        forall|i: int| 0 <= i < stack.len() ==> stack[i] < moves.len(),
    ensures
        all_drawn_from(unwound(moves, stack), moves, scratch),
{
    assert forall|k: int| 0 <= k < unwound(moves, stack).len() implies is_drawn_from(
        #[trigger] unwound(moves, stack)[k],
        moves,
        scratch,
    ) by {
        let j = stack[stack.len() - 1 - k] as int;
        assert(moves[j].from == unwound(moves, stack)[k].from);
        assert(moves[j].to == unwound(moves, stack)[k].to);
    }
}

proof fn lemma_cycle_drawn(moves: Seq<Move>, stack: Seq<usize>, next: usize, scratch: Allocation, is_top: bool)
    requires
        forall|i: int| 0 <= i < stack.len() ==> stack[i] < moves.len(),
    ensures
        all_drawn_from(unwound_cycle(moves, stack, next, scratch, is_top).0, moves, scratch),
    decreases stack.len(),
{
    if stack.len() > 0 {
        let j = stack.last() as int;
        let m = moves[j];
        let step = if is_top {
            Move { from: scratch, to: m.to, to_vreg: m.to_vreg }
        } else {
            m
        };
        assert(moves[j].from == m.from && moves[j].to == m.to);
        assert(is_drawn_from(step, moves, scratch));
        if stack.last() != next {
            lemma_cycle_drawn(moves, stack.drop_last(), next, scratch, false);
            let steps = unwound_cycle(moves, stack.drop_last(), next, scratch, false).0;
            let all = seq![step] + steps;
            assert forall|k: int| 0 <= k < all.len() implies is_drawn_from(#[trigger] all[k], moves, scratch) by {
                if k > 0 {
                    assert(all[k] == steps[k - 1]);
                }
            }
        }
    }
}

proof fn lemma_drawn_concat(a: Seq<Move>, b: Seq<Move>, moves: Seq<Move>, scratch: Allocation)
    requires
        all_drawn_from(a, moves, scratch),
        all_drawn_from(b, moves, scratch),
    ensures
        all_drawn_from(a + b, moves, scratch),
{
    assert forall|k: int| 0 <= k < (a + b).len() implies is_drawn_from(#[trigger] (a + b)[k], moves, scratch) by {
        if k < a.len() {
            assert((a + b)[k] == a[k]);
        } else {
            assert((a + b)[k] == b[k - a.len()]);
        }
    }
}

/// The move is one of `moves`.
pub open spec fn occurs_in(m: Move, moves: Seq<Move>) -> bool {
    exists|j: int| 0 <= j < moves.len() && moves[j] == m
}

/// What is drawn from a reordering of `moves` is drawn from `moves`.
proof fn lemma_drawn_through(out: Seq<Move>, sorted: Seq<Move>, moves: Seq<Move>, scratch: Allocation)
    requires
        all_drawn_from(out, sorted, scratch),
        forall|i: int| 0 <= i < sorted.len() ==> occurs_in(#[trigger] sorted[i], moves),
    ensures
        all_drawn_from(out, moves, scratch),
{
    assert forall|k: int| 0 <= k < out.len() implies is_drawn_from(#[trigger] out[k], moves, scratch) by {
        let m = out[k];
        assert(is_drawn_from(m, sorted, scratch));
        if m.from != scratch {
            let i = choose|i: int| 0 <= i < sorted.len() && (#[trigger] sorted[i]).from == m.from;
            assert(occurs_in(sorted[i], moves));
            let j = choose|j: int| 0 <= j < moves.len() && moves[j] == sorted[i];
            assert(moves[j].from == m.from);
        }
        if m.to != scratch {
            let i = choose|i: int| 0 <= i < sorted.len() && (#[trigger] sorted[i]).to == m.to;
            assert(occurs_in(sorted[i], moves));
            let j = choose|j: int| 0 <= j < moves.len() && moves[j] == sorted[i];
            assert(moves[j].to == m.to);
        }
    }
}

proof fn lemma_sorted_items(items: Seq<Move>, keys: Seq<u64>)
    requires
        items.len() == keys.len(),
        is_stable_order(keys, stable_order(keys)),
    ensures
        forall|i: int|
            0 <= i < stable_sorted(items, keys).len() ==> occurs_in(
                #[trigger] stable_sorted(items, keys)[i],
                items,
            ),
{
    let order = stable_order(keys);
    assert forall|i: int| 0 <= i < stable_sorted(items, keys).len() implies occurs_in(
        #[trigger] stable_sorted(items, keys)[i],
        items,
    ) by {
        let j = order[i] as int;
        assert(0 <= order[i] < keys.len());
        assert(items[j] == stable_sorted(items, keys)[i]);
    }
}

/// Pops the moves of a cycle, from the top of the stack down to `next`.
fn unwind_cycle(
    moves: &Vec<Move>,
    stack: &mut Vec<usize>,
    onstack: &mut Vec<bool>,
    out: &mut Vec<Move>,
    next: usize,
    scratch: Allocation,
)
    requires
        old(onstack)@.len() == moves@.len(),
        old(stack)@.contains(next),
        forall|i: int| 0 <= i < old(stack)@.len() ==> old(stack)@[i] < moves@.len(),
        forall|i: usize| i < old(onstack)@.len() && old(onstack)@[i as int] ==> old(stack)@.contains(i),
    ensures
        final(onstack)@.len() == moves@.len(),
        final(out)@ == old(out)@ + unwound_cycle(moves@, old(stack)@, next, scratch, true).0,
        final(stack)@ == unwound_cycle(moves@, old(stack)@, next, scratch, true).1,
        forall|i: int| 0 <= i < final(stack)@.len() ==> final(stack)@[i] < moves@.len(),
        forall|i: usize| i < final(onstack)@.len() && final(onstack)@[i as int] ==> final(stack)@.contains(i),
{
    let ghost full = stack@;
    let ghost before = out@;
    let ghost goal = unwound_cycle(moves@, full, next, scratch, true);
    let mut is_top = true;
    loop
        invariant_except_break
            stack@.contains(next),
            out@ + unwound_cycle(moves@, stack@, next, scratch, is_top).0 == before + goal.0,
            unwound_cycle(moves@, stack@, next, scratch, is_top).1 == goal.1,
        invariant
            onstack@.len() == moves@.len(),
            forall|i: int| 0 <= i < stack@.len() ==> stack@[i] < moves@.len(),
            forall|i: usize| i < onstack@.len() && onstack@[i as int] ==> stack@.contains(i),
        ensures
            onstack@.len() == moves@.len(),
            out@ == before + goal.0,
            stack@ == goal.1,
            forall|i: int| 0 <= i < stack@.len() ==> stack@[i] < moves@.len(),
            forall|i: usize| i < onstack@.len() && onstack@[i as int] ==> stack@.contains(i),
        decreases stack@.len(),
    {
        let ghost held = stack@;
        let ghost emitted = out@;
        let ghost was_top = is_top;
        assert(held.len() > 0);
        let idx = stack.pop().unwrap();
        onstack.set(idx, false);
        let m = moves[idx];
        let step = if is_top {
            Move { from: scratch, to: m.to, to_vreg: m.to_vreg }
        } else {
            m
        };
        out.push(step);
        is_top = false;
        proof {
            assert(stack@ =~= held.drop_last());
            assert forall|i: usize| i < onstack@.len() && onstack@[i as int] implies stack@.contains(
                i,
            ) by {
                assert(held.contains(i));
                let at = choose|at: int| 0 <= at < held.len() && held[at] == i;
                assert(stack@[at] == i);
            }
            if idx == next {
                assert(out@ =~= emitted + unwound_cycle(moves@, held, next, scratch, was_top).0);
            } else {
                let at = choose|at: int| 0 <= at < held.len() && held[at] == next;
                assert(stack@[at] == next);
                assert(out@ + unwound_cycle(moves@, stack@, next, scratch, false).0 =~= emitted
                    + unwound_cycle(moves@, held, next, scratch, was_top).0);
            }
        }
        if idx == next {
            break ;
        }
    }
}

/// Schedules the chain that starts on top of the stack.
fn walk_chain(
    moves: &Vec<Move>,
    writers: &Vec<Option<usize>>,
    scratch: Allocation,
    visited: &mut Vec<bool>,
    stack: &mut Vec<usize>,
    onstack: &mut Vec<bool>,
    out: &mut Vec<Move>,
)
    requires
        writers@.len() == moves@.len(),
        forall|i: int| 0 <= i < writers@.len() ==> (#[trigger] writers@[i] matches Some(w) ==> w < moves@.len()),
        old(visited)@.len() == moves@.len(),
        old(onstack)@.len() == moves@.len(),
        old(stack)@.len() == 1,
        old(stack)@[0] < moves@.len(),
        old(visited)@[old(stack)@[0] as int],
        forall|i: usize| i < old(onstack)@.len() ==> (old(onstack)@[i as int] <==> i == old(stack)@[0]),
        all_drawn_from(old(out)@, moves@, scratch),
    ensures
        all_drawn_from(final(out)@, moves@, scratch),
        final(visited)@.len() == moves@.len(),
        final(stack)@.len() == 0,
        final(onstack)@ == Seq::new(moves@.len(), |i: int| false),
        (final(visited)@, final(out)@) == walk(
            moves@,
            writers@,
            scratch,
            old(visited)@,
            old(stack)@,
            old(out)@,
        ),
{
    let ghost goal = walk(moves@, writers@, scratch, visited@, stack@, out@);
    assert(stack@.contains(stack@[0]));
    loop
        invariant_except_break
            stack@.len() > 0,
            forall|i: int| 0 <= i < stack@.len() ==> stack@[i] < moves@.len(),
            forall|i: int| 0 <= i < stack@.len() ==> visited@[stack@[i] as int],
            forall|i: usize| i < onstack@.len() ==> (onstack@[i as int] <==> stack@.contains(i)),
            walk(moves@, writers@, scratch, visited@, stack@, out@) == goal,
        invariant
            all_drawn_from(out@, moves@, scratch),
            writers@.len() == moves@.len(),
            forall|i: int|
                0 <= i < writers@.len() ==> (#[trigger] writers@[i] matches Some(w) ==> w < moves@.len()),
            visited@.len() == moves@.len(),
            onstack@.len() == moves@.len(),
        ensures
            stack@.len() == 0,
            onstack@ == Seq::new(moves@.len(), |i: int| false),
            (visited@, out@) == goal,
        decreases count_unvisited(visited@),
    {
        let top = stack[stack.len() - 1];
        assert(top == stack@.last());
        let ghost emitted = out@;
        let ghost held = stack@;
        match writers[top] {
            None => {
                unwind(moves, stack, onstack, out);
                proof {
                    lemma_unwound_drawn(moves@, held, scratch);
                    lemma_drawn_concat(emitted, unwound(moves@, held), moves@, scratch);
                }
                break ;
            },
            Some(next) => {
                if !visited[next] {
                    proof {
                        lemma_visit_counts_down(visited@, next as int);
                    }
                    visited.set(next, true);
                    stack.push(next);
                    onstack.set(next, true);
                    proof {
                        assert forall|i: usize| i < onstack@.len() implies (onstack@[i as int]
                            <==> stack@.contains(i)) by {
                            if i == next {
                                assert(stack@[stack@.len() - 1] == next);
                            } else if held.contains(i) {
                                let at = choose|at: int| 0 <= at < held.len() && held[at] == i;
                                assert(stack@[at] == i);
                            } else if stack@.contains(i) {
                                let at = choose|at: int| 0 <= at < stack@.len() && stack@[at] == i;
                                assert(held[at] == i);
                            }
                        }
                    }
                } else if !onstack[next] {
                    unwind(moves, stack, onstack, out);
                    proof {
                        lemma_unwound_drawn(moves@, held, scratch);
                        lemma_drawn_concat(emitted, unwound(moves@, held), moves@, scratch);
                    }
                    break ;
                } else {
                    let top_from = moves[top].from;
                    unwind_cycle(moves, stack, onstack, out, next, scratch);
                    let save = Move { from: top_from, to: scratch, to_vreg: None };
                    out.push(save);
                    let ghost rest = stack@;
                    unwind(moves, stack, onstack, out);
                    proof {
                        let cyc = unwound_cycle(moves@, held, next, scratch, true);
                        lemma_cycle_drawn(moves@, held, next, scratch, true);
                        lemma_unwound_drawn(moves@, rest, scratch);
                        assert(moves@[top as int].from == save.from);
                        assert(is_drawn_from(save, moves@, scratch));
                        lemma_drawn_concat(emitted, cyc.0, moves@, scratch);
                        lemma_drawn_concat(emitted + cyc.0, seq![save], moves@, scratch);
                        lemma_drawn_concat(emitted + cyc.0 + seq![save], unwound(moves@, rest), moves@, scratch);
                        assert(out@ =~= emitted + cyc.0 + seq![save] + unwound(moves@, rest));
                    }
                    break ;
                }
            },
        }
    }
}

/// A list of `n` flags, none of them set.
fn cleared_flags(n: usize) -> (flags: Vec<bool>)
    ensures
        flags@ == Seq::new(n as nat, |i: int| false),
{
    let mut flags: Vec<bool> = Vec::new();
    let mut i: usize = 0;
    while i < n
        invariant
            i <= n,
            flags@.len() == i,
            forall|k: int| 0 <= k < i ==> !flags@[k],
        decreases n - i,
    {
        flags.push(false);
        i += 1;
    }
    assert(flags@ =~= Seq::new(n as nat, |i: int| false));
    flags
}

/// The list with its items in the opposite order.
fn reversed(moves: &Vec<Move>) -> (r: Vec<Move>)
    ensures
        r@ == moves@.reverse(),
{
    let mut r: Vec<Move> = Vec::new();
    let mut i: usize = moves.len();
    while i > 0
        invariant
            i <= moves@.len(),
            r@.len() == moves@.len() - i,
            forall|k: int| 0 <= k < r@.len() ==> r@[k] == moves@[moves@.len() - 1 - k],
        decreases i,
    {
        i -= 1;
        r.push(moves[i]);
    }
    assert(r@ =~= moves@.reverse());
    r
}

impl ParallelMoves {
    /// An empty set of moves, with the scratch to schedule them with.
    pub fn new(scratch: Allocation) -> (r: ParallelMoves)
        ensures
            r.parallel_moves@ == Seq::<Move>::empty(),
            r.scratch == scratch,
    {
        ParallelMoves { parallel_moves: Vec::new(), scratch }
    }

    /// Adds the move of `from` to `to` to the set.
    pub fn add(&mut self, from: Allocation, to: Allocation, to_vreg: Option<VReg>)
        ensures
            final(self).parallel_moves@ == old(self).parallel_moves@.push(Move { from, to, to_vreg }),
            final(self).scratch == old(self).scratch,
    {
        self.parallel_moves.push(Move { from, to, to_vreg });
    }

    /// Puts the moves in a sequence that can be carried out one by one.
    ///
    /// Where no two moves write the same allocation and none of them reads
    /// or writes the scratch, the sequence does what the moves say when
    /// they happen all at once.
    pub fn resolve(self) -> (resolved: Vec<Move>)
        ensures
            resolved@ == resolved_moves(self.parallel_moves@, self.scratch),
            all_drawn_from(resolved@, self.parallel_moves@, self.scratch),
            crate::schedule_laws::is_schedulable(self.parallel_moves@, self.scratch)
                ==> crate::schedule_laws::carries_out(resolved@, self.parallel_moves@, self.scratch),
    {
        proof {
            if crate::schedule_laws::is_schedulable(self.parallel_moves@, self.scratch) {
                crate::schedule_laws::lemma_resolved_moves_carry_out(self.parallel_moves@, self.scratch);
            }
        }
        let moves = self.parallel_moves;
        let scratch = self.scratch;
        if moves.len() <= 1 {
            proof {
                assert forall|k: int| 0 <= k < moves@.len() implies is_drawn_from(
                    #[trigger] moves@[k],
                    moves@,
                    scratch,
                ) by {
                    let m = moves@[k];
                    assert(m.from == moves@[k].from && m.to == moves@[k].to);
                }
            }
            return moves;
        }
        let keys0 = keys_of(&moves, false);
        let by_dest0 = sort_by_keys(&moves, &keys0);
        let keys1 = keys_of(&by_dest0, true);
        let by_source = sort_by_keys(&by_dest0, &keys1);
        let keys2 = keys_of(&by_source, false);
        let by_dest = sort_by_keys(&by_source, &keys2);
        let keys = keys_of(&by_dest, false);
        let n = by_dest.len();
        proof {
            lemma_sorted_items(moves@, keys0@);
            lemma_sorted_items(by_dest0@, keys1@);
            lemma_sorted_items(by_source@, keys2@);
            assert forall|i: int| 0 <= i < by_source@.len() implies occurs_in(
                #[trigger] by_source@[i],
                moves@,
            ) by {
                assert(occurs_in(by_source@[i], by_dest0@));
                let a = choose|a: int| 0 <= a < by_dest0@.len() && by_dest0@[a] == by_source@[i];
                assert(occurs_in(by_dest0@[a], moves@));
                let b = choose|b: int| 0 <= b < moves@.len() && moves@[b] == by_dest0@[a];
                assert(moves@[b] == by_source@[i]);
            }
        }
        proof {
            let order = stable_order(keys2@);
            assert forall|i: int, j: int| 0 <= i <= j < keys@.len() implies keys@[i] <= keys@[j] by {
                assert(keys@[i] == keys2@[order[i] as int]);
                assert(keys@[j] == keys2@[order[j] as int]);
                if i < j {
                    assert(crate::sorting::comes_before(keys2@, order[i] as int, order[j] as int));
                }
            }
        }
        let mut writers: Vec<Option<usize>> = Vec::new();
        let mut any = false;
        let mut i: usize = 0;
        let ghost mut reader: int = 0;
        while i < n
            invariant
                i <= n,
                n == by_dest@.len(),
                keys@ == dest_keys(by_dest@),
                forall|a: int, b: int| 0 <= a <= b < keys@.len() ==> keys@[a] <= keys@[b],
                writers@.len() == i,
                forall|k: int| 0 <= k < i ==> writers@[k] == first_writer_from(by_dest@, by_dest@[k].from, 0),
                forall|k: int| 0 <= k < i ==> (#[trigger] writers@[k] matches Some(w) ==> w < n),
                !any ==> forall|k: int| 0 <= k < i ==> writers@[k] is None,
                any ==> 0 <= reader < i && writers@[reader] is Some,
            decreases n - i,
        {
            let w = find_writer(&by_dest, &keys, by_dest[i].from);
            if w.is_some() {
                any = true;
                proof {
                    reader = i as int;
                }
            }
            writers.push(w);
            i += 1;
        }
        assert(writers@ =~= writers_of_sources(by_dest@));
        if !any {
            proof {
                assert forall|a: int, b: int| 0 <= a < by_dest@.len() && 0 <= b < by_dest@.len() implies by_dest@[a].from
                    != by_dest@[b].to by {
                    assert(writers@[a] is None);
                    lemma_no_writer(by_dest@, by_dest@[a].from, 0);
                }
                assert forall|k: int| 0 <= k < by_source@.len() implies is_drawn_from(
                    #[trigger] by_source@[k],
                    by_source@,
                    scratch,
                ) by {
                    let m = by_source@[k];
                    assert(m.from == by_source@[k].from && m.to == by_source@[k].to);
                }
                lemma_drawn_through(by_source@, by_source@, moves@, scratch);
            }
            return by_source;
        }
        proof {
            let w = writers@[reader]->0;
            lemma_first_writer_found_back(by_dest@, by_dest@[reader].from, 0);
            assert(by_dest@[reader].from == by_dest@[w as int].to);
        }
        let mut visited = cleared_flags(n);
        let mut onstack = cleared_flags(n);
        let mut stack: Vec<usize> = Vec::new();
        let mut out: Vec<Move> = Vec::new();
        let ghost goal = schedule_from(by_dest@, writers@, scratch, visited@, 0, out@);
        let mut start: usize = 0;
        while start < n
            invariant
                start <= n,
                n == by_dest@.len(),
                writers@.len() == n,
                forall|k: int| 0 <= k < n ==> (#[trigger] writers@[k] matches Some(w) ==> w < n),
                visited@.len() == n,
                onstack@ == Seq::new(n as nat, |i: int| false),
                stack@.len() == 0,
                schedule_from(by_dest@, writers@, scratch, visited@, start as int, out@) == goal,
                all_drawn_from(out@, by_dest@, scratch),
            decreases n - start,
        {
            if !visited[start] {
                visited.set(start, true);
                stack.push(start);
                onstack.set(start, true);
                assert(stack@ =~= seq![start]);
                walk_chain(&by_dest, &writers, scratch, &mut visited, &mut stack, &mut onstack, &mut out);
            }
            start += 1;
        }
        let resolved = reversed(&out);
        proof {
            assert(all_drawn_from(resolved@, by_dest@, scratch)) by {
                assert forall|k: int| 0 <= k < resolved@.len() implies is_drawn_from(
                    #[trigger] resolved@[k],
                    by_dest@,
                    scratch,
                ) by {
                    assert(resolved@[k] == out@[out@.len() - 1 - k]);
                }
            }
            lemma_drawn_through(resolved@, by_dest@, by_source@, scratch);
            lemma_drawn_through(resolved@, by_source@, moves@, scratch);
        }
        resolved
    }
}

/// The first writer of `alloc` that is found lies at or behind `j` and writes `alloc`.
pub proof fn lemma_first_writer_found_back(moves: Seq<Move>, alloc: Allocation, j: int)
    requires
        0 <= j,
        first_writer_from(moves, alloc, j) is Some,
        moves.len() <= usize::MAX,
    ensures
        ({
            let w = first_writer_from(moves, alloc, j)->0;
            j <= w < moves.len() && moves[w as int].to == alloc
        }),
    decreases moves.len() - j,
{
    if j < moves.len() && moves[j].to != alloc {
        lemma_first_writer_found_back(moves, alloc, j + 1);
    }
}

} // verus!
