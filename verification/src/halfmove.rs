//! The two ends of a transfer along a control-flow edge, and how they are
//! matched up.

use vstd::prelude::*;
use crate::edits::{InsertedMove, InsertMovePrio};
use crate::emit::{lemma_resolvable_push, move_is_resolvable, moves_resolvable};
use crate::env::Env;
use crate::function::{Function, MAX_KEY_FIELD};
use crate::index::{Block, ProgPoint, VRegIndex};
use crate::locations::{Allocation, VReg};

verus! {

/// Why moves could not be placed.
#[derive(Clone, Copy, Debug, PartialEq, Eq, Structural)]
pub enum MoveError {
    /// The edge leaves a block with several ways out and enters a block
    /// with several ways in, so there is no place for its moves.
    CriticalEdge { from: Block, to: Block },
}

/// Which end of a transfer a half-move is.
#[derive(Clone, Copy, Debug, PartialEq, Eq, Structural)]
pub enum HalfMoveKind {
    Source,
    Dest,
}

/// One end of a transfer along an edge: where the value is at that end.
///
/// The key packs, from the high bits down, the block the edge leaves (21
/// bits), the block it enters (21 bits), the virtual register that receives
/// the value (21 bits) and the kind (1 bit, 0 for a source). Ordered by key,
/// the half-moves of one edge and one register stand together, the source
/// first.
#[derive(Clone, Copy, Debug, PartialEq, Eq, Structural)]
pub struct HalfMove {
    pub key: u64,
    pub alloc: Allocation,
}

/// The key of a half-move.
pub open spec fn spec_half_move_key(from_block: Block, to_block: Block, to_vreg: VRegIndex, kind: HalfMoveKind) -> u64 {
    (from_block.0 * 0x800_0000_0000 + to_block.0 * 0x40_0000 + to_vreg.0 * 2 + (if kind
        == HalfMoveKind::Dest {
        1int
    } else {
        0int
    })) as u64
}

/// Packs the key of a half-move.
pub fn half_move_key(from_block: Block, to_block: Block, to_vreg: VRegIndex, kind: HalfMoveKind) -> (key: u64)
    requires
        from_block.0 < MAX_KEY_FIELD,
        to_block.0 < MAX_KEY_FIELD,
        to_vreg.0 < MAX_KEY_FIELD,
    ensures
        key == spec_half_move_key(from_block, to_block, to_vreg, kind),
{
    let f: u64 = from_block.0 as u64;
    let t: u64 = to_block.0 as u64;
    let v: u64 = to_vreg.0 as u64;
    let k: u64 = match kind {
        HalfMoveKind::Source => 0,
        HalfMoveKind::Dest => 1,
    };
    assert((f << 43) | (t << 22) | (v << 1) | k == f * 0x800_0000_0000 + t * 0x40_0000 + v * 2 + k)
        by (bit_vector)
        requires
            f < 0x20_0000,
            t < 0x20_0000,
            v < 0x20_0000,
            k < 2,
    ;
    (f << 43) | (t << 22) | (v << 1) | k
}

impl HalfMove {
    /// The block the edge leaves.
    pub open spec fn spec_from_block(self) -> Block {
        Block((self.key / 0x800_0000_0000) as usize)
    }

    /// The block the edge enters.
    pub open spec fn spec_to_block(self) -> Block {
        Block((self.key / 0x40_0000 % 0x20_0000) as usize)
    }

    /// The virtual register that receives the value.
    pub open spec fn spec_to_vreg(self) -> VRegIndex {
        VRegIndex((self.key / 2 % 0x20_0000) as usize)
    }

    /// Which end of the transfer the half-move is.
    pub open spec fn spec_kind(self) -> HalfMoveKind {
        if self.key % 2 == 1 {
            HalfMoveKind::Dest
        } else {
            HalfMoveKind::Source
        }
    }

    /// The block the edge leaves.
    pub fn from_block(&self) -> (r: Block)
        ensures
            r == self.spec_from_block(),
    {
        let key = self.key;
        assert((key >> 43) & 0x1f_ffff == key / 0x800_0000_0000) by (bit_vector);
        assert(key / 0x800_0000_0000 < 0x20_0000) by (bit_vector);
        Block(((key >> 43) & 0x1f_ffff) as usize)
    }

    /// The block the edge enters.
    pub fn to_block(&self) -> (r: Block)
        ensures
            r == self.spec_to_block(),
    {
        let key = self.key;
        assert((key >> 22) & 0x1f_ffff == key / 0x40_0000 % 0x20_0000) by (bit_vector);
        assert(key / 0x40_0000 % 0x20_0000 < 0x20_0000) by (bit_vector);
        Block(((key >> 22) & 0x1f_ffff) as usize)
    }

    /// The virtual register that receives the value.
    pub fn to_vreg(&self) -> (r: VRegIndex)
        ensures
            r == self.spec_to_vreg(),
    {
        let key = self.key;
        assert((key >> 1) & 0x1f_ffff == key / 2 % 0x20_0000) by (bit_vector);
        assert(key / 2 % 0x20_0000 < 0x20_0000) by (bit_vector);
        VRegIndex(((key >> 1) & 0x1f_ffff) as usize)
    }

    /// Which end of the transfer the half-move is.
    pub fn kind(&self) -> (r: HalfMoveKind)
        ensures
            r == self.spec_kind(),
    {
        let key = self.key;
        assert(key & 1 == key % 2) by (bit_vector);
        if key & 1 == 1 {
            HalfMoveKind::Dest
        } else {
            HalfMoveKind::Source
        }
    }
}

/// A key unpacks to what was packed into it.
pub proof fn lemma_key_round_trip(from_block: Block, to_block: Block, to_vreg: VRegIndex, kind: HalfMoveKind, alloc: Allocation)
    requires
        from_block.0 < MAX_KEY_FIELD,
        to_block.0 < MAX_KEY_FIELD,
        to_vreg.0 < MAX_KEY_FIELD,
    ensures
        ({
            let hm = HalfMove { key: spec_half_move_key(from_block, to_block, to_vreg, kind), alloc };
            &&& hm.spec_from_block() == from_block
            &&& hm.spec_to_block() == to_block
            &&& hm.spec_to_vreg() == to_vreg
            &&& hm.spec_kind() == kind
        }),
{
}

/// The key of the destinations that belong to a source.
pub open spec fn spec_dest_key(source_key: u64) -> u64 {
    if source_key % 2 == 0 {
        (source_key + 1) as u64
    } else {
        source_key
    }
}

/// A source and its destinations name the same edge and register.
pub proof fn lemma_dest_key_fields(source: HalfMove, dest: HalfMove)
    requires
        dest.key == spec_dest_key(source.key),
    ensures
        dest.spec_from_block() == source.spec_from_block(),
        dest.spec_to_block() == source.spec_to_block(),
        dest.spec_to_vreg() == source.spec_to_vreg(),
{
}

/// Where the moves of the edge from `from_block` to `to_block` go.
///
/// If several edges enter `to_block`, `from_block` must have one way out,
/// and the moves go before its last instruction. Otherwise at most one edge
/// enters `to_block`, and the moves go before its first instruction. A
/// return counts as a way out, and the function's entry as a way in.
pub open spec fn edge_placement(func: &Function, from_block: Block, to_block: Block) -> Option<(ProgPoint, InsertMovePrio)> {
    let from = func.blocks@[from_block.0 as int];
    let to = func.blocks@[to_block.0 as int];
    let from_outs = from.succs@.len() + if func.insts@[from.last.0 as int].is_ret {
        1int
    } else {
        0int
    };
    let to_ins = to.preds@.len() + if func.entry == to_block {
        1int
    } else {
        0int
    };
    if to_ins > 1 && from_outs <= 1 {
        Some((ProgPoint::spec_before(from.last), InsertMovePrio::OutEdgeMoves))
    } else if to_ins <= 1 {
        Some((ProgPoint::spec_before(to.first), InsertMovePrio::InEdgeMoves))
    } else {
        None
    }
}

/// Decides where the moves of an edge go.
pub fn place_edge_moves(func: &Function, from_block: Block, to_block: Block) -> (r: Result<
    (ProgPoint, InsertMovePrio),
    MoveError,
>)
    requires
        func.wf(),
        from_block.0 < func.blocks@.len(),
        to_block.0 < func.blocks@.len(),
    ensures
        match edge_placement(func, from_block, to_block) {
            Some(place) => r == Ok::<(ProgPoint, InsertMovePrio), MoveError>(place),
            None => r == Err::<(ProgPoint, InsertMovePrio), MoveError>(
                MoveError::CriticalEdge { from: from_block, to: to_block },
            ),
        },
        r matches Ok(place) ==> place.0.spec_inst().0 < func.insts@.len(),
{
    let from_last_insn = func.block_last(from_block);
    let to_first_insn = func.block_first(to_block);
    let from_is_ret = func.is_ret(from_last_insn);
    let to_is_entry = func.entry_block() == to_block;
    let succs = func.block_succs(from_block).len();
    let preds = func.block_preds(to_block).len();
    let one_way_out = if from_is_ret {
        succs == 0
    } else {
        succs <= 1
    };
    let several_ways_in = if to_is_entry {
        preds > 0
    } else {
        preds > 1
    };
    if several_ways_in && one_way_out {
        Ok((ProgPoint::before(from_last_insn), InsertMovePrio::OutEdgeMoves))
    } else if !several_ways_in {
        Ok((ProgPoint::before(to_first_insn), InsertMovePrio::InEdgeMoves))
    } else {
        Err(MoveError::CriticalEdge { from: from_block, to: to_block })
    }
}

/// The first position at or behind `i` that holds a source.
pub open spec fn next_source(hms: Seq<HalfMove>, i: int) -> int
    decreases hms.len() - i,
{
    if 0 <= i < hms.len() && hms[i].spec_kind() != HalfMoveKind::Source {
        next_source(hms, i + 1)
    } else {
        i
    }
}

/// The first position at or behind `i` whose key is not `key`.
pub open spec fn run_end(hms: Seq<HalfMove>, key: u64, i: int) -> int
    decreases hms.len() - i,
{
    if 0 <= i < hms.len() && hms[i].key == key {
        run_end(hms, key, i + 1)
    } else {
        i
    }
}

/// The next source lies at or behind the position it is looked for from, or at the end of the list.
pub proof fn lemma_next_source_bounds(hms: Seq<HalfMove>, i: int)
    requires
        0 <= i <= hms.len(),
    ensures
        i <= next_source(hms, i) <= hms.len(),
    decreases hms.len() - i,
{
    if i < hms.len() && hms[i].spec_kind() != HalfMoveKind::Source {
        lemma_next_source_bounds(hms, i + 1);
    }
}

/// A run ends at or behind the position it is followed from, and within the list.
pub proof fn lemma_run_end_bounds(hms: Seq<HalfMove>, key: u64, i: int)
    requires
        0 <= i <= hms.len(),
    ensures
        i <= run_end(hms, key, i) <= hms.len(),
    decreases hms.len() - i,
{
    if i < hms.len() && hms[i].key == key {
        lemma_run_end_bounds(hms, key, i + 1);
    }
}

/// The pending moves after the destinations at positions `j` to `end - 1`
/// have each received the value of the source: one move per destination,
/// except that a destination with the same location as the one just before
/// it gets none.
pub open spec fn dest_moves(
    hms: Seq<HalfMove>,
    j: int,
    end: int,
    source: Allocation,
    pos: ProgPoint,
    prio: InsertMovePrio,
    vreg_regs: Seq<VReg>,
    last: Option<Allocation>,
    acc: Seq<InsertedMove>,
) -> Seq<InsertedMove>
    decreases end - j,
{
    if j < 0 || j >= end {
        acc
    } else if last == Some(hms[j].alloc) {
        dest_moves(hms, j + 1, end, source, pos, prio, vreg_regs, last, acc)
    } else {
        dest_moves(
            hms,
            j + 1,
            end,
            source,
            pos,
            prio,
            vreg_regs,
            Some(hms[j].alloc),
            acc.push(
                InsertedMove {
                    pos,
                    prio,
                    from_alloc: source,
                    to_alloc: hms[j].alloc,
                    to_vreg: Some(vreg_regs[hms[j].spec_to_vreg().0 as int]),
                },
            ),
        )
    }
}

/// The pending moves after the half-moves at position `i` and behind, in
/// key order, are matched up: each source with the destinations that follow
/// it directly and carry its key with the kind bit set. The moves of an
/// edge go where `edge_placement` says; the first source whose edge has no
/// place ends the matching with an error that names the edge.
pub open spec fn edge_moves(
    func: &Function,
    vreg_regs: Seq<VReg>,
    hms: Seq<HalfMove>,
    i: int,
    acc: Seq<InsertedMove>,
) -> Result<Seq<InsertedMove>, MoveError>
    decreases hms.len() - i,
{
    if i < 0 || i >= hms.len() {
        Ok(acc)
    } else {
        let s = next_source(hms, i);
        proof {
            lemma_next_source_bounds(hms, i);
        }
        if s >= hms.len() {
            Ok(acc)
        } else {
            let source = hms[s];
            let end = run_end(hms, spec_dest_key(source.key), s + 1);
            proof {
                lemma_run_end_bounds(hms, spec_dest_key(source.key), s + 1);
            }
            match edge_placement(func, source.spec_from_block(), source.spec_to_block()) {
                None => Err(
                    MoveError::CriticalEdge { from: source.spec_from_block(), to: source.spec_to_block() },
                ),
                Some((pos, prio)) => edge_moves(
                    func,
                    vreg_regs,
                    hms,
                    end,
                    dest_moves(hms, s + 1, end, source.alloc, pos, prio, vreg_regs, None, acc),
                ),
            }
        }
    }
}

/// A half-move names blocks and a virtual register that exist, and its
/// location is assigned and of the register's class.
pub open spec fn half_move_ok(hm: HalfMove, num_blocks: int, vreg_regs: Seq<VReg>) -> bool {
    &&& hm.spec_from_block().0 < num_blocks
    &&& hm.spec_to_block().0 < num_blocks
    &&& hm.spec_to_vreg().0 < vreg_regs.len()
    &&& hm.alloc != Allocation::Unassigned
    &&& hm.alloc.spec_class() == vreg_regs[hm.spec_to_vreg().0 as int].class
}

impl Env {
    /// Matches the half-moves, which are in key order, and records the
    /// moves that result.
    pub fn resolve_half_moves(&mut self, half_moves: &Vec<HalfMove>) -> (r: Result<(), MoveError>)
        requires
            old(self).func.wf(),
            forall|i: int|
                0 <= i < half_moves@.len() ==> half_move_ok(
                    #[trigger] half_moves@[i],
                    old(self).func.blocks@.len() as int,
                    old(self).vreg_regs@,
                ),
        ensures
            *final(self) == (Env { inserted_moves: final(self).inserted_moves, ..*old(self) }),
            match edge_moves(&old(self).func, old(self).vreg_regs@, half_moves@, 0, old(self).inserted_moves@) {
                Ok(moves) => r is Ok && final(self).inserted_moves@ == moves,
                Err(e) => r == Err::<(), MoveError>(e),
            },
            moves_resolvable(old(self).inserted_moves@, old(self).func.insts@.len() as int) ==> moves_resolvable(
                final(self).inserted_moves@,
                old(self).func.insts@.len() as int,
            ),
    {
        let ghost goal = edge_moves(&self.func, self.vreg_regs@, half_moves@, 0, self.inserted_moves@);
        let ghost hms = half_moves@;
        let n = half_moves.len();
        let mut i: usize = 0;
        while i < n
            invariant_except_break
                edge_moves(&self.func, self.vreg_regs@, hms, i as int, self.inserted_moves@) == goal,
            invariant
                i <= n,
                n == hms.len(),
                hms == half_moves@,
                goal == edge_moves(&old(self).func, old(self).vreg_regs@, half_moves@, 0, old(self).inserted_moves@),
                self.func.wf(),
                forall|k: int|
                    0 <= k < hms.len() ==> half_move_ok(
                        #[trigger] hms[k],
                        self.func.blocks@.len() as int,
                        self.vreg_regs@,
                    ),
                *self == (Env { inserted_moves: self.inserted_moves, ..*old(self) }),
                moves_resolvable(old(self).inserted_moves@, old(self).func.insts@.len() as int) ==> moves_resolvable(
                    self.inserted_moves@,
                    old(self).func.insts@.len() as int,
                ),
            ensures
                goal == Ok::<Seq<InsertedMove>, MoveError>(self.inserted_moves@),
            decreases n - i,
        {
            let ghost begin = i as int;
            let ghost acc0 = self.inserted_moves@;
            assert(edge_moves(&self.func, self.vreg_regs@, hms, begin, acc0) == goal);
            while i < n && half_moves[i].kind() != HalfMoveKind::Source
                invariant
                    begin <= i <= n,
                    n == hms.len(),
                    hms == half_moves@,
                    next_source(hms, i as int) == next_source(hms, begin),
                decreases n - i,
            {
                i += 1;
            }
            if i >= n {
                break ;
            }
            let source = half_moves[i];
            let ghost s = i as int;
            assert(next_source(hms, begin) == s);
            i += 1;
            let key = source.key;
            assert(key & 1 == 0 ==> key | 1 == (key + 1) as u64) by (bit_vector);
            assert(key & 1 == key % 2) by (bit_vector);
            assert(source.key % 2 == 0);
            let dest_key = key | 1;
            assert(dest_key == spec_dest_key(source.key));
            let first_dest = i;
            while i < n && half_moves[i].key == dest_key
                invariant
                    first_dest <= i <= n,
                    n == hms.len(),
                    hms == half_moves@,
                    run_end(hms, dest_key, i as int) == run_end(hms, dest_key, first_dest as int),
                    forall|k: int| first_dest <= k < i ==> (#[trigger] hms[k]).key == dest_key,
                decreases n - i,
            {
                i += 1;
            }
            let last_dest = i;
            assert(run_end(hms, dest_key, s + 1) == last_dest);
            assert(half_move_ok(hms[s], self.func.blocks@.len() as int, self.vreg_regs@));
            let place = place_edge_moves(&self.func, source.from_block(), source.to_block());
            proof {
                lemma_next_source_bounds(hms, begin);
                lemma_run_end_bounds(hms, dest_key, s + 1);
            }
            let (pos, prio) = match place {
                Ok(place) => place,
                Err(e) => {
                    assert(edge_placement(&self.func, source.spec_from_block(), source.spec_to_block()) is None);
                    assert(goal == Err::<Seq<InsertedMove>, MoveError>(e));
                    return Err(e);
                },
            };
            let ghost target = dest_moves(
                hms,
                first_dest as int,
                last_dest as int,
                source.alloc,
                pos,
                prio,
                self.vreg_regs@,
                None,
                self.inserted_moves@,
            );
            let mut last: Option<Allocation> = None;
            let mut j: usize = first_dest;
            while j < last_dest
                invariant
                    first_dest <= j <= last_dest <= n,
                    n == hms.len(),
                    hms == half_moves@,
                    0 <= s < hms.len(),
                    source == hms[s],
                    pos.spec_inst().0 < self.func.insts@.len(),
                    moves_resolvable(old(self).inserted_moves@, old(self).func.insts@.len() as int)
                        ==> moves_resolvable(self.inserted_moves@, old(self).func.insts@.len() as int),
                    *self == (Env { inserted_moves: self.inserted_moves, ..*old(self) }),
                    forall|k: int|
                        0 <= k < hms.len() ==> half_move_ok(
                            #[trigger] hms[k],
                            self.func.blocks@.len() as int,
                            self.vreg_regs@,
                        ),
                    forall|k: int| first_dest <= k < last_dest ==> (#[trigger] hms[k]).key == spec_dest_key(source.key),
                    dest_moves(
                        hms,
                        j as int,
                        last_dest as int,
                        source.alloc,
                        pos,
                        prio,
                        self.vreg_regs@,
                        last,
                        self.inserted_moves@,
                    ) == target,
                decreases last_dest - j,
            {
                let dest = half_moves[j];
                let same = match last {
                    Some(a) => a == dest.alloc,
                    None => false,
                };
                if !same {
                    proof {
                        assert(half_move_ok(hms[j as int], self.func.blocks@.len() as int, self.vreg_regs@));
                        assert(half_move_ok(hms[s], self.func.blocks@.len() as int, self.vreg_regs@));
                        lemma_dest_key_fields(source, dest);
                    }
                    let to_vreg = self.vreg_regs[dest.to_vreg().0];
                    proof {
                        let m = InsertedMove {
                            pos,
                            prio,
                            from_alloc: source.alloc,
                            to_alloc: dest.alloc,
                            to_vreg: Some(to_vreg),
                        };
                        assert(move_is_resolvable(m, self.func.insts@.len() as int));
                        if moves_resolvable(self.inserted_moves@, self.func.insts@.len() as int) {
                            lemma_resolvable_push(self.inserted_moves@, m, self.func.insts@.len() as int);
                        }
                    }
                    self.insert_move(pos, prio, source.alloc, dest.alloc, Some(to_vreg));
                    last = Some(dest.alloc);
                }
                j += 1;
            }
        }
        Ok(())
    }
}

} // verus!
