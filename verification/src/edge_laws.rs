//! What holds of the transfers along control-flow edges.

use vstd::prelude::*;
use crate::apply::{Discovery, half_move_keys, half_moves_in_order};
use crate::discover::ScanState;
use crate::edits::{InsertedMove, InsertMovePrio};
use crate::env::{BlockparamIn, BlockparamOut, Env, LiveRangeListEntry};
use crate::function::{CFGInfo, Function};
use crate::halfmove::{
    dest_moves,
    edge_moves,
    edge_placement,
    HalfMove,
    HalfMoveKind,
    lemma_key_round_trip,
    lemma_run_end_bounds,
    MoveError,
    next_source,
    run_end,
    spec_dest_key,
    spec_half_move_key,
};
use crate::index::{Block, CodeRange, ProgPoint, VRegIndex};
use crate::locations::{Allocation, VReg};
use crate::pending_laws::{
    lemma_dest_moves_keep,
    lemma_edge_moves_keep,
    lemma_edge_moves_stay,
    lemma_push_keeps,
};
use crate::scan::{
    first_entry_block,
    in_blocks,
    in_params,
    in_preds,
    out_blocks,
    out_params,
    out_succs,
    pair_lt,
    spec_live_in,
};
use crate::sorting::{comes_before, lemma_order_is_onto, lemma_stable_order_exists, stable_order};

verus! {

/// The move along an edge that gives the value of the source at position
/// `s` to the destination at position `j`.
pub open spec fn edge_move(
    hms: Seq<HalfMove>,
    s: int,
    j: int,
    place: (ProgPoint, InsertMovePrio),
    vreg_regs: Seq<VReg>,
) -> InsertedMove {
    InsertedMove {
        pos: place.0,
        prio: place.1,
        from_alloc: hms[s].alloc,
        to_alloc: hms[j].alloc,
        to_vreg: Some(vreg_regs[hms[s].spec_to_vreg().0 as int]),
    }
}

proof fn lemma_run_has_one_key(hms: Seq<HalfMove>, key: u64, i: int, t: int)
    requires
        0 <= i <= t < run_end(hms, key, i),
    ensures
        t < hms.len(),
        hms[t].key == key,
    decreases hms.len() - i,
{
    if i < hms.len() && hms[i].key == key {
        if i < t {
            lemma_run_has_one_key(hms, key, i + 1, t);
        }
    }
}

proof fn lemma_next_source_is_first(hms: Seq<HalfMove>, i: int, s: int)
    requires
        0 <= i <= s < hms.len(),
        hms[s].spec_kind() == HalfMoveKind::Source,
    ensures
        i <= next_source(hms, i) <= s,
        hms[next_source(hms, i)].spec_kind() == HalfMoveKind::Source,
    decreases hms.len() - i,
{
    if hms[i].spec_kind() != HalfMoveKind::Source {
        lemma_next_source_is_first(hms, i + 1, s);
    }
}

proof fn lemma_dest_moves_cover(
    hms: Seq<HalfMove>,
    from: int,
    end: int,
    s: int,
    place: (ProgPoint, InsertMovePrio),
    vreg_regs: Seq<VReg>,
    last: Option<Allocation>,
    acc: Seq<InsertedMove>,
    j: int,
)
    requires
        0 <= s < from <= j < end <= hms.len(),
        forall|t: int| from <= t < end ==> (#[trigger] hms[t]).key == spec_dest_key(hms[s].key),
        last matches Some(a) ==> exists|t: int| s < t < end && hms[t].alloc == a && acc.contains(
            #[trigger] edge_move(hms, s, t, place, vreg_regs),
        ),
    ensures
        dest_moves(hms, from, end, hms[s].alloc, place.0, place.1, vreg_regs, last, acc).contains(
            edge_move(hms, s, j, place, vreg_regs),
        ),
    decreases end - from,
{
    crate::halfmove::lemma_dest_key_fields(hms[s], hms[from]);
    let added = edge_move(hms, s, from, place, vreg_regs);
    if last == Some(hms[from].alloc) {
        let t = choose|t: int| s < t < end && hms[t].alloc == last->0 && acc.contains(
            #[trigger] edge_move(hms, s, t, place, vreg_regs),
        );
        assert(edge_move(hms, s, t, place, vreg_regs) == added);
        if j == from {
            lemma_dest_moves_keep(
                hms,
                from + 1,
                end,
                hms[s].alloc,
                place.0,
                place.1,
                vreg_regs,
                last,
                acc,
                added,
            );
        } else {
            lemma_dest_moves_cover(hms, from + 1, end, s, place, vreg_regs, last, acc, j);
        }
    } else {
        lemma_push_keeps(acc, added, added);
        if j == from {
            lemma_dest_moves_keep(
                hms,
                from + 1,
                end,
                hms[s].alloc,
                place.0,
                place.1,
                vreg_regs,
                Some(hms[from].alloc),
                acc.push(added),
                added,
            );
        } else {
            assert(acc.push(added).contains(edge_move(hms, s, from, place, vreg_regs)));
            lemma_dest_moves_cover(
                hms,
                from + 1,
                end,
                s,
                place,
                vreg_regs,
                Some(hms[from].alloc),
                acc.push(added),
                j,
            );
        }
    }
}

/// Matching gives every destination the value of its source.
///
/// For a source at position `s` of the half-moves in key order, and a
/// destination at position `j` in the run of destinations that follows it
/// and carries its key: if matching succeeds, the edge has a place, and a
/// move from the location of the source to the location of the destination
/// is pending at that place.
pub proof fn lemma_edge_transfer_gets_a_move(
    func: &Function,
    vreg_regs: Seq<VReg>,
    hms: Seq<HalfMove>,
    i: int,
    acc: Seq<InsertedMove>,
    s: int,
    j: int,
)
    requires
        0 <= i <= s < hms.len(),
        hms[s].spec_kind() == HalfMoveKind::Source,
        s < j < run_end(hms, spec_dest_key(hms[s].key), s + 1),
        edge_moves(func, vreg_regs, hms, i, acc) is Ok,
    ensures
        edge_placement(func, hms[s].spec_from_block(), hms[s].spec_to_block()) is Some,
        edge_moves(func, vreg_regs, hms, i, acc)->Ok_0.contains(
            edge_move(
                hms,
                s,
                j,
                edge_placement(func, hms[s].spec_from_block(), hms[s].spec_to_block())->0,
                vreg_regs,
            ),
        ),
    decreases hms.len() - i,
{
    let first = next_source(hms, i);
    lemma_next_source_is_first(hms, i, s);
    let source = hms[first];
    let key = spec_dest_key(source.key);
    let end = run_end(hms, key, first + 1);
    lemma_run_end_bounds(hms, key, first + 1);
    let place = edge_placement(func, source.spec_from_block(), source.spec_to_block());
    assert(place is Some);
    let spot = place->0;
    let moves = dest_moves(hms, first + 1, end, source.alloc, spot.0, spot.1, vreg_regs, None, acc);
    if first == s {
        assert forall|t: int| s + 1 <= t < end implies (#[trigger] hms[t]).key == key by {
            lemma_run_has_one_key(hms, key, s + 1, t);
        }
        lemma_dest_moves_cover(hms, s + 1, end, s, spot, vreg_regs, None, acc, j);
        lemma_edge_moves_keep(func, vreg_regs, hms, end, moves, edge_move(hms, s, j, spot, vreg_regs));
    } else {
        if s < end {
            lemma_run_has_one_key(hms, key, first + 1, s);
            assert(hms[s].key % 2 == 1);
        }
        lemma_edge_transfer_gets_a_move(func, vreg_regs, hms, end, moves, s, j);
    }
}

proof fn lemma_half_move_kept(hms: Seq<HalfMove>, added: HalfMove, hm: HalfMove)
    requires
        hms.contains(hm) || added == hm,
    ensures
        hms.push(added).contains(hm),
{
    if hms.contains(hm) {
        let at = choose|at: int| 0 <= at < hms.len() && hms[at] == hm;
        assert(hms.push(added)[at] == hm);
    } else {
        assert(hms.push(added)[hms.len() as int] == hm);
    }
}

proof fn lemma_out_succs_keep(
    cfginfo: &CFGInfo,
    liveins: &Vec<Vec<bool>>,
    succs: Seq<Block>,
    k: int,
    block: Block,
    vreg: VRegIndex,
    range: CodeRange,
    alloc: Allocation,
    acc: Seq<HalfMove>,
    hm: HalfMove,
)
    requires
        acc.contains(hm),
    ensures
        out_succs(cfginfo, liveins, succs, k, block, vreg, range, alloc, acc).contains(hm),
    decreases succs.len() - k,
{
    if 0 <= k < succs.len() {
        if !range.spec_contains_point(cfginfo.block_entry@[succs[k].0 as int]) && spec_live_in(
            liveins,
            succs[k],
            vreg,
        ) {
            let added = HalfMove { key: spec_half_move_key(block, succs[k], vreg, HalfMoveKind::Source), alloc };
            lemma_half_move_kept(acc, added, hm);
            lemma_out_succs_keep(cfginfo, liveins, succs, k + 1, block, vreg, range, alloc, acc.push(added), hm);
        } else {
            lemma_out_succs_keep(cfginfo, liveins, succs, k + 1, block, vreg, range, alloc, acc, hm);
        }
    }
}

/// At the exit of a block that a live range covers, the range leaves a
/// source for every edge to a successor that it does not reach into and on
/// whose entry its virtual register is live: the location of the range,
/// under the key of the edge and the register.
pub proof fn lemma_live_out_edge_has_a_source(
    cfginfo: &CFGInfo,
    liveins: &Vec<Vec<bool>>,
    succs: Seq<Block>,
    from: int,
    block: Block,
    vreg: VRegIndex,
    range: CodeRange,
    alloc: Allocation,
    acc: Seq<HalfMove>,
    k: int,
)
    requires
        0 <= from <= k < succs.len(),
        !range.spec_contains_point(cfginfo.block_entry@[succs[k].0 as int]),
        spec_live_in(liveins, succs[k], vreg),
    ensures
        out_succs(cfginfo, liveins, succs, from, block, vreg, range, alloc, acc).contains(
            HalfMove { key: spec_half_move_key(block, succs[k], vreg, HalfMoveKind::Source), alloc },
        ),
    decreases k - from,
{
    let wanted = HalfMove { key: spec_half_move_key(block, succs[k], vreg, HalfMoveKind::Source), alloc };
    let qualifies = !range.spec_contains_point(cfginfo.block_entry@[succs[from].0 as int]) && spec_live_in(
        liveins,
        succs[from],
        vreg,
    );
    let added = HalfMove { key: spec_half_move_key(block, succs[from], vreg, HalfMoveKind::Source), alloc };
    let next = if qualifies {
        acc.push(added)
    } else {
        acc
    };
    if from == k {
        lemma_half_move_kept(acc, added, wanted);
        lemma_out_succs_keep(cfginfo, liveins, succs, k + 1, block, vreg, range, alloc, next, wanted);
    } else {
        lemma_live_out_edge_has_a_source(cfginfo, liveins, succs, from + 1, block, vreg, range, alloc, next, k);
    }
}

proof fn lemma_in_preds_keep(
    cfginfo: &CFGInfo,
    preds: Seq<Block>,
    k: int,
    block: Block,
    vreg: VRegIndex,
    range: CodeRange,
    alloc: Allocation,
    acc: Seq<HalfMove>,
    hm: HalfMove,
)
    requires
        acc.contains(hm),
    ensures
        in_preds(cfginfo, preds, k, block, vreg, range, alloc, acc).contains(hm),
    decreases preds.len() - k,
{
    if 0 <= k < preds.len() {
        if !range.spec_contains_point(cfginfo.block_exit@[preds[k].0 as int]) {
            let added = HalfMove { key: spec_half_move_key(preds[k], block, vreg, HalfMoveKind::Dest), alloc };
            lemma_half_move_kept(acc, added, hm);
            lemma_in_preds_keep(cfginfo, preds, k + 1, block, vreg, range, alloc, acc.push(added), hm);
        } else {
            lemma_in_preds_keep(cfginfo, preds, k + 1, block, vreg, range, alloc, acc, hm);
        }
    }
}

/// At the entry of a block that a live range covers and on which its
/// virtual register is live, the range leaves a destination for every edge
/// from a predecessor whose exit it does not cover: the location of the
/// range, under the key of the edge and the register.
pub proof fn lemma_live_in_edge_has_a_dest(
    cfginfo: &CFGInfo,
    preds: Seq<Block>,
    from: int,
    block: Block,
    vreg: VRegIndex,
    range: CodeRange,
    alloc: Allocation,
    acc: Seq<HalfMove>,
    k: int,
)
    requires
        0 <= from <= k < preds.len(),
        !range.spec_contains_point(cfginfo.block_exit@[preds[k].0 as int]),
    ensures
        in_preds(cfginfo, preds, from, block, vreg, range, alloc, acc).contains(
            HalfMove { key: spec_half_move_key(preds[k], block, vreg, HalfMoveKind::Dest), alloc },
        ),
    decreases k - from,
{
    let wanted = HalfMove { key: spec_half_move_key(preds[k], block, vreg, HalfMoveKind::Dest), alloc };
    let qualifies = !range.spec_contains_point(cfginfo.block_exit@[preds[from].0 as int]);
    let added = HalfMove { key: spec_half_move_key(preds[from], block, vreg, HalfMoveKind::Dest), alloc };
    let next = if qualifies {
        acc.push(added)
    } else {
        acc
    };
    if from == k {
        lemma_half_move_kept(acc, added, wanted);
        lemma_in_preds_keep(cfginfo, preds, k + 1, block, vreg, range, alloc, next, wanted);
    } else {
        lemma_live_in_edge_has_a_dest(cfginfo, preds, from + 1, block, vreg, range, alloc, next, k);
    }
}

proof fn lemma_out_params_keep(
    outs: Seq<BlockparamOut>,
    idx: int,
    block: Block,
    vreg: VRegIndex,
    alloc: Allocation,
    acc: Seq<HalfMove>,
    hm: HalfMove,
)
    requires
        acc.contains(hm),
    ensures
        out_params(outs, idx, block, vreg, alloc, acc).1.contains(hm),
    decreases outs.len() - idx,
{
    if 0 <= idx < outs.len() {
        if pair_lt(vreg.0 as int, block.0 as int, outs[idx].from_vreg.0 as int, outs[idx].from_block.0 as int) {
        } else if outs[idx].from_vreg == vreg && outs[idx].from_block == block {
            let added = HalfMove {
                key: spec_half_move_key(
                    outs[idx].from_block,
                    outs[idx].to_block,
                    outs[idx].to_vreg,
                    HalfMoveKind::Source,
                ),
                alloc,
            };
            lemma_half_move_kept(acc, added, hm);
            lemma_out_params_keep(outs, idx + 1, block, vreg, alloc, acc.push(added), hm);
        } else {
            lemma_out_params_keep(outs, idx + 1, block, vreg, alloc, acc, hm);
        }
    }
}

proof fn lemma_out_blocks_keep(
    func: &Function,
    cfginfo: &CFGInfo,
    liveins: &Vec<Vec<bool>>,
    outs: Seq<BlockparamOut>,
    block: int,
    idx: int,
    vreg: VRegIndex,
    range: CodeRange,
    alloc: Allocation,
    acc: Seq<HalfMove>,
    hm: HalfMove,
)
    requires
        acc.contains(hm),
    ensures
        out_blocks(func, cfginfo, liveins, outs, block, idx, vreg, range, alloc, acc).1.contains(hm),
    decreases func.blocks@.len() - block,
{
    if !(block < 0 || block >= func.blocks@.len() || range.to.bits < cfginfo.block_exit@[block].bits + 1) {
        let b = Block(block as usize);
        lemma_out_succs_keep(cfginfo, liveins, func.blocks@[block].succs@, 0, b, vreg, range, alloc, acc, hm);
        let with_succs = out_succs(cfginfo, liveins, func.blocks@[block].succs@, 0, b, vreg, range, alloc, acc);
        lemma_out_params_keep(outs, idx, b, vreg, alloc, with_succs, hm);
        let (idx2, with_params) = out_params(outs, idx, b, vreg, alloc, with_succs);
        lemma_out_blocks_keep(func, cfginfo, liveins, outs, block + 1, idx2, vreg, range, alloc, with_params, hm);
    }
}

proof fn lemma_in_params_keep(
    ins: Seq<BlockparamIn>,
    idx: int,
    block: Block,
    vreg: VRegIndex,
    alloc: Allocation,
    acc: Seq<HalfMove>,
    hm: HalfMove,
)
    requires
        acc.contains(hm),
    ensures
        in_params(ins, idx, block, vreg, alloc, acc).1.contains(hm),
    decreases ins.len() - idx,
{
    if 0 <= idx < ins.len() {
        if pair_lt(vreg.0 as int, block.0 as int, ins[idx].to_vreg.0 as int, ins[idx].to_block.0 as int) {
        } else if ins[idx].to_vreg == vreg && ins[idx].to_block == block {
            let added = HalfMove {
                key: spec_half_move_key(ins[idx].from_block, ins[idx].to_block, ins[idx].to_vreg, HalfMoveKind::Dest),
                alloc,
            };
            lemma_half_move_kept(acc, added, hm);
            lemma_in_params_keep(ins, idx + 1, block, vreg, alloc, acc.push(added), hm);
        } else {
            lemma_in_params_keep(ins, idx + 1, block, vreg, alloc, acc, hm);
        }
    }
}

proof fn lemma_in_blocks_keep(
    func: &Function,
    cfginfo: &CFGInfo,
    liveins: &Vec<Vec<bool>>,
    ins: Seq<BlockparamIn>,
    block: int,
    idx: int,
    vreg: VRegIndex,
    range: CodeRange,
    alloc: Allocation,
    acc: Seq<HalfMove>,
    hm: HalfMove,
)
    requires
        acc.contains(hm),
    ensures
        in_blocks(func, cfginfo, liveins, ins, block, idx, vreg, range, alloc, acc).1.contains(hm),
    decreases func.blocks@.len() - block,
{
    if !(block < 0 || block >= func.blocks@.len() || cfginfo.block_entry@[block].bits >= range.to.bits) {
        let b = Block(block as usize);
        lemma_in_params_keep(ins, idx, b, vreg, alloc, acc, hm);
        let (idx2, with_params) = in_params(ins, idx, b, vreg, alloc, acc);
        if spec_live_in(liveins, b, vreg) {
            lemma_in_preds_keep(cfginfo, func.blocks@[block].preds@, 0, b, vreg, range, alloc, with_params, hm);
        }
        let with_preds = if spec_live_in(liveins, b, vreg) {
            in_preds(cfginfo, func.blocks@[block].preds@, 0, b, vreg, range, alloc, with_params)
        } else {
            with_params
        };
        lemma_in_blocks_keep(func, cfginfo, liveins, ins, block + 1, idx2, vreg, range, alloc, with_preds, hm);
    }
}

/// The live range covers the exit of every block from `first` to `last`.
pub open spec fn covers_exits(cfginfo: &CFGInfo, range: CodeRange, first: int, last: int) -> bool {
    forall|b: int| first <= b <= last ==> range.to.bits >= (#[trigger] cfginfo.block_exit@[b]).bits + 1
}

/// The live range covers the entry of every block from `first` to `last`.
pub open spec fn covers_entries(cfginfo: &CFGInfo, range: CodeRange, first: int, last: int) -> bool {
    forall|b: int| first <= b <= last ==> (#[trigger] cfginfo.block_entry@[b]).bits < range.to.bits
}

proof fn lemma_out_blocks_cover(
    func: &Function,
    cfginfo: &CFGInfo,
    liveins: &Vec<Vec<bool>>,
    outs: Seq<BlockparamOut>,
    block: int,
    idx: int,
    vreg: VRegIndex,
    range: CodeRange,
    alloc: Allocation,
    acc: Seq<HalfMove>,
    last: int,
    k: int,
)
    requires
        0 <= block <= last < func.blocks@.len(),
        func.blocks@.len() <= usize::MAX,
        covers_exits(cfginfo, range, block, last),
        0 <= k < func.blocks@[last].succs@.len(),
        !range.spec_contains_point(cfginfo.block_entry@[func.blocks@[last].succs@[k].0 as int]),
        spec_live_in(liveins, func.blocks@[last].succs@[k], vreg),
    ensures
        out_blocks(func, cfginfo, liveins, outs, block, idx, vreg, range, alloc, acc).1.contains(
            HalfMove {
                key: spec_half_move_key(
                    Block(last as usize),
                    func.blocks@[last].succs@[k],
                    vreg,
                    HalfMoveKind::Source,
                ),
                alloc,
            },
        ),
    decreases last - block,
{
    let wanted = HalfMove {
        key: spec_half_move_key(Block(last as usize), func.blocks@[last].succs@[k], vreg, HalfMoveKind::Source),
        alloc,
    };
    let b = Block(block as usize);
    assert(range.to.bits >= cfginfo.block_exit@[block].bits + 1);
    let with_succs = out_succs(cfginfo, liveins, func.blocks@[block].succs@, 0, b, vreg, range, alloc, acc);
    let (idx2, with_params) = out_params(outs, idx, b, vreg, alloc, with_succs);
    if block == last {
        lemma_live_out_edge_has_a_source(cfginfo, liveins, func.blocks@[block].succs@, 0, b, vreg, range, alloc, acc, k);
        lemma_out_params_keep(outs, idx, b, vreg, alloc, with_succs, wanted);
        lemma_out_blocks_keep(func, cfginfo, liveins, outs, block + 1, idx2, vreg, range, alloc, with_params, wanted);
    } else {
        lemma_out_blocks_cover(
            func,
            cfginfo,
            liveins,
            outs,
            block + 1,
            idx2,
            vreg,
            range,
            alloc,
            with_params,
            last,
            k,
        );
    }
}

proof fn lemma_in_blocks_cover(
    func: &Function,
    cfginfo: &CFGInfo,
    liveins: &Vec<Vec<bool>>,
    ins: Seq<BlockparamIn>,
    block: int,
    idx: int,
    vreg: VRegIndex,
    range: CodeRange,
    alloc: Allocation,
    acc: Seq<HalfMove>,
    last: int,
    k: int,
)
    requires
        0 <= block <= last < func.blocks@.len(),
        func.blocks@.len() <= usize::MAX,
        covers_entries(cfginfo, range, block, last),
        spec_live_in(liveins, Block(last as usize), vreg),
        0 <= k < func.blocks@[last].preds@.len(),
        !range.spec_contains_point(cfginfo.block_exit@[func.blocks@[last].preds@[k].0 as int]),
    ensures
        in_blocks(func, cfginfo, liveins, ins, block, idx, vreg, range, alloc, acc).1.contains(
            HalfMove {
                key: spec_half_move_key(func.blocks@[last].preds@[k], Block(last as usize), vreg, HalfMoveKind::Dest),
                alloc,
            },
        ),
    decreases last - block,
{
    let wanted = HalfMove {
        key: spec_half_move_key(func.blocks@[last].preds@[k], Block(last as usize), vreg, HalfMoveKind::Dest),
        alloc,
    };
    let b = Block(block as usize);
    assert(cfginfo.block_entry@[block].bits < range.to.bits);
    let (idx2, with_params) = in_params(ins, idx, b, vreg, alloc, acc);
    let with_preds = if spec_live_in(liveins, b, vreg) {
        in_preds(cfginfo, func.blocks@[block].preds@, 0, b, vreg, range, alloc, with_params)
    } else {
        with_params
    };
    if block == last {
        lemma_live_in_edge_has_a_dest(cfginfo, func.blocks@[block].preds@, 0, b, vreg, range, alloc, with_params, k);
        lemma_in_blocks_keep(func, cfginfo, liveins, ins, block + 1, idx2, vreg, range, alloc, with_preds, wanted);
    } else {
        lemma_in_blocks_cover(func, cfginfo, liveins, ins, block + 1, idx2, vreg, range, alloc, with_preds, last, k);
    }
}

impl Env {
    /// The live range `i` of the virtual register `v`, which is not
    /// pinned, covers the exit of `block`, and the register has to be
    /// carried along the edge to the successor number `k` of `block`: the
    /// range does not reach into that successor, and the register is live
    /// on its entry.
    pub open spec fn leaves_along(&self, lists: Seq<Seq<LiveRangeListEntry>>, v: int, i: int, block: int, k: int) -> bool {
        let range = lists[v][i].range;
        let first = self.cfginfo.insn_block@[range.from.spec_inst().0 as int].0 as int;
        &&& self.pinned_reg(v) is None
        &&& first <= block < self.func.blocks@.len()
        &&& covers_exits(&self.cfginfo, range, first, block)
        &&& 0 <= k < self.func.blocks@[block].succs@.len()
        &&& !range.spec_contains_point(self.cfginfo.block_entry@[self.func.blocks@[block].succs@[k].0 as int])
        &&& spec_live_in(&self.liveins, self.func.blocks@[block].succs@[k], VRegIndex(v as usize))
    }

    /// The live range `j` of the virtual register `v`, which is not
    /// pinned, covers the entry of `block`, on which the register is live,
    /// and the register has to be brought in along the edge from the
    /// predecessor number `k` of `block`: the range does not cover the exit
    /// of that predecessor.
    pub open spec fn enters_along(&self, lists: Seq<Seq<LiveRangeListEntry>>, v: int, j: int, block: int, k: int) -> bool {
        let range = lists[v][j].range;
        let first = first_entry_block(&self.cfginfo, range);
        &&& self.pinned_reg(v) is None
        &&& first <= block < self.func.blocks@.len()
        &&& covers_entries(&self.cfginfo, range, first, block)
        &&& spec_live_in(&self.liveins, Block(block as usize), VRegIndex(v as usize))
        &&& 0 <= k < self.func.blocks@[block].preds@.len()
        &&& !range.spec_contains_point(self.cfginfo.block_exit@[self.func.blocks@[block].preds@[k].0 as int])
    }

    /// The source that a live range leaves for the edge to the successor
    /// number `k` of `block`.
    pub open spec fn source_along(&self, lists: Seq<Seq<LiveRangeListEntry>>, v: int, i: int, block: int, k: int) -> HalfMove {
        HalfMove {
            key: spec_half_move_key(
                Block(block as usize),
                self.func.blocks@[block].succs@[k],
                VRegIndex(v as usize),
                HalfMoveKind::Source,
            ),
            alloc: self.scan_alloc(lists, v, i),
        }
    }

    /// The destination that a live range leaves for the edge from the
    /// predecessor number `k` of `block`.
    pub open spec fn dest_along(&self, lists: Seq<Seq<LiveRangeListEntry>>, v: int, j: int, block: int, k: int) -> HalfMove {
        HalfMove {
            key: spec_half_move_key(
                self.func.blocks@[block].preds@[k],
                Block(block as usize),
                VRegIndex(v as usize),
                HalfMoveKind::Dest,
            ),
            alloc: self.scan_alloc(lists, v, j),
        }
    }
}

proof fn lemma_range_keeps_half_moves(
    env: &Env,
    lists: Seq<Seq<LiveRangeListEntry>>,
    v: int,
    i: int,
    st: ScanState,
    hm: HalfMove,
)
    requires
        st.half_moves.contains(hm),
    ensures
        env.scan_range(lists, v, i, st).half_moves.contains(hm),
{
    if env.pinned_reg(v) is None {
        let vreg = VRegIndex(v as usize);
        let range = lists[v][i].range;
        let alloc = env.scan_alloc(lists, v, i);
        let first = env.cfginfo.insn_block@[range.from.spec_inst().0 as int].0 as int;
        lemma_out_blocks_keep(
            &env.func,
            &env.cfginfo,
            &env.liveins,
            env.blockparam_outs@,
            first,
            st.out_idx,
            vreg,
            range,
            alloc,
            st.half_moves,
            hm,
        );
        let with_sources = out_blocks(
            &env.func,
            &env.cfginfo,
            &env.liveins,
            env.blockparam_outs@,
            first,
            st.out_idx,
            vreg,
            range,
            alloc,
            st.half_moves,
        ).1;
        lemma_in_blocks_keep(
            &env.func,
            &env.cfginfo,
            &env.liveins,
            env.blockparam_ins@,
            first_entry_block(&env.cfginfo, range),
            st.in_idx,
            vreg,
            range,
            alloc,
            with_sources,
            hm,
        );
    }
}

proof fn lemma_ranges_keep_half_moves(
    env: &Env,
    lists: Seq<Seq<LiveRangeListEntry>>,
    v: int,
    i: int,
    st: ScanState,
    hm: HalfMove,
)
    requires
        st.half_moves.contains(hm),
    ensures
        env.scan_ranges(lists, v, i, st).half_moves.contains(hm),
    decreases lists[v].len() - i,
{
    if 0 <= i < lists[v].len() {
        lemma_range_keeps_half_moves(env, lists, v, i, st, hm);
        lemma_ranges_keep_half_moves(env, lists, v, i + 1, env.scan_range(lists, v, i, st), hm);
    }
}

proof fn lemma_vregs_keep_half_moves(
    env: &Env,
    lists: Seq<Seq<LiveRangeListEntry>>,
    v: int,
    st: ScanState,
    hm: HalfMove,
)
    requires
        st.half_moves.contains(hm),
    ensures
        env.scan_vregs(lists, v, st).half_moves.contains(hm),
    decreases lists.len() - v,
{
    if 0 <= v < lists.len() {
        lemma_ranges_keep_half_moves(env, lists, v, 0, st, hm);
        lemma_vregs_keep_half_moves(env, lists, v + 1, env.scan_ranges(lists, v, 0, st), hm);
    }
}

/// The half-move that a live range leaves for an edge, and whether it
/// leaves one.
pub open spec fn half_move_along(
    env: &Env,
    lists: Seq<Seq<LiveRangeListEntry>>,
    v: int,
    i: int,
    block: int,
    k: int,
    is_source: bool,
) -> (bool, HalfMove) {
    if is_source {
        (env.leaves_along(lists, v, i, block, k), env.source_along(lists, v, i, block, k))
    } else {
        (env.enters_along(lists, v, i, block, k), env.dest_along(lists, v, i, block, k))
    }
}

proof fn lemma_range_finds_half_move(
    env: &Env,
    lists: Seq<Seq<LiveRangeListEntry>>,
    v: int,
    i: int,
    st: ScanState,
    block: int,
    k: int,
    is_source: bool,
)
    requires
        env.func.blocks@.len() <= usize::MAX,
        half_move_along(env, lists, v, i, block, k, is_source).0,
    ensures
        env.scan_range(lists, v, i, st).half_moves.contains(
            half_move_along(env, lists, v, i, block, k, is_source).1,
        ),
{
    let vreg = VRegIndex(v as usize);
    let range = lists[v][i].range;
    let alloc = env.scan_alloc(lists, v, i);
    let first = env.cfginfo.insn_block@[range.from.spec_inst().0 as int].0 as int;
    let with_sources = out_blocks(
        &env.func,
        &env.cfginfo,
        &env.liveins,
        env.blockparam_outs@,
        first,
        st.out_idx,
        vreg,
        range,
        alloc,
        st.half_moves,
    ).1;
    if is_source {
        lemma_out_blocks_cover(
            &env.func,
            &env.cfginfo,
            &env.liveins,
            env.blockparam_outs@,
            first,
            st.out_idx,
            vreg,
            range,
            alloc,
            st.half_moves,
            block,
            k,
        );
        lemma_in_blocks_keep(
            &env.func,
            &env.cfginfo,
            &env.liveins,
            env.blockparam_ins@,
            first_entry_block(&env.cfginfo, range),
            st.in_idx,
            vreg,
            range,
            alloc,
            with_sources,
            env.source_along(lists, v, i, block, k),
        );
    } else {
        lemma_in_blocks_cover(
            &env.func,
            &env.cfginfo,
            &env.liveins,
            env.blockparam_ins@,
            first_entry_block(&env.cfginfo, range),
            st.in_idx,
            vreg,
            range,
            alloc,
            with_sources,
            block,
            k,
        );
    }
}

proof fn lemma_ranges_find_half_move(
    env: &Env,
    lists: Seq<Seq<LiveRangeListEntry>>,
    v: int,
    from: int,
    i: int,
    st: ScanState,
    block: int,
    k: int,
    is_source: bool,
)
    requires
        env.func.blocks@.len() <= usize::MAX,
        0 <= from <= i < lists[v].len(),
        half_move_along(env, lists, v, i, block, k, is_source).0,
    ensures
        env.scan_ranges(lists, v, from, st).half_moves.contains(
            half_move_along(env, lists, v, i, block, k, is_source).1,
        ),
    decreases i - from,
{
    if from == i {
        lemma_range_finds_half_move(env, lists, v, i, st, block, k, is_source);
        lemma_ranges_keep_half_moves(
            env,
            lists,
            v,
            i + 1,
            env.scan_range(lists, v, i, st),
            half_move_along(env, lists, v, i, block, k, is_source).1,
        );
    } else {
        lemma_ranges_find_half_move(
            env,
            lists,
            v,
            from + 1,
            i,
            env.scan_range(lists, v, from, st),
            block,
            k,
            is_source,
        );
    }
}

proof fn lemma_vregs_find_half_move(
    env: &Env,
    lists: Seq<Seq<LiveRangeListEntry>>,
    from: int,
    v: int,
    i: int,
    st: ScanState,
    block: int,
    k: int,
    is_source: bool,
)
    requires
        env.func.blocks@.len() <= usize::MAX,
        0 <= from <= v < lists.len(),
        0 <= i < lists[v].len(),
        half_move_along(env, lists, v, i, block, k, is_source).0,
    ensures
        env.scan_vregs(lists, from, st).half_moves.contains(
            half_move_along(env, lists, v, i, block, k, is_source).1,
        ),
    decreases v - from,
{
    if from == v {
        lemma_ranges_find_half_move(env, lists, v, 0, i, st, block, k, is_source);
        lemma_vregs_keep_half_moves(
            env,
            lists,
            v + 1,
            env.scan_ranges(lists, v, 0, st),
            half_move_along(env, lists, v, i, block, k, is_source).1,
        );
    } else {
        lemma_vregs_find_half_move(
            env,
            lists,
            from + 1,
            v,
            i,
            env.scan_ranges(lists, from, 0, st),
            block,
            k,
            is_source,
        );
    }
}

/// The scan finds the source of every transfer out of a block, and the
/// destination of every transfer into a block.
pub proof fn lemma_scan_finds_half_moves(
    env: &Env,
    lists: Seq<Seq<LiveRangeListEntry>>,
    v: int,
    i: int,
    block: int,
    k: int,
    is_source: bool,
)
    requires
        env.func.blocks@.len() <= usize::MAX,
        0 <= v < lists.len(),
        0 <= i < lists[v].len(),
        half_move_along(env, lists, v, i, block, k, is_source).0,
    ensures
        env.scan_vregs(lists, 0, env.scan_start()).half_moves.contains(
            half_move_along(env, lists, v, i, block, k, is_source).1,
        ),
{
    lemma_vregs_find_half_move(env, lists, 0, v, i, env.scan_start(), block, k, is_source);
}

proof fn lemma_half_moves_in_order(hms: Seq<HalfMove>)
    requires
        hms.len() <= usize::MAX,
    ensures
        half_moves_in_order(hms).len() == hms.len(),
        forall|hm: HalfMove| hms.contains(hm) ==> #[trigger] half_moves_in_order(hms).contains(hm),
        forall|i: int|
            0 <= i < half_moves_in_order(hms).len() ==> hms.contains(#[trigger] half_moves_in_order(hms)[i]),
        forall|a: int, b: int|
            0 <= a <= b < hms.len() ==> (#[trigger] half_moves_in_order(hms)[a]).key <= (
            #[trigger] half_moves_in_order(hms)[b]).key,
{
    let keys = half_move_keys(hms);
    lemma_stable_order_exists(keys);
    let order = stable_order(keys);
    let sorted = half_moves_in_order(hms);
    assert forall|hm: HalfMove| hms.contains(hm) implies #[trigger] sorted.contains(hm) by {
        let j = choose|j: int| 0 <= j < hms.len() && hms[j] == hm;
        lemma_order_is_onto(keys, order, j);
        let i = choose|i: int| 0 <= i < order.len() && order[i] == j;
        assert(sorted[i] == hm);
    }
    assert forall|i: int| 0 <= i < sorted.len() implies hms.contains(#[trigger] sorted[i]) by {
        assert(0 <= order[i] < keys.len());
        assert(hms[order[i] as int] == sorted[i]);
    }
    assert forall|a: int, b: int| 0 <= a <= b < hms.len() implies (#[trigger] sorted[a]).key <= (
    #[trigger] sorted[b]).key by {
        assert(0 <= order[a] < keys.len() && 0 <= order[b] < keys.len());
        if a < b {
            assert(comes_before(keys, order[a] as int, order[b] as int));
        }
    }
}

proof fn lemma_last_source(hms: Seq<HalfMove>, lo: int, hi: int, key: u64) -> (s: int)
    requires
        0 <= lo < hi < hms.len(),
        key < u64::MAX,
        hms[lo].key == key,
        hms[hi].key == key + 1,
        forall|a: int, b: int| 0 <= a <= b < hms.len() ==> (#[trigger] hms[a]).key <= (#[trigger] hms[b]).key,
    ensures
        lo <= s < hi,
        hms[s].key == key,
        forall|t: int| s < t <= hi ==> (#[trigger] hms[t]).key == key + 1,
    decreases hi - lo,
{
    if lo + 1 < hi && hms[lo + 1].key == key {
        lemma_last_source(hms, lo + 1, hi, key)
    } else {
        assert forall|t: int| lo < t <= hi implies (#[trigger] hms[t]).key == key + 1 by {
            assert(hms[lo + 1].key <= hms[t].key);
            assert(hms[t].key <= hms[hi].key);
            assert(hms[lo].key <= hms[lo + 1].key);
        }
        lo
    }
}

proof fn lemma_run_reaches(hms: Seq<HalfMove>, key: u64, a: int, b: int)
    requires
        0 <= a <= b < hms.len(),
        forall|t: int| a <= t <= b ==> (#[trigger] hms[t]).key == key,
    ensures
        run_end(hms, key, a) > b,
    decreases b - a,
{
    assert(hms[a].key == key);
    if a < b {
        lemma_run_reaches(hms, key, a + 1, b);
    } else {
        lemma_run_end_bounds(hms, key, a + 1);
    }
}

/// The move of a value for a virtual register, at a place.
pub open spec fn placed_move(place: (ProgPoint, InsertMovePrio), from: Allocation, to: Allocation, vreg: VReg) -> InsertedMove {
    InsertedMove { pos: place.0, prio: place.1, from_alloc: from, to_alloc: to, to_vreg: Some(vreg) }
}

/// A value that is live across an edge gets its move.
///
/// Let a live range of a virtual register that is not pinned cover the
/// exit of a block, and the register be live on entry to a successor that
/// the range does not reach into. Let a live range of the same register
/// cover the entry of that successor, but not the exit of the block. If
/// every edge has a place for its moves, and the location of the first
/// range is the only one found to leave along this edge for this register,
/// then a move from the location of the first range to the location of the
/// second is pending at the place of the edge.
pub proof fn lemma_live_edge_gets_a_move(
    env: &Env,
    found: Discovery,
    v: int,
    i: int,
    j: int,
    block: int,
    k: int,
    back: int,
)
    requires
        env.ready_for_discovery(),
        env.discovery() == Ok::<Discovery, MoveError>(found),
        0 <= v < env.vregs@.len(),
        0 <= i < env.sorted_lists()[v].len(),
        0 <= j < env.sorted_lists()[v].len(),
        env.leaves_along(env.sorted_lists(), v, i, block, k),
        env.enters_along(env.sorted_lists(), v, j, env.func.blocks@[block].succs@[k].0 as int, back),
        env.func.blocks@[env.func.blocks@[block].succs@[k].0 as int].preds@[back] == Block(block as usize),
        forall|hm: HalfMove|
            env.scanned().half_moves.contains(hm) && hm.key == env.source_along(
                env.sorted_lists(),
                v,
                i,
                block,
                k,
            ).key ==> hm.alloc == env.scan_alloc(env.sorted_lists(), v, i),
        env.scanned().half_moves.len() <= usize::MAX,
    ensures
        edge_placement(&env.func, Block(block as usize), env.func.blocks@[block].succs@[k]) is Some,
        found.inserted_moves.contains(
            placed_move(
                edge_placement(&env.func, Block(block as usize), env.func.blocks@[block].succs@[k])->0,
                env.scan_alloc(env.sorted_lists(), v, i),
                env.scan_alloc(env.sorted_lists(), v, j),
                env.vreg_regs@[v],
            ),
        ),
{
    let lists = env.sorted_lists();
    let from_block = Block(block as usize);
    let to_block = env.func.blocks@[block].succs@[k];
    let vreg = VRegIndex(v as usize);
    let source = env.source_along(lists, v, i, block, k);
    let dest = env.dest_along(lists, v, j, to_block.0 as int, back);
    lemma_scan_finds_half_moves(env, lists, v, i, block, k, true);
    lemma_scan_finds_half_moves(env, lists, v, j, to_block.0 as int, back, false);
    let st = env.scanned();
    let hms = half_moves_in_order(st.half_moves);
    lemma_half_moves_in_order(st.half_moves);
    assert(hms.contains(source));
    assert(hms.contains(dest));
    let at_source = choose|at: int| 0 <= at < hms.len() && hms[at] == source;
    let at_dest = choose|at: int| 0 <= at < hms.len() && hms[at] == dest;
    assert(to_block.0 < env.func.blocks@.len());
    lemma_key_round_trip(from_block, to_block, vreg, HalfMoveKind::Source, source.alloc);
    lemma_key_round_trip(from_block, to_block, vreg, HalfMoveKind::Dest, dest.alloc);
    assert(dest.key == source.key + 1);
    if at_dest <= at_source {
        assert(hms[at_dest].key <= hms[at_source].key);
    }
    let s = lemma_last_source(hms, at_source, at_dest, source.key);
    assert(st.half_moves.contains(hms[s]));
    assert(hms[s] == source);
    assert(spec_dest_key(source.key) == dest.key);
    lemma_run_reaches(hms, dest.key, s + 1, at_dest);
    lemma_edge_transfer_gets_a_move(&env.func, env.vreg_regs@, hms, 0, st.inserted_moves, s, at_dest);
    let place = edge_placement(&env.func, from_block, to_block)->0;
    lemma_edge_moves_stay(env, found, edge_move(hms, s, at_dest, place, env.vreg_regs@));
}

} // verus!
