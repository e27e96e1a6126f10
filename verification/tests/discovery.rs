use regalloc_moves::edits::{Edit, InsertMovePrio, InsertedMove};
use regalloc_moves::env::{
    BlockparamAlloc, BlockparamIn, BlockparamOut, Env, LiveBundle, LiveRange, LiveRangeListEntry,
    MultiFixedRegFixup, PRegData, ProgMove, SpillSet, SpillSlotData, Stats, Use, VRegData, SLOT_NONE,
};
use regalloc_moves::function::{BlockData, CFGInfo, Function, InstData, MachineEnv};
use regalloc_moves::halfmove::MoveError;
use regalloc_moves::index::{
    Block, CodeRange, Inst, LiveBundleIndex, LiveRangeIndex, PRegIndex, ProgPoint, SpillSetIndex,
    SpillSlotIndex, VRegIndex,
};
use regalloc_moves::locations::{Allocation, PReg, RegClass, SpillSlot, VReg};
use regalloc_moves::operand::{Operand, OperandConstraint, OperandKind, OperandPos};

fn preg(n: u8) -> PReg {
    PReg { hw_enc: n, class: RegClass::Int }
}

fn reg(n: u8) -> Allocation {
    Allocation::reg(preg(n))
}

fn slot(n: u32) -> Allocation {
    Allocation::stack(SpillSlot { slot: n, class: RegClass::Int })
}

fn vreg(n: usize) -> VReg {
    VReg { vreg: n, class: RegClass::Int }
}

/// A function of the given blocks, each `(first, last, succs, preds)`, with
/// `num_vregs` virtual registers of class `Int`, none of them live anywhere.
fn program(blocks: Vec<(usize, usize, Vec<usize>, Vec<usize>)>, operands: Vec<Vec<Operand>>, num_vregs: usize) -> Env {
    let num_insts = operands.len();
    let mut insn_block = vec![Block(0); num_insts];
    let mut block_entry = Vec::new();
    let mut block_exit = Vec::new();
    let mut block_data = Vec::new();
    for (b, (first, last, succs, preds)) in blocks.iter().enumerate() {
        for inst in *first..=*last {
            insn_block[inst] = Block(b);
        }
        block_entry.push(ProgPoint::before(Inst(*first)));
        block_exit.push(ProgPoint::after(Inst(*last)));
        block_data.push(BlockData {
            first: Inst(*first),
            last: Inst(*last),
            succs: succs.iter().map(|s| Block(*s)).collect(),
            preds: preds.iter().map(|p| Block(*p)).collect(),
            params: vec![],
        });
    }
    let mut offsets = Vec::new();
    let mut allocs = Vec::new();
    let mut insts = Vec::new();
    for ops in operands {
        offsets.push(allocs.len() as u32);
        for _ in 0..ops.len() {
            allocs.push(Allocation::none());
        }
        insts.push(InstData { operands: ops, clobbers: vec![], is_ret: false, is_safepoint: false });
    }
    Env {
        func: Function { entry: Block(0), blocks: block_data, insts, pinned: vec![None; num_vregs] },
        env: MachineEnv {
            scratch_by_class: [
                PReg { hw_enc: 15, class: RegClass::Int },
                PReg { hw_enc: 15, class: RegClass::Float },
            ],
        },
        cfginfo: CFGInfo {
            insn_block,
            block_entry,
            block_exit,
            vreg_def_blockparam: vec![(Block::invalid(), 0); num_vregs],
        },
        liveins: vec![vec![false; num_vregs]; blocks.len()],
        ranges: vec![],
        bundles: vec![],
        spillsets: vec![],
        spillslots: vec![],
        vregs: (0..num_vregs).map(|_| VRegData { ranges: vec![], is_pinned: false }).collect(),
        vreg_regs: (0..num_vregs).map(vreg).collect(),
        pregs: (0..16).map(|n| PRegData { reg: preg(n) }).collect(),
        blockparam_ins: vec![],
        blockparam_outs: vec![],
        blockparam_allocs: vec![],
        prog_move_srcs: vec![],
        prog_move_dsts: vec![],
        multi_fixed_reg_fixups: vec![],
        inserted_moves: vec![],
        edits: vec![],
        allocs,
        inst_alloc_offsets: offsets,
        extra_spillslot: [None, None],
        num_spillslots: 4,
        stats: Stats { halfmoves_count: 0, edits_count: 0, blockparam_allocs_count: 0 },
    }
}

/// Adds a live range of `v` over `[from, to)` with the given location.
fn add_range(env: &mut Env, v: usize, from: ProgPoint, to: ProgPoint, alloc: Allocation, uses: Vec<Use>) {
    let index = LiveRangeIndex(env.ranges.len());
    let bundle = LiveBundleIndex(env.bundles.len());
    env.bundles.push(LiveBundle { allocation: alloc, spillset: SpillSetIndex(0) });
    let range = CodeRange { from, to };
    env.ranges.push(LiveRange { range, vreg: VRegIndex(v), bundle, uses, starts_at_def: false });
    // The list holds a stale extent on purpose: it is brought up to date.
    env.vregs[v].ranges.push(LiveRangeListEntry {
        range: CodeRange { from: ProgPoint::before(Inst(0)), to: ProgPoint::before(Inst(0)) },
        index,
    });
}

fn plain(n: usize) -> Vec<Vec<Operand>> {
    vec![vec![]; n]
}

fn moves_of(env: &Env) -> Vec<(usize, InsertMovePrio, Allocation, Allocation)> {
    env.edits
        .iter()
        .filter_map(|e| match e.2 {
            Edit::Move { from, to, .. } => Some((e.0, e.1, from, to)),
            Edit::DefAlloc { .. } => None,
        })
        .collect()
}

#[test]
fn single_block_abutment() {
    let mut env = program(vec![(0, 3, vec![], vec![])], plain(4), 1);
    // The second range begins at the point that follows After(i1).
    add_range(&mut env, 0, ProgPoint::before(Inst(2)), ProgPoint::after(Inst(3)).next(), slot(0), vec![]);
    add_range(&mut env, 0, ProgPoint::before(Inst(0)), ProgPoint::after(Inst(1)).next(), reg(1), vec![]);
    assert_eq!(env.apply_allocations_and_insert_moves(), Ok(()));
    // The lists are in order of where the ranges begin, with their extent.
    assert_eq!(env.vregs[0].ranges[0].index, LiveRangeIndex(1));
    assert_eq!(env.vregs[0].ranges[0].range.to, ProgPoint::before(Inst(2)));
    assert_eq!(
        env.inserted_moves,
        vec![InsertedMove {
            pos: ProgPoint::before(Inst(2)),
            prio: InsertMovePrio::Regular,
            from_alloc: reg(1),
            to_alloc: slot(0),
            to_vreg: Some(vreg(0)),
        }]
    );
    env.resolve_inserted_moves();
    assert_eq!(moves_of(&env), vec![(4, InsertMovePrio::Regular, reg(1), slot(0))]);
    assert_eq!(env.edits.len(), 2);
    assert_eq!(env.edits[1].2, Edit::DefAlloc { alloc: slot(0), vreg: vreg(0) });
}

#[test]
fn ranges_with_a_gap_do_not_abut() {
    let mut env = program(vec![(0, 3, vec![], vec![])], plain(4), 1);
    add_range(&mut env, 0, ProgPoint::before(Inst(0)), ProgPoint::after(Inst(1)), reg(1), vec![]);
    add_range(&mut env, 0, ProgPoint::before(Inst(2)), ProgPoint::after(Inst(3)), slot(0), vec![]);
    assert_eq!(env.apply_allocations_and_insert_moves(), Ok(()));
    assert!(env.inserted_moves.is_empty());
}

#[test]
fn range_that_starts_at_def_gets_no_abutment_move() {
    let mut env = program(vec![(0, 3, vec![], vec![])], plain(4), 1);
    add_range(&mut env, 0, ProgPoint::before(Inst(0)), ProgPoint::before(Inst(2)), reg(1), vec![]);
    add_range(&mut env, 0, ProgPoint::before(Inst(2)), ProgPoint::before(Inst(4)), slot(0), vec![]);
    env.ranges[1].starts_at_def = true;
    assert_eq!(env.apply_allocations_and_insert_moves(), Ok(()));
    assert!(env.inserted_moves.is_empty());
}

/// B0 = i0..i1 falls into B1 = i2..i3; v0 is in r1 in B0 and in r2 in B1.
fn two_blocks() -> Env {
    let mut env = program(vec![(0, 1, vec![1], vec![]), (2, 3, vec![], vec![0])], plain(4), 1);
    env.liveins[1][0] = true;
    add_range(&mut env, 0, ProgPoint::before(Inst(0)), ProgPoint::before(Inst(2)), reg(1), vec![]);
    add_range(&mut env, 0, ProgPoint::before(Inst(2)), ProgPoint::before(Inst(4)), reg(2), vec![]);
    env
}

#[test]
fn simple_edge_move() {
    let mut env = two_blocks();
    assert_eq!(env.apply_allocations_and_insert_moves(), Ok(()));
    assert_eq!(env.stats.halfmoves_count, 2);
    assert_eq!(
        env.inserted_moves,
        vec![InsertedMove {
            pos: ProgPoint::before(Inst(2)),
            prio: InsertMovePrio::InEdgeMoves,
            from_alloc: reg(1),
            to_alloc: reg(2),
            to_vreg: Some(vreg(0)),
        }]
    );
    env.resolve_inserted_moves();
    assert_eq!(moves_of(&env), vec![(4, InsertMovePrio::InEdgeMoves, reg(1), reg(2))]);
}

#[test]
fn edge_into_a_block_of_one_instruction() {
    // B1 is the single instruction i2.
    let mut env = program(vec![(0, 1, vec![1], vec![]), (2, 2, vec![], vec![0])], plain(3), 1);
    env.liveins[1][0] = true;
    add_range(&mut env, 0, ProgPoint::before(Inst(0)), ProgPoint::before(Inst(2)), reg(1), vec![]);
    add_range(&mut env, 0, ProgPoint::before(Inst(2)), ProgPoint::before(Inst(3)), slot(1), vec![]);
    assert_eq!(env.apply_allocations_and_insert_moves(), Ok(()));
    env.resolve_inserted_moves();
    assert_eq!(moves_of(&env), vec![(4, InsertMovePrio::InEdgeMoves, reg(1), slot(1))]);
}

#[test]
fn moves_into_a_join_go_before_the_branch() {
    // B0 and B1 each fall into B2, which so has two ways in.
    let mut env = program(
        vec![(0, 1, vec![2], vec![]), (2, 3, vec![2], vec![]), (4, 5, vec![], vec![0, 1])],
        plain(6),
        1,
    );
    env.liveins[2][0] = true;
    add_range(&mut env, 0, ProgPoint::before(Inst(0)), ProgPoint::before(Inst(2)), reg(1), vec![]);
    add_range(&mut env, 0, ProgPoint::before(Inst(2)), ProgPoint::before(Inst(4)), reg(2), vec![]);
    add_range(&mut env, 0, ProgPoint::before(Inst(4)), ProgPoint::before(Inst(6)), reg(3), vec![]);
    // B0 is the entry, so it too counts one way in; B1 has none.
    assert_eq!(env.apply_allocations_and_insert_moves(), Ok(()));
    env.resolve_inserted_moves();
    assert_eq!(
        moves_of(&env),
        vec![
            (2, InsertMovePrio::OutEdgeMoves, reg(1), reg(3)),
            (6, InsertMovePrio::OutEdgeMoves, reg(2), reg(3)),
        ]
    );
}

#[test]
fn branching_out_edge() {
    // B0 branches to B1 and B2.
    let mut env = program(
        vec![(0, 1, vec![1, 2], vec![]), (2, 3, vec![], vec![0]), (4, 5, vec![], vec![0])],
        plain(6),
        1,
    );
    env.liveins[1][0] = true;
    env.liveins[2][0] = true;
    add_range(&mut env, 0, ProgPoint::before(Inst(0)), ProgPoint::before(Inst(2)), reg(1), vec![]);
    add_range(&mut env, 0, ProgPoint::before(Inst(2)), ProgPoint::before(Inst(4)), reg(2), vec![]);
    add_range(&mut env, 0, ProgPoint::before(Inst(4)), ProgPoint::before(Inst(6)), reg(1), vec![]);
    assert_eq!(env.apply_allocations_and_insert_moves(), Ok(()));
    env.resolve_inserted_moves();
    assert_eq!(moves_of(&env), vec![(4, InsertMovePrio::InEdgeMoves, reg(1), reg(2))]);
    // The edge to B2 keeps the location: only the binding is announced.
    assert!(env
        .edits
        .contains(&(8, InsertMovePrio::InEdgeMoves, Edit::DefAlloc { alloc: reg(1), vreg: vreg(0) })));
}

#[test]
fn critical_edge_is_refused() {
    // B0 and B1 both branch to B2 and to a block of their own.
    let mut env = program(
        vec![
            (0, 1, vec![2, 3], vec![]),
            (2, 3, vec![2, 4], vec![]),
            (4, 5, vec![], vec![0, 1]),
            (6, 7, vec![], vec![0]),
            (8, 9, vec![], vec![1]),
        ],
        plain(10),
        1,
    );
    env.liveins[2][0] = true;
    add_range(&mut env, 0, ProgPoint::before(Inst(0)), ProgPoint::before(Inst(4)), reg(1), vec![]);
    add_range(&mut env, 0, ProgPoint::before(Inst(4)), ProgPoint::before(Inst(6)), reg(2), vec![]);
    let r = env.apply_allocations_and_insert_moves();
    assert!(
        r == Err(MoveError::CriticalEdge { from: Block(0), to: Block(2) })
            || r == Err(MoveError::CriticalEdge { from: Block(1), to: Block(2) })
    );
    assert_eq!(r, Err(MoveError::CriticalEdge { from: Block(0), to: Block(2) }));
}

fn operand(v: usize, kind: OperandKind, pos: OperandPos, constraint: OperandConstraint) -> Operand {
    Operand::new(vreg(v), constraint, kind, pos)
}

#[test]
fn reused_input_takes_the_location_of_its_output() {
    let input = operand(1, OperandKind::Use, OperandPos::Before, OperandConstraint::Any);
    let output = operand(2, OperandKind::Def, OperandPos::After, OperandConstraint::Reuse(0));
    let mut env = program(vec![(0, 2, vec![], vec![])], vec![vec![], vec![input, output], vec![]], 3);
    add_range(
        &mut env,
        1,
        ProgPoint::before(Inst(0)),
        ProgPoint::after(Inst(1)),
        reg(1),
        vec![Use { operand: input, pos: ProgPoint::before(Inst(1)), slot: 0 }],
    );
    add_range(
        &mut env,
        2,
        ProgPoint::after(Inst(1)),
        ProgPoint::before(Inst(3)),
        reg(2),
        vec![Use { operand: output, pos: ProgPoint::after(Inst(1)), slot: 1 }],
    );
    assert_eq!(env.apply_allocations_and_insert_moves(), Ok(()));
    assert_eq!(
        env.inserted_moves,
        vec![InsertedMove {
            pos: ProgPoint::before(Inst(1)),
            prio: InsertMovePrio::ReusedInput,
            from_alloc: reg(1),
            to_alloc: reg(2),
            to_vreg: Some(vreg(1)),
        }]
    );
    assert_eq!(env.get_alloc(Inst(1), 0), reg(2));
    assert_eq!(env.get_alloc(Inst(1), 1), reg(2));
    env.resolve_inserted_moves();
    assert_eq!(moves_of(&env), vec![(2, InsertMovePrio::ReusedInput, reg(1), reg(2))]);
}

#[test]
fn operand_slots_are_finalized() {
    let a = operand(0, OperandKind::Use, OperandPos::Before, OperandConstraint::Any);
    let b = operand(1, OperandKind::Def, OperandPos::After, OperandConstraint::Any);
    let mut env = program(vec![(0, 2, vec![], vec![])], vec![vec![a], vec![a, b], vec![b]], 2);
    add_range(
        &mut env,
        0,
        ProgPoint::before(Inst(0)),
        ProgPoint::after(Inst(1)),
        reg(3),
        vec![
            Use { operand: a, pos: ProgPoint::before(Inst(0)), slot: 0 },
            Use { operand: a, pos: ProgPoint::before(Inst(1)), slot: 0 },
            Use { operand: a, pos: ProgPoint::before(Inst(1)), slot: SLOT_NONE },
        ],
    );
    add_range(
        &mut env,
        1,
        ProgPoint::after(Inst(1)),
        ProgPoint::before(Inst(3)),
        slot(2),
        vec![
            Use { operand: b, pos: ProgPoint::after(Inst(1)), slot: 1 },
            Use { operand: b, pos: ProgPoint::before(Inst(2)), slot: 0 },
        ],
    );
    assert_eq!(env.apply_allocations_and_insert_moves(), Ok(()));
    assert_eq!(env.allocs, vec![reg(3), reg(3), slot(2), slot(2)]);
}

#[test]
fn spilled_range_takes_the_slot_of_its_spill_set() {
    let mut env = program(vec![(0, 1, vec![], vec![])], plain(2), 1);
    add_range(&mut env, 0, ProgPoint::before(Inst(0)), ProgPoint::before(Inst(2)), Allocation::none(), vec![]);
    env.spillsets.push(SpillSet { slot: SpillSlotIndex(0) });
    env.spillslots.push(SpillSlotData { alloc: slot(7) });
    assert_eq!(env.get_alloc_for_range(LiveRangeIndex(0)), slot(7));
    env.bundles[0].allocation = reg(4);
    assert_eq!(env.get_alloc_for_range(LiveRangeIndex(0)), reg(4));
}

#[test]
fn pinned_vreg_gets_no_moves_but_its_slots() {
    let a = operand(0, OperandKind::Use, OperandPos::Before, OperandConstraint::Any);
    let mut env = program(vec![(0, 1, vec![1], vec![]), (2, 3, vec![], vec![0])], vec![vec![a], vec![], vec![a], vec![]], 1);
    env.liveins[1][0] = true;
    env.vregs[0].is_pinned = true;
    env.func.pinned[0] = Some(preg(5));
    add_range(
        &mut env,
        0,
        ProgPoint::before(Inst(0)),
        ProgPoint::before(Inst(1)),
        reg(1),
        vec![Use { operand: a, pos: ProgPoint::before(Inst(0)), slot: 0 }],
    );
    add_range(
        &mut env,
        0,
        ProgPoint::before(Inst(1)),
        ProgPoint::before(Inst(4)),
        reg(2),
        vec![Use { operand: a, pos: ProgPoint::before(Inst(2)), slot: 0 }],
    );
    assert_eq!(env.apply_allocations_and_insert_moves(), Ok(()));
    assert_eq!(env.stats.halfmoves_count, 0);
    assert!(env.inserted_moves.is_empty());
    assert_eq!(env.allocs, vec![reg(5), reg(5)]);
}

#[test]
fn block_parameter_transfer() {
    // B0 passes v0 to the parameter v1 of B1.
    let mut env = program(vec![(0, 1, vec![1], vec![]), (2, 3, vec![], vec![0])], plain(4), 2);
    env.func.blocks[1].params = vec![vreg(1)];
    env.cfginfo.vreg_def_blockparam[1] = (Block(1), 0);
    env.blockparam_outs.push(BlockparamOut {
        from_vreg: VRegIndex(0),
        from_block: Block(0),
        to_block: Block(1),
        to_vreg: VRegIndex(1),
    });
    env.blockparam_ins.push(BlockparamIn { to_vreg: VRegIndex(1), to_block: Block(1), from_block: Block(0) });
    add_range(&mut env, 0, ProgPoint::before(Inst(0)), ProgPoint::before(Inst(2)), reg(1), vec![]);
    add_range(&mut env, 1, ProgPoint::before(Inst(2)), ProgPoint::before(Inst(4)), slot(0), vec![]);
    assert_eq!(env.apply_allocations_and_insert_moves(), Ok(()));
    assert_eq!(
        env.blockparam_allocs
            .iter()
            .map(|p| (p.block, p.index, p.vreg, p.alloc))
            .collect::<Vec<_>>(),
        vec![(Block(1), 0, VRegIndex(1), slot(0))]
    );
    env.resolve_inserted_moves();
    assert_eq!(moves_of(&env), vec![(4, InsertMovePrio::InEdgeMoves, reg(1), slot(0))]);
    assert_eq!(env.stats.blockparam_allocs_count, 1);
    // In-edge moves come first at the block's entry, then the parameter.
    assert_eq!(
        env.edits.last(),
        Some(&(4, InsertMovePrio::BlockParam, Edit::DefAlloc { alloc: slot(0), vreg: vreg(1) }))
    );
}

#[test]
fn program_move_is_reified() {
    let mut env = program(vec![(0, 2, vec![], vec![])], plain(3), 2);
    add_range(&mut env, 0, ProgPoint::before(Inst(0)), ProgPoint::before(Inst(2)), reg(1), vec![]);
    add_range(&mut env, 1, ProgPoint::before(Inst(2)), ProgPoint::before(Inst(3)), reg(2), vec![]);
    env.prog_move_srcs.push(ProgMove { vreg: VRegIndex(0), inst: Inst(1), alloc: Allocation::none() });
    env.prog_move_dsts.push(ProgMove { vreg: VRegIndex(1), inst: Inst(2), alloc: Allocation::none() });
    assert_eq!(env.apply_allocations_and_insert_moves(), Ok(()));
    assert!(env.prog_move_srcs.is_empty());
    assert!(env.prog_move_dsts.is_empty());
    assert_eq!(
        env.inserted_moves,
        vec![InsertedMove {
            pos: ProgPoint::before(Inst(2)),
            prio: InsertMovePrio::Regular,
            from_alloc: reg(1),
            to_alloc: reg(2),
            to_vreg: Some(vreg(1)),
        }]
    );
}

#[test]
fn multi_fixed_reg_fixup_is_applied() {
    let a = operand(0, OperandKind::Use, OperandPos::Before, OperandConstraint::FixedReg(preg(3)));
    let mut env = program(vec![(0, 1, vec![], vec![])], vec![vec![a, a], vec![]], 1);
    add_range(
        &mut env,
        0,
        ProgPoint::before(Inst(0)),
        ProgPoint::before(Inst(2)),
        reg(2),
        vec![
            Use { operand: a, pos: ProgPoint::before(Inst(0)), slot: 0 },
            Use { operand: a, pos: ProgPoint::before(Inst(0)), slot: 1 },
        ],
    );
    env.multi_fixed_reg_fixups.push(MultiFixedRegFixup {
        pos: ProgPoint::before(Inst(0)),
        from_preg: PRegIndex(2),
        to_preg: PRegIndex(3),
        slot: 1,
    });
    assert_eq!(env.apply_allocations_and_insert_moves(), Ok(()));
    assert!(env.multi_fixed_reg_fixups.is_empty());
    assert_eq!(env.allocs, vec![reg(2), reg(3)]);
    assert_eq!(
        env.inserted_moves,
        vec![InsertedMove {
            pos: ProgPoint::before(Inst(0)),
            prio: InsertMovePrio::MultiFixedReg,
            from_alloc: reg(2),
            to_alloc: reg(3),
            to_vreg: None,
        }]
    );
}

#[test]
fn block_ends_are_recognised() {
    let env = two_blocks();
    assert!(env.is_start_of_block(ProgPoint::before(Inst(2))));
    assert!(!env.is_start_of_block(ProgPoint::after(Inst(2))));
    assert!(env.is_end_of_block(ProgPoint::after(Inst(1))));
    assert!(!env.is_end_of_block(ProgPoint::before(Inst(1))));
    assert!(env.is_live_in(Block(1), VRegIndex(0)));
    assert!(!env.is_live_in(Block(0), VRegIndex(0)));
    assert!(!env.is_live_in(Block(9), VRegIndex(0)));
}

#[test]
fn running_twice_gives_the_same_edits() {
    let mut a = two_blocks();
    let mut b = two_blocks();
    assert_eq!(a.apply_allocations_and_insert_moves(), Ok(()));
    assert_eq!(b.apply_allocations_and_insert_moves(), Ok(()));
    a.resolve_inserted_moves();
    b.resolve_inserted_moves();
    assert_eq!(a.edits, b.edits);
    assert_eq!(a.allocs, b.allocs);
}

#[test]
fn block_param_alloc_fields_are_kept() {
    let p = BlockparamAlloc { block: Block(1), index: 2, vreg: VRegIndex(3), alloc: reg(1) };
    assert_eq!((p.block, p.index, p.vreg, p.alloc), (Block(1), 2, VRegIndex(3), reg(1)));
}

#[test]
fn two_outputs_reuse_two_inputs() {
    let in0 = operand(0, OperandKind::Use, OperandPos::Before, OperandConstraint::Any);
    let in1 = operand(1, OperandKind::Use, OperandPos::Before, OperandConstraint::Any);
    let out0 = operand(2, OperandKind::Def, OperandPos::After, OperandConstraint::Reuse(1));
    let out1 = operand(3, OperandKind::Def, OperandPos::After, OperandConstraint::Reuse(0));
    let mut env = program(vec![(0, 2, vec![], vec![])], vec![vec![], vec![in0, in1, out0, out1], vec![]], 4);
    let before = ProgPoint::before(Inst(1));
    let after = ProgPoint::after(Inst(1));
    add_range(&mut env, 0, ProgPoint::before(Inst(0)), after, reg(1), vec![Use { operand: in0, pos: before, slot: 0 }]);
    add_range(&mut env, 1, ProgPoint::before(Inst(0)), after, reg(2), vec![Use { operand: in1, pos: before, slot: 1 }]);
    add_range(&mut env, 2, after, ProgPoint::before(Inst(3)), reg(2), vec![Use { operand: out0, pos: after, slot: 2 }]);
    add_range(&mut env, 3, after, ProgPoint::before(Inst(3)), reg(4), vec![Use { operand: out1, pos: after, slot: 3 }]);
    assert_eq!(env.apply_allocations_and_insert_moves(), Ok(()));
    // The first output already shares the location of its input; the
    // second needs a copy. The instruction was noted once per output.
    assert_eq!(
        env.inserted_moves,
        vec![InsertedMove {
            pos: before,
            prio: InsertMovePrio::ReusedInput,
            from_alloc: reg(1),
            to_alloc: reg(4),
            to_vreg: Some(vreg(0)),
        }]
    );
    assert_eq!(env.allocs, vec![reg(4), reg(2), reg(2), reg(4)]);
}

#[test]
fn function_answers_the_questions_of_the_scan() {
    let env = two_blocks();
    assert_eq!(env.func.num_insts(), 4);
    assert_eq!(env.func.num_blocks(), 2);
    assert_eq!(env.func.entry_block(), Block(0));
    assert_eq!(env.func.block_insns(Block(1)), (Inst(2), Inst(3)));
    assert_eq!(env.func.block_first(Block(1)), Inst(2));
    assert_eq!(env.func.block_last(Block(0)), Inst(1));
    assert_eq!(env.func.block_succs(Block(0)), &vec![Block(1)]);
    assert_eq!(env.func.block_preds(Block(1)), &vec![Block(0)]);
    assert!(env.func.block_params(Block(1)).is_empty());
    assert!(env.func.inst_operands(Inst(0)).is_empty());
    assert!(env.func.inst_clobbers(Inst(0)).is_empty());
    assert!(!env.func.is_ret(Inst(3)));
    assert!(!env.func.is_safepoint(Inst(3)));
    assert_eq!(env.func.is_pinned_vreg(vreg(0)), None);
    assert_eq!(env.func.is_pinned_vreg(vreg(77)), None);
    assert_eq!(env.env.scratch(RegClass::Float), PReg { hw_enc: 15, class: RegClass::Float });
}

#[test]
fn a_return_counts_as_a_way_out() {
    // B0 ends in a return and also has an edge to B1, which has two ways in.
    let mut env = program(
        vec![(0, 1, vec![1], vec![]), (2, 3, vec![], vec![0, 0])],
        plain(4),
        1,
    );
    env.func.insts[1].is_ret = true;
    env.liveins[1][0] = true;
    add_range(&mut env, 0, ProgPoint::before(Inst(0)), ProgPoint::before(Inst(2)), reg(1), vec![]);
    add_range(&mut env, 0, ProgPoint::before(Inst(2)), ProgPoint::before(Inst(4)), reg(2), vec![]);
    assert_eq!(
        env.apply_allocations_and_insert_moves(),
        Err(MoveError::CriticalEdge { from: Block(0), to: Block(1) })
    );
}

#[test]
fn diamond_passes_two_values_to_one_parameter() {
    // B0 branches to B1 and B2, which both fall into B3. B3 has the
    // parameter v2, which gets v0 from B1 and v1 from B2.
    let mut env = program(
        vec![
            (0, 1, vec![1, 2], vec![]),
            (2, 3, vec![3], vec![0]),
            (4, 5, vec![3], vec![0]),
            (6, 7, vec![], vec![1, 2]),
        ],
        plain(8),
        3,
    );
    env.func.blocks[3].params = vec![vreg(2)];
    env.cfginfo.vreg_def_blockparam[2] = (Block(3), 0);
    env.liveins[1][0] = true;
    env.liveins[2][1] = true;
    env.blockparam_outs = vec![
        BlockparamOut { from_vreg: VRegIndex(0), from_block: Block(1), to_block: Block(3), to_vreg: VRegIndex(2) },
        BlockparamOut { from_vreg: VRegIndex(1), from_block: Block(2), to_block: Block(3), to_vreg: VRegIndex(2) },
    ];
    env.blockparam_ins = vec![
        BlockparamIn { to_vreg: VRegIndex(2), to_block: Block(3), from_block: Block(1) },
        BlockparamIn { to_vreg: VRegIndex(2), to_block: Block(3), from_block: Block(2) },
    ];
    add_range(&mut env, 0, ProgPoint::before(Inst(0)), ProgPoint::before(Inst(4)), reg(1), vec![]);
    add_range(&mut env, 1, ProgPoint::before(Inst(0)), ProgPoint::before(Inst(2)), reg(2), vec![]);
    add_range(&mut env, 1, ProgPoint::before(Inst(4)), ProgPoint::before(Inst(6)), reg(2), vec![]);
    add_range(&mut env, 2, ProgPoint::before(Inst(6)), ProgPoint::before(Inst(8)), reg(3), vec![]);
    assert_eq!(env.apply_allocations_and_insert_moves(), Ok(()));
    assert_eq!(env.stats.halfmoves_count, 6);
    let pending = |pos: ProgPoint, prio, from, to, v| InsertedMove {
        pos,
        prio,
        from_alloc: from,
        to_alloc: to,
        to_vreg: Some(vreg(v)),
    };
    assert_eq!(
        env.inserted_moves,
        vec![
            pending(ProgPoint::before(Inst(4)), InsertMovePrio::InEdgeMoves, reg(2), reg(2), 1),
            pending(ProgPoint::before(Inst(3)), InsertMovePrio::OutEdgeMoves, reg(1), reg(3), 2),
            pending(ProgPoint::before(Inst(5)), InsertMovePrio::OutEdgeMoves, reg(2), reg(3), 2),
        ]
    );
    env.resolve_inserted_moves();
    let def = |alloc, v| Edit::DefAlloc { alloc, vreg: vreg(v) };
    let mv = |from, to, v| Edit::Move { from, to, to_vreg: Some(vreg(v)) };
    assert_eq!(
        env.edits,
        vec![
            (6, InsertMovePrio::OutEdgeMoves, mv(reg(1), reg(3), 2)),
            (6, InsertMovePrio::OutEdgeMoves, def(reg(3), 2)),
            (8, InsertMovePrio::InEdgeMoves, def(reg(2), 1)),
            (10, InsertMovePrio::OutEdgeMoves, mv(reg(2), reg(3), 2)),
            (10, InsertMovePrio::OutEdgeMoves, def(reg(3), 2)),
            (12, InsertMovePrio::BlockParam, def(reg(3), 2)),
        ]
    );
    assert_eq!(env.stats.edits_count, 6);
}

#[test]
fn run_does_both_phases() {
    let mut whole = two_blocks();
    let mut stepwise = two_blocks();
    assert_eq!(whole.run(), Ok(()));
    assert_eq!(stepwise.apply_allocations_and_insert_moves(), Ok(()));
    stepwise.resolve_inserted_moves();
    assert_eq!(whole.edits, stepwise.edits);
    assert_eq!(moves_of(&whole), vec![(4, InsertMovePrio::InEdgeMoves, reg(1), reg(2))]);
    assert_eq!(whole.stats.edits_count, 2);
}

#[test]
fn run_stops_at_a_critical_edge_before_any_edit() {
    let mut env = program(
        vec![
            (0, 1, vec![2, 3], vec![]),
            (2, 3, vec![2, 4], vec![]),
            (4, 5, vec![], vec![0, 1]),
            (6, 7, vec![], vec![0]),
            (8, 9, vec![], vec![1]),
        ],
        plain(10),
        1,
    );
    env.liveins[2][0] = true;
    add_range(&mut env, 0, ProgPoint::before(Inst(0)), ProgPoint::before(Inst(4)), reg(1), vec![]);
    add_range(&mut env, 0, ProgPoint::before(Inst(4)), ProgPoint::before(Inst(6)), reg(2), vec![]);
    assert_eq!(env.run(), Err(MoveError::CriticalEdge { from: Block(0), to: Block(2) }));
    assert!(env.edits.is_empty());
}
