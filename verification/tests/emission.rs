use regalloc_moves::edits::{Edit, InsertMovePrio, InsertedMove};
use regalloc_moves::env::{Env, Stats};
use regalloc_moves::function::{BlockData, CFGInfo, Function, InstData, MachineEnv};
use regalloc_moves::index::{Block, Inst, ProgPoint};
use regalloc_moves::locations::{Allocation, PReg, RegClass, SpillSlot, VReg};

fn int_reg(n: u8) -> Allocation {
    Allocation::reg(PReg { hw_enc: n, class: RegClass::Int })
}

fn int_slot(n: u32) -> Allocation {
    Allocation::stack(SpillSlot { slot: n, class: RegClass::Int })
}

fn plain_inst() -> InstData {
    InstData { operands: vec![], clobbers: vec![], is_ret: false, is_safepoint: false }
}

/// One block of `n` plain instructions, nothing allocated yet.
fn straight_line(n: usize) -> Env {
    let mut insts = Vec::new();
    let mut insn_block = Vec::new();
    let mut offsets = Vec::new();
    for _ in 0..n {
        insts.push(plain_inst());
        insn_block.push(Block(0));
        offsets.push(0);
    }
    Env {
        func: Function {
            entry: Block(0),
            blocks: vec![BlockData {
                first: Inst(0),
                last: Inst(n - 1),
                succs: vec![],
                preds: vec![],
                params: vec![],
            }],
            insts,
            pinned: vec![],
        },
        env: MachineEnv {
            scratch_by_class: [
                PReg { hw_enc: 15, class: RegClass::Int },
                PReg { hw_enc: 15, class: RegClass::Float },
            ],
        },
        cfginfo: CFGInfo {
            insn_block,
            block_entry: vec![ProgPoint::before(Inst(0))],
            block_exit: vec![ProgPoint::after(Inst(n - 1))],
            vreg_def_blockparam: vec![],
        },
        liveins: vec![vec![]],
        ranges: vec![],
        bundles: vec![],
        spillsets: vec![],
        spillslots: vec![],
        vregs: vec![],
        vreg_regs: vec![],
        pregs: vec![],
        blockparam_ins: vec![],
        blockparam_outs: vec![],
        blockparam_allocs: vec![],
        prog_move_srcs: vec![],
        prog_move_dsts: vec![],
        multi_fixed_reg_fixups: vec![],
        inserted_moves: vec![],
        edits: vec![],
        allocs: vec![],
        inst_alloc_offsets: offsets,
        extra_spillslot: [None, None],
        num_spillslots: 2,
        stats: Stats { halfmoves_count: 0, edits_count: 0, blockparam_allocs_count: 0 },
    }
}

fn mv(from: Allocation, to: Allocation) -> Edit {
    Edit::Move { from, to, to_vreg: None }
}

#[test]
fn stack_to_stack_cycle_uses_extra_slot() {
    let mut env = straight_line(3);
    let pos = ProgPoint::before(Inst(1));
    env.insert_move(pos, InsertMovePrio::Regular, int_slot(0), int_slot(1), None);
    env.insert_move(pos, InsertMovePrio::Regular, int_slot(1), int_slot(0), None);
    env.resolve_inserted_moves();
    let scratch = int_reg(15);
    let extra = int_slot(2);
    let expected = vec![
        mv(int_slot(0), scratch),
        mv(scratch, extra),
        mv(int_slot(1), scratch),
        mv(scratch, int_slot(0)),
        mv(extra, scratch),
        mv(scratch, int_slot(1)),
    ];
    assert_eq!(env.edits.len(), 6);
    for (i, e) in env.edits.iter().enumerate() {
        assert_eq!(e.0, pos.to_index());
        assert_eq!(e.1, InsertMovePrio::Regular);
        assert_eq!(e.2, expected[i]);
    }
    assert_eq!(env.extra_spillslot[0], Some(extra));
    assert_eq!(env.num_spillslots, 3);
    assert_eq!(env.stats.edits_count, 6);
}

#[test]
fn redundant_move_is_elided() {
    let mut env = straight_line(3);
    let v = VReg { vreg: 0, class: RegClass::Int };
    let pos = ProgPoint::before(Inst(1));
    env.insert_move(pos, InsertMovePrio::Regular, int_reg(1), int_reg(2), Some(v));
    env.insert_move(pos, InsertMovePrio::PostRegular, int_reg(1), int_reg(2), Some(v));
    env.resolve_inserted_moves();
    assert_eq!(env.edits.len(), 3);
    assert_eq!(env.edits[0].2, Edit::Move { from: int_reg(1), to: int_reg(2), to_vreg: Some(v) });
    assert_eq!(env.edits[1].2, Edit::DefAlloc { alloc: int_reg(2), vreg: v });
    assert_eq!(env.edits[2], (pos.to_index(), InsertMovePrio::PostRegular, Edit::DefAlloc { alloc: int_reg(2), vreg: v }));
}

fn float_reg(n: u8) -> Allocation {
    Allocation::reg(PReg { hw_enc: n, class: RegClass::Float })
}

fn pending(pos: ProgPoint, prio: InsertMovePrio, from: Allocation, to: Allocation) -> InsertedMove {
    InsertedMove { pos, prio, from_alloc: from, to_alloc: to, to_vreg: None }
}

#[test]
fn add_edit_drops_a_move_onto_itself_without_vreg() {
    let mut env = straight_line(2);
    let pos = ProgPoint::before(Inst(1));
    let v = VReg { vreg: 1, class: RegClass::Int };
    env.add_edit(pos, InsertMovePrio::Regular, mv(int_reg(1), int_reg(1)));
    assert!(env.edits.is_empty());
    env.add_edit(pos, InsertMovePrio::Regular, Edit::Move { from: int_reg(1), to: int_reg(1), to_vreg: Some(v) });
    env.add_edit(pos, InsertMovePrio::Regular, mv(int_reg(1), int_reg(2)));
    env.add_edit(pos, InsertMovePrio::BlockParam, Edit::DefAlloc { alloc: int_reg(1), vreg: v });
    assert_eq!(
        env.edits,
        vec![
            (2, InsertMovePrio::Regular, Edit::Move { from: int_reg(1), to: int_reg(1), to_vreg: Some(v) }),
            (2, InsertMovePrio::Regular, mv(int_reg(1), int_reg(2))),
            (2, InsertMovePrio::BlockParam, Edit::DefAlloc { alloc: int_reg(1), vreg: v }),
        ]
    );
}

#[test]
fn insert_move_appends() {
    let mut env = straight_line(2);
    let pos = ProgPoint::after(Inst(0));
    env.insert_move(pos, InsertMovePrio::PostRegular, int_reg(1), int_slot(2), None);
    assert_eq!(env.inserted_moves, vec![pending(pos, InsertMovePrio::PostRegular, int_reg(1), int_slot(2))]);
}

#[test]
fn slots_are_addressed_through_the_offsets() {
    let mut env = straight_line(3);
    env.allocs = vec![Allocation::none(); 5];
    env.inst_alloc_offsets = vec![0, 2, 3];
    env.set_alloc(Inst(1), 0, int_reg(4));
    env.set_alloc(Inst(2), 1, int_slot(1));
    assert_eq!(env.get_alloc(Inst(1), 0), int_reg(4));
    assert_eq!(env.get_alloc(Inst(2), 1), int_slot(1));
    assert_eq!(
        env.allocs,
        vec![Allocation::none(), Allocation::none(), int_reg(4), Allocation::none(), int_slot(1)]
    );
}

#[test]
fn allocate_spillslot_counts_up() {
    let mut env = straight_line(1);
    assert_eq!(env.allocate_spillslot(RegClass::Float), Allocation::stack(SpillSlot { slot: 2, class: RegClass::Float }));
    assert_eq!(env.allocate_spillslot(RegClass::Int), int_slot(3));
    assert_eq!(env.num_spillslots, 4);
}

#[test]
fn edits_are_ordered_by_point_then_priority_and_stay_in_emission_order() {
    let mut env = straight_line(4);
    let late = ProgPoint::before(Inst(3));
    let early = ProgPoint::before(Inst(1));
    env.inserted_moves = vec![
        pending(late, InsertMovePrio::Regular, int_reg(1), int_reg(2)),
        pending(early, InsertMovePrio::OutEdgeMoves, int_reg(3), int_reg(4)),
        pending(early, InsertMovePrio::InEdgeMoves, int_reg(5), int_reg(6)),
        pending(early, InsertMovePrio::OutEdgeMoves, float_reg(1), float_reg(2)),
        pending(early, InsertMovePrio::OutEdgeMoves, int_reg(7), int_reg(8)),
    ];
    env.resolve_inserted_moves();
    assert_eq!(
        env.edits,
        vec![
            (2, InsertMovePrio::InEdgeMoves, mv(int_reg(5), int_reg(6))),
            (2, InsertMovePrio::OutEdgeMoves, mv(int_reg(3), int_reg(4))),
            (2, InsertMovePrio::OutEdgeMoves, mv(int_reg(7), int_reg(8))),
            (2, InsertMovePrio::OutEdgeMoves, mv(float_reg(1), float_reg(2))),
            (6, InsertMovePrio::Regular, mv(int_reg(1), int_reg(2))),
        ]
    );
    // The pending moves themselves were put in order too.
    assert_eq!(env.inserted_moves[0], pending(early, InsertMovePrio::InEdgeMoves, int_reg(5), int_reg(6)));
    assert_eq!(env.inserted_moves[4], pending(late, InsertMovePrio::Regular, int_reg(1), int_reg(2)));
}

#[test]
fn group_of_self_moves_emits_no_move() {
    let mut env = straight_line(2);
    let pos = ProgPoint::before(Inst(1));
    let v = VReg { vreg: 3, class: RegClass::Int };
    env.insert_move(pos, InsertMovePrio::Regular, int_reg(1), int_reg(1), None);
    env.insert_move(pos, InsertMovePrio::Regular, int_reg(2), int_reg(2), Some(v));
    env.resolve_inserted_moves();
    assert_eq!(env.edits, vec![(2, InsertMovePrio::Regular, Edit::DefAlloc { alloc: int_reg(2), vreg: v })]);
}

#[test]
fn stack_to_stack_move_goes_through_the_free_scratch() {
    let mut env = straight_line(2);
    let pos = ProgPoint::before(Inst(1));
    env.insert_move(pos, InsertMovePrio::Regular, int_slot(0), int_slot(1), None);
    env.resolve_inserted_moves();
    assert_eq!(
        env.edits,
        vec![
            (2, InsertMovePrio::Regular, mv(int_slot(0), int_reg(15))),
            (2, InsertMovePrio::Regular, mv(int_reg(15), int_slot(1))),
        ]
    );
    assert_eq!(env.extra_spillslot, [None, None]);
    assert_eq!(env.num_spillslots, 2);
}

#[test]
fn extra_slot_is_allocated_once() {
    let mut env = straight_line(4);
    for inst in [1, 2] {
        let pos = ProgPoint::before(Inst(inst));
        env.insert_move(pos, InsertMovePrio::Regular, int_slot(0), int_slot(1), None);
        env.insert_move(pos, InsertMovePrio::Regular, int_slot(1), int_slot(0), None);
    }
    env.resolve_inserted_moves();
    assert_eq!(env.edits.len(), 12);
    assert_eq!(env.extra_spillslot[0], Some(int_slot(2)));
    assert_eq!(env.extra_spillslot[1], None);
    assert_eq!(env.num_spillslots, 3);
}

fn two_copies(env: &mut Env) {
    env.insert_move(ProgPoint::before(Inst(1)), InsertMovePrio::Regular, int_reg(1), int_reg(2), None);
    env.insert_move(ProgPoint::before(Inst(3)), InsertMovePrio::Regular, int_reg(1), int_reg(2), None);
}

#[test]
fn second_copy_is_elided_when_nothing_intervenes() {
    let mut env = straight_line(4);
    two_copies(&mut env);
    env.resolve_inserted_moves();
    assert_eq!(env.edits, vec![(2, InsertMovePrio::Regular, mv(int_reg(1), int_reg(2)))]);
}

#[test]
fn no_elision_across_a_safepoint() {
    let mut env = straight_line(4);
    env.func.insts[2].is_safepoint = true;
    two_copies(&mut env);
    env.resolve_inserted_moves();
    assert_eq!(env.edits.len(), 2);
    assert_eq!(env.edits[1], (6, InsertMovePrio::Regular, mv(int_reg(1), int_reg(2))));
}

#[test]
fn no_elision_across_a_clobber() {
    let mut env = straight_line(4);
    env.func.insts[1].clobbers = vec![PReg { hw_enc: 1, class: RegClass::Int }];
    two_copies(&mut env);
    env.resolve_inserted_moves();
    assert_eq!(env.edits.len(), 2);
}

#[test]
fn no_elision_across_a_block_boundary() {
    let mut env = straight_line(4);
    env.func.blocks = vec![
        BlockData { first: Inst(0), last: Inst(1), succs: vec![Block(1)], preds: vec![], params: vec![] },
        BlockData { first: Inst(2), last: Inst(3), succs: vec![], preds: vec![Block(0)], params: vec![] },
    ];
    env.cfginfo.insn_block = vec![Block(0), Block(0), Block(1), Block(1)];
    env.cfginfo.block_entry = vec![ProgPoint::before(Inst(0)), ProgPoint::before(Inst(2))];
    env.cfginfo.block_exit = vec![ProgPoint::after(Inst(1)), ProgPoint::after(Inst(3))];
    env.liveins = vec![vec![], vec![]];
    two_copies(&mut env);
    env.resolve_inserted_moves();
    assert_eq!(env.edits.len(), 2);
}
