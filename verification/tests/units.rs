use regalloc_moves::edits::{Edit, InsertMovePrio};
use regalloc_moves::halfmove::{half_move_key, HalfMove, HalfMoveKind};
use regalloc_moves::index::{Block, CodeRange, Inst, InstPosition, LiveRangeIndex, ProgPoint, VRegIndex};
use regalloc_moves::locations::{Allocation, PReg, RegClass, SpillSlot, VReg};
use regalloc_moves::operand::{Operand, OperandConstraint, OperandKind, OperandPos};
use regalloc_moves::parallel::{Move, ParallelMoves};
use regalloc_moves::redundant::{RedundantMoveAction, RedundantMoveEliminator};
use regalloc_moves::sorting::{sort_by_keys, stable_order_of};

fn reg(n: u8) -> Allocation {
    Allocation::reg(PReg { hw_enc: n, class: RegClass::Int })
}

fn freg(n: u8) -> Allocation {
    Allocation::reg(PReg { hw_enc: n, class: RegClass::Float })
}

fn slot(n: u32) -> Allocation {
    Allocation::stack(SpillSlot { slot: n, class: RegClass::Int })
}

fn vreg(n: usize) -> VReg {
    VReg { vreg: n, class: RegClass::Int }
}

fn mv(from: Allocation, to: Allocation) -> Move {
    Move { from, to, to_vreg: None }
}

#[test]
fn prog_point_index_is_twice_inst_plus_pos() {
    assert_eq!(ProgPoint::before(Inst(3)).to_index(), 6);
    assert_eq!(ProgPoint::after(Inst(3)).to_index(), 7);
    assert_eq!(ProgPoint::after(Inst(3)).inst(), Inst(3));
    assert_eq!(ProgPoint::after(Inst(3)).pos(), InstPosition::After);
    assert_eq!(ProgPoint::before(Inst(3)).pos(), InstPosition::Before);
    assert_eq!(ProgPoint::after(Inst(3)).next(), ProgPoint::before(Inst(4)));
    assert_eq!(ProgPoint::from_index(9), ProgPoint::after(Inst(4)));
}

#[test]
fn code_range_is_half_open() {
    let r = CodeRange { from: ProgPoint::before(Inst(1)), to: ProgPoint::before(Inst(3)) };
    assert!(r.contains_point(ProgPoint::before(Inst(1))));
    assert!(r.contains_point(ProgPoint::after(Inst(2))));
    assert!(!r.contains_point(ProgPoint::before(Inst(3))));
    assert!(!r.contains_point(ProgPoint::after(Inst(0))));
}

#[test]
fn identifiers_know_the_invalid_one() {
    assert!(!Block::invalid().is_valid());
    assert!(Block::new(3).is_valid());
    assert_eq!(Block::new(3).index(), 3);
    assert_eq!(Inst::new(5).index(), 5);
    assert!(!LiveRangeIndex::invalid().is_valid());
    assert!(LiveRangeIndex(0).is_valid());
}

#[test]
fn allocation_kinds_and_classes() {
    assert!(Allocation::none().is_none());
    assert!(reg(1).is_reg() && !reg(1).is_stack() && !reg(1).is_none());
    assert!(slot(1).is_stack() && !slot(1).is_reg());
    assert_eq!(reg(1).as_reg(), Some(PReg { hw_enc: 1, class: RegClass::Int }));
    assert_eq!(slot(1).as_reg(), None);
    assert_eq!(slot(1).as_stack(), Some(SpillSlot { slot: 1, class: RegClass::Int }));
    assert_eq!(freg(2).class(), RegClass::Float);
    assert_eq!(slot(2).class(), RegClass::Int);
    assert_eq!(RegClass::Int.number(), 0);
    assert_eq!(RegClass::Float.number(), 1);
}

#[test]
fn allocations_are_ordered_by_kind_class_and_number() {
    assert_eq!(Allocation::none().order_key(), 0);
    assert_eq!(reg(3).order_key(), 0x1_0000_0003);
    assert_eq!(freg(3).order_key(), 0x1_0000_0103);
    assert_eq!(slot(5).order_key(), 0x100_0000_0005);
    assert!(reg(200).order_key() < freg(0).order_key());
    assert!(freg(255).order_key() < slot(0).order_key());
}

#[test]
fn priorities_rank_from_in_edge_to_out_edge() {
    let all = [
        InsertMovePrio::InEdgeMoves,
        InsertMovePrio::BlockParam,
        InsertMovePrio::Regular,
        InsertMovePrio::PostRegular,
        InsertMovePrio::MultiFixedReg,
        InsertMovePrio::ReusedInput,
        InsertMovePrio::OutEdgeMoves,
    ];
    for (i, p) in all.iter().enumerate() {
        assert_eq!(p.rank(), i as u64);
    }
}

#[test]
fn operand_knows_reuse_and_writes() {
    let d = Operand::new(vreg(1), OperandConstraint::Reuse(0), OperandKind::Def, OperandPos::After);
    let m = Operand::new(vreg(1), OperandConstraint::Reg, OperandKind::Mod, OperandPos::Before);
    let u = Operand::new(vreg(1), OperandConstraint::Any, OperandKind::Use, OperandPos::Before);
    assert!(d.is_reuse() && d.is_written());
    assert!(!m.is_reuse() && m.is_written());
    assert!(!u.is_reuse() && !u.is_written());
}

#[test]
fn half_move_key_packs_four_fields() {
    let key = half_move_key(Block(1), Block(2), VRegIndex(3), HalfMoveKind::Dest);
    assert_eq!(key, (1u64 << 43) | (2u64 << 22) | (3u64 << 1) | 1);
    let hm = HalfMove { key, alloc: reg(1) };
    assert_eq!(hm.from_block(), Block(1));
    assert_eq!(hm.to_block(), Block(2));
    assert_eq!(hm.to_vreg(), VRegIndex(3));
    assert_eq!(hm.kind(), HalfMoveKind::Dest);
    let largest = half_move_key(Block(0x1f_ffff), Block(0x1f_ffff), VRegIndex(0x1f_ffff), HalfMoveKind::Source);
    assert_eq!(largest, u64::MAX - 1);
    let hm = HalfMove { key: largest, alloc: reg(1) };
    assert_eq!(hm.from_block(), Block(0x1f_ffff));
    assert_eq!(hm.to_vreg(), VRegIndex(0x1f_ffff));
    assert_eq!(hm.kind(), HalfMoveKind::Source);
}

#[test]
fn half_moves_of_one_edge_sort_together_source_first() {
    let s = half_move_key(Block(1), Block(2), VRegIndex(3), HalfMoveKind::Source);
    let d = half_move_key(Block(1), Block(2), VRegIndex(3), HalfMoveKind::Dest);
    let other = half_move_key(Block(1), Block(2), VRegIndex(4), HalfMoveKind::Source);
    let earlier = half_move_key(Block(0), Block(9), VRegIndex(9), HalfMoveKind::Dest);
    assert!(earlier < s && s < d && d < other);
    assert_eq!(s | 1, d);
}

#[test]
fn sort_is_stable() {
    let items = vec!['a', 'b', 'c', 'd', 'e'];
    let keys = vec![2u64, 1, 2, 0, 1];
    assert_eq!(stable_order_of(&keys), vec![3, 1, 4, 0, 2]);
    assert_eq!(sort_by_keys(&items, &keys), vec!['d', 'b', 'e', 'a', 'c']);
    let none: Vec<u64> = vec![];
    assert_eq!(stable_order_of(&none), Vec::<usize>::new());
}

#[test]
fn one_parallel_move_is_returned_as_it_is() {
    let mut p = ParallelMoves::new(reg(15));
    assert!(p.parallel_moves.is_empty());
    p.add(reg(1), reg(2), Some(vreg(7)));
    assert_eq!(p.resolve(), vec![Move { from: reg(1), to: reg(2), to_vreg: Some(vreg(7)) }]);
    assert_eq!(ParallelMoves::new(reg(15)).resolve(), vec![]);
}

#[test]
fn independent_parallel_moves_go_by_source() {
    let mut p = ParallelMoves::new(reg(15));
    p.add(slot(3), reg(4), None);
    p.add(reg(1), reg(2), None);
    p.add(reg(1), reg(0), None);
    assert_eq!(p.resolve(), vec![mv(reg(1), reg(0)), mv(reg(1), reg(2)), mv(slot(3), reg(4))]);
}

#[test]
fn a_move_comes_before_the_one_that_overwrites_its_source() {
    let mut p = ParallelMoves::new(reg(15));
    p.add(reg(1), reg(2), None);
    p.add(reg(2), reg(3), None);
    assert_eq!(p.resolve(), vec![mv(reg(2), reg(3)), mv(reg(1), reg(2))]);
    let mut p = ParallelMoves::new(reg(15));
    p.add(reg(2), reg(3), None);
    p.add(reg(3), reg(4), None);
    p.add(reg(1), reg(2), None);
    assert_eq!(p.resolve(), vec![mv(reg(3), reg(4)), mv(reg(2), reg(3)), mv(reg(1), reg(2))]);
}

#[test]
fn a_cycle_goes_through_the_scratch() {
    let mut p = ParallelMoves::new(reg(15));
    p.add(reg(1), reg(2), Some(vreg(1)));
    p.add(reg(2), reg(1), Some(vreg(2)));
    assert_eq!(
        p.resolve(),
        vec![
            Move { from: reg(1), to: reg(15), to_vreg: None },
            Move { from: reg(2), to: reg(1), to_vreg: Some(vreg(2)) },
            Move { from: reg(15), to: reg(2), to_vreg: Some(vreg(1)) },
        ]
    );
}

#[test]
fn a_cycle_of_three_with_a_move_out_of_it() {
    // r1 -> r2 -> r3 -> r1, and r3 also goes to r4.
    let mut p = ParallelMoves::new(reg(15));
    p.add(reg(1), reg(2), None);
    p.add(reg(2), reg(3), None);
    p.add(reg(3), reg(1), None);
    p.add(reg(3), reg(4), None);
    let resolved = p.resolve();
    // Carry the schedule out on values named after where they start.
    let mut state: Vec<(Allocation, u8)> = (0..16u8).map(|n| (reg(n), n)).collect();
    for m in &resolved {
        let value = state.iter().find(|(a, _)| *a == m.from).unwrap().1;
        state.iter_mut().find(|(a, _)| *a == m.to).unwrap().1 = value;
    }
    let holds = |a: Allocation| state.iter().find(|(x, _)| *x == a).unwrap().1;
    assert_eq!(holds(reg(2)), 1);
    assert_eq!(holds(reg(3)), 2);
    assert_eq!(holds(reg(1)), 3);
    assert_eq!(holds(reg(4)), 3);
    assert_eq!(holds(reg(5)), 5);
}

fn action(elide: bool, def_alloc: Option<(Allocation, VReg)>) -> RedundantMoveAction {
    RedundantMoveAction { elide, def_alloc }
}

#[test]
fn eliminator_elides_a_repeated_copy() {
    let mut e = RedundantMoveEliminator::new();
    assert_eq!(e.process_move(reg(1), reg(2), None), action(false, None));
    assert_eq!(e.process_move(reg(1), reg(2), None), action(true, None));
    // The copy also shows that moving back changes nothing.
    assert_eq!(e.process_move(reg(2), reg(1), Some(vreg(3))), action(true, Some((reg(1), vreg(3)))));
}

#[test]
fn eliminator_forgets_what_is_overwritten() {
    let mut e = RedundantMoveEliminator::new();
    e.process_move(reg(1), reg(2), None);
    e.clear_alloc(reg(1));
    assert_eq!(e.process_move(reg(1), reg(2), None), action(false, None));
    e.clear_alloc(reg(2));
    assert_eq!(e.process_move(reg(1), reg(2), None), action(false, None));
    e.process_move(reg(3), reg(1), None);
    // Writing r1 made r2 stale.
    assert_eq!(e.process_move(reg(1), reg(2), None), action(false, None));
    e.clear();
    assert_eq!(e.process_move(reg(1), reg(2), None), action(false, None));
}

#[test]
fn eliminator_does_not_track_stack_to_stack() {
    let mut e = RedundantMoveEliminator::new();
    assert_eq!(e.process_move(slot(1), slot(2), None), action(false, None));
    assert_eq!(e.process_move(slot(1), slot(2), None), action(false, None));
    assert_eq!(e.process_move(slot(1), reg(2), None), action(false, None));
    assert_eq!(e.process_move(slot(1), reg(2), None), action(true, None));
}

#[test]
fn eliminator_announces_a_self_move() {
    let mut e = RedundantMoveEliminator::new();
    assert_eq!(e.process_move(reg(1), reg(1), Some(vreg(4))), action(true, Some((reg(1), vreg(4)))));
    assert_eq!(e.process_move(reg(1), reg(1), None), action(false, None));
}

#[test]
fn edit_variants_compare() {
    let a = Edit::Move { from: reg(1), to: reg(2), to_vreg: None };
    let b = Edit::DefAlloc { alloc: reg(2), vreg: vreg(1) };
    assert_ne!(a, b);
    assert_eq!(a, Edit::Move { from: reg(1), to: reg(2), to_vreg: None });
}
