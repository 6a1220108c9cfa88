use std::collections::HashMap;
use brainf::bfir::{parse, AstNode};
use brainf::bounds::{highest_cell_index, movement, overall_movement, SaturatingInt, MAX_CELL_INDEX};

fn changes_of(pairs: &[(isize, i8)]) -> HashMap<isize, i8> {
    pairs.iter().cloned().collect()
}

#[test]
fn empty_program_touches_cell_zero() {
    assert_eq!(highest_cell_index(&vec![]), 0);
}

#[test]
fn pointer_moves_raise_the_bound() {
    assert_eq!(highest_cell_index(&parse(">>>").unwrap()), 3);
    assert_eq!(highest_cell_index(&parse(">><").unwrap()), 2);
    assert_eq!(highest_cell_index(&parse("<<>").unwrap()), 0);
}

#[test]
fn offsets_count_from_the_pointer() {
    let instrs = vec![
        AstNode::PointerIncrement { amount: 2, position: None },
        AstNode::Increment { amount: 1, offset: 5, position: None },
        AstNode::SetCell { amount: 1, offset: -1, position: None },
    ];
    assert_eq!(highest_cell_index(&instrs), 7);
}

#[test]
fn multiply_move_reaches_its_highest_key() {
    let instrs = vec![AstNode::MultiplyMove { changes: changes_of(&[(-2, 1), (4, 1)]), position: None }];
    assert_eq!(highest_cell_index(&instrs), 4);
    let below = vec![AstNode::MultiplyMove { changes: changes_of(&[(-2, 1)]), position: None }];
    assert_eq!(highest_cell_index(&below), 0);
}

#[test]
fn balanced_loop_keeps_its_body_bound() {
    assert_eq!(highest_cell_index(&parse("[>>+<<]").unwrap()), 2);
    assert_eq!(highest_cell_index(&parse(">[>+<<]").unwrap()), 2);
}

#[test]
fn loop_that_climbs_is_unbounded() {
    assert_eq!(highest_cell_index(&parse("[>]").unwrap()), MAX_CELL_INDEX);
    assert_eq!(MAX_CELL_INDEX, 99999);
}

#[test]
fn bound_is_capped() {
    let instrs = vec![AstNode::PointerIncrement { amount: 100000, position: None }];
    assert_eq!(highest_cell_index(&instrs), 99999);
    let just = vec![AstNode::PointerIncrement { amount: 99999, position: None }];
    assert_eq!(highest_cell_index(&just), 99999);
    let under = vec![AstNode::PointerIncrement { amount: 99998, position: None }];
    assert_eq!(highest_cell_index(&under), 99998);
}

#[test]
fn movement_of_each_instruction() {
    let n = SaturatingInt::Number;
    assert_eq!(movement(&AstNode::PointerIncrement { amount: 3, position: None }), (n(3), n(3)));
    assert_eq!(movement(&AstNode::PointerIncrement { amount: -3, position: None }), (n(0), n(-3)));
    assert_eq!(movement(&AstNode::Increment { amount: 1, offset: 4, position: None }), (n(4), n(0)));
    assert_eq!(movement(&AstNode::Read { position: None }), (n(0), n(0)));
    assert_eq!(movement(&parse("[<]").unwrap()[0]), (n(0), n(0)));
    assert_eq!(movement(&parse("[>]").unwrap()[0]), (SaturatingInt::Max, n(0)));
    assert_eq!(movement(&parse("[[>]]").unwrap()[0]), (SaturatingInt::Max, n(0)));
}

#[test]
fn overall_movement_folds_left() {
    let n = SaturatingInt::Number;
    assert_eq!(overall_movement(&parse(">>><").unwrap()), (n(3), n(2)));
    assert_eq!(overall_movement(&parse("<<").unwrap()), (n(0), n(-2)));
}

#[test]
fn saturating_sum_and_order() {
    let n = SaturatingInt::Number;
    assert_eq!(n(2).add(n(3)), n(5));
    assert_eq!(n(2).add(SaturatingInt::Max), SaturatingInt::Max);
    assert_eq!(SaturatingInt::Max.add(n(-1)), SaturatingInt::Max);
    assert_eq!(n(i64::MAX).add(n(1)), SaturatingInt::Max);
    assert_eq!(n(i64::MIN).add(n(-1)), n(i64::MIN));
    assert!(n(1).at_most(SaturatingInt::Max));
    assert!(!SaturatingInt::Max.at_most(n(1)));
    assert!(SaturatingInt::Max.at_most(SaturatingInt::Max));
    assert_eq!(n(1).larger(n(7)), n(7));
    assert_eq!(SaturatingInt::Max.larger(n(7)), SaturatingInt::Max);
}
