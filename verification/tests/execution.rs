use std::collections::HashMap;
use brainf::bfir::{parse, AstNode, Position};
use brainf::diagnostics::Warning;
use brainf::execution::{execute, execute_with_state, ExecutionState, Outcome, MAX_STEPS};
use brainf::peephole::extract_multiply;

fn changes_of(pairs: &[(isize, i8)]) -> HashMap<isize, i8> {
    pairs.iter().cloned().collect()
}

#[test]
fn initial_state_is_zeroed() {
    let instrs = parse(">>+").unwrap();
    let state = ExecutionState::initial(&instrs);
    assert_eq!(state.cells, vec![0, 0, 0]);
    assert_eq!(state.cell_ptr, 0);
    assert_eq!(state.outputs, vec![]);
    assert_eq!(state.start_instr, None);
}

#[test]
fn runs_arithmetic_to_the_end() {
    let instrs = parse("+++>--").unwrap();
    let (state, warning) = execute(&instrs, MAX_STEPS);
    assert_eq!(state.cells, vec![3, -2]);
    assert_eq!(state.cell_ptr, 1);
    assert_eq!(state.start_instr, None);
    assert_eq!(warning, None);
}

#[test]
fn completed_reports_steps_left() {
    let instrs = parse("+++").unwrap();
    let mut state = ExecutionState::initial(&instrs);
    assert_eq!(execute_with_state(&instrs, &mut state, 10, None), Outcome::Completed(7));
    assert_eq!(state.start_instr, None);
}

#[test]
fn completes_with_no_steps_left() {
    let instrs = parse("+++").unwrap();
    let mut state = ExecutionState::initial(&instrs);
    assert_eq!(execute_with_state(&instrs, &mut state, 3, None), Outcome::Completed(0));
    assert_eq!(state.cells, vec![3]);
    assert_eq!(state.start_instr, None);
}

#[test]
fn cells_wrap() {
    let instrs = vec![
        AstNode::SetCell { amount: 127, offset: 0, position: None },
        AstNode::Increment { amount: 1, offset: 0, position: None },
    ];
    let (state, _) = execute(&instrs, MAX_STEPS);
    assert_eq!(state.cells, vec![-128]);
}

#[test]
fn writes_the_current_cell() {
    let instrs = parse("++++++++[>++++++++<-]>.").unwrap();
    let (state, warning) = execute(&instrs, MAX_STEPS);
    assert_eq!(state.outputs, vec![64]);
    assert_eq!(state.start_instr, None);
    assert_eq!(warning, None);
}

#[test]
fn stops_at_a_read() {
    let instrs = parse(",+.").unwrap();
    let mut state = ExecutionState::initial(&instrs);
    let outcome = execute_with_state(&instrs, &mut state, MAX_STEPS, None);
    assert_eq!(outcome, Outcome::ReachedRuntimeValue);
    assert_eq!(state.start_instr, Some(vec![0]));
    assert_eq!(state.cells, vec![0]);
}

#[test]
fn stops_at_a_read_inside_loops() {
    let instrs = parse("+[>+[,]]").unwrap();
    let (state, warning) = execute(&instrs, MAX_STEPS);
    assert_eq!(state.start_instr, Some(vec![1, 2, 0]));
    assert_eq!(state.cells.len(), 100000);
    assert_eq!(state.cells[..3], [1, 1, 0]);
    assert_eq!(warning, None);
}

#[test]
fn dummy_read_value_is_stored() {
    let instrs = parse(",.").unwrap();
    let mut state = ExecutionState::initial(&instrs);
    let outcome = execute_with_state(&instrs, &mut state, 10, Some(7));
    assert_eq!(outcome, Outcome::Completed(8));
    assert_eq!(state.outputs, vec![7]);
}

#[test]
fn skips_a_loop_on_a_zero_cell() {
    let instrs = parse("[+]").unwrap();
    let mut state = ExecutionState::initial(&instrs);
    assert_eq!(execute_with_state(&instrs, &mut state, 5, None), Outcome::Completed(4));
    assert_eq!(state.cells, vec![0]);
}

#[test]
fn each_turn_of_a_loop_costs_a_step() {
    let instrs = parse("++[-]").unwrap();
    let mut state = ExecutionState::initial(&instrs);
    assert_eq!(execute_with_state(&instrs, &mut state, 100, None), Outcome::Completed(93));
}

#[test]
fn runs_out_of_steps_in_an_endless_loop() {
    let instrs = parse("+[]").unwrap();
    let mut state = ExecutionState::initial(&instrs);
    let outcome = execute_with_state(&instrs, &mut state, 50, None);
    assert_eq!(outcome, Outcome::OutOfSteps);
    assert_eq!(state.start_instr, Some(vec![1]));
    assert_eq!(state.cells, vec![1]);
}

#[test]
fn runs_out_of_steps_before_the_next_instruction() {
    let instrs = parse("+++").unwrap();
    let mut state = ExecutionState::initial(&instrs);
    assert_eq!(execute_with_state(&instrs, &mut state, 2, None), Outcome::OutOfSteps);
    assert_eq!(state.start_instr, Some(vec![2]));
    assert_eq!(state.cells, vec![2]);
}

#[test]
fn runs_out_of_steps_inside_a_body() {
    let instrs = parse("+[>+<+]").unwrap();
    let mut state = ExecutionState::initial(&instrs);
    assert_eq!(execute_with_state(&instrs, &mut state, 3, None), Outcome::OutOfSteps);
    assert_eq!(state.start_instr, Some(vec![1, 2]));
}

#[test]
fn zero_steps_run_nothing() {
    let instrs = parse("+").unwrap();
    let mut state = ExecutionState::initial(&instrs);
    assert_eq!(execute_with_state(&instrs, &mut state, 0, None), Outcome::OutOfSteps);
    assert_eq!(state.start_instr, Some(vec![0]));
    let mut empty = ExecutionState::initial(&vec![]);
    assert_eq!(execute_with_state(&vec![], &mut empty, 0, None), Outcome::Completed(0));
}

#[test]
fn pointer_below_the_tape_is_an_error() {
    let instrs = parse("+<").unwrap();
    let (state, warning) = execute(&instrs, MAX_STEPS);
    assert_eq!(
        warning,
        Some(Warning {
            message: "This instruction moves the pointer to cell -1.".to_owned(),
            position: Some(Position { start: 1, end: 1 }),
        })
    );
    assert_eq!(state.start_instr, Some(vec![1]));
    assert_eq!(state.cells, vec![1]);
}

#[test]
fn pointer_above_the_tape_is_an_error() {
    let instrs = parse(">").unwrap();
    let mut state = ExecutionState { start_instr: None, cells: vec![0], cell_ptr: 0, outputs: vec![] };
    let outcome = execute_with_state(&instrs, &mut state, 10, None);
    assert_eq!(
        outcome,
        Outcome::RuntimeError(Warning {
            message: "This instruction moves the pointer after the last cell (0), to cell1.".to_owned(),
            position: Some(Position { start: 0, end: 0 }),
        })
    );
    assert_eq!(state.start_instr, Some(vec![0]));
}

#[test]
fn cell_off_the_tape_is_an_error() {
    let instrs = vec![AstNode::Increment { amount: 1, offset: -2, position: None }];
    let (state, warning) = execute(&instrs, MAX_STEPS);
    assert_eq!(
        warning,
        Some(Warning {
            message: "This instruction accesses cell -2 (the highest cell is 0)".to_owned(),
            position: None,
        })
    );
    assert_eq!(state.start_instr, Some(vec![0]));
    let set = vec![AstNode::SetCell { amount: 1, offset: 100000, position: None }];
    let (_, warning) = execute(&set, MAX_STEPS);
    assert_eq!(
        warning.unwrap().message,
        "This instruction accesses cell 100000 (the highest cell is 99999)"
    );
}

#[test]
fn multiply_move_adds_multiples() {
    let instrs = extract_multiply(parse("+[->+<]").unwrap());
    assert_eq!(
        instrs,
        vec![
            AstNode::Increment { amount: 1, offset: 0, position: Some(Position { start: 0, end: 0 }) },
            AstNode::MultiplyMove { changes: changes_of(&[(1, 1)]), position: Some(Position { start: 1, end: 6 }) },
        ]
    );
    let (state, warning) = execute(&instrs, MAX_STEPS);
    assert_eq!(state.cells, vec![0, 1]);
    assert_eq!(warning, None);
}

#[test]
fn multiply_move_multiplies_with_wrapping() {
    let instrs = vec![
        AstNode::SetCell { amount: 100, offset: 0, position: None },
        AstNode::MultiplyMove { changes: changes_of(&[(1, 3), (2, -1)]), position: None },
    ];
    let (state, _) = execute(&instrs, MAX_STEPS);
    assert_eq!(state.cells, vec![0, 44, -100]);
}

#[test]
fn multiply_move_on_zero_does_nothing() {
    let instrs = vec![AstNode::MultiplyMove { changes: changes_of(&[(-5, 3)]), position: None }];
    let mut state = ExecutionState::initial(&instrs);
    assert_eq!(execute_with_state(&instrs, &mut state, 5, None), Outcome::Completed(4));
}

#[test]
fn multiply_move_below_the_tape_is_an_error() {
    let instrs = vec![
        AstNode::Increment { amount: 2, offset: 0, position: None },
        AstNode::MultiplyMove { changes: changes_of(&[(-1, 1)]), position: Some(Position { start: 4, end: 9 }) },
    ];
    let (state, warning) = execute(&instrs, MAX_STEPS);
    assert_eq!(
        warning,
        Some(Warning {
            message: "This multiply loop tried to access cell -1 (offset -1 from current cell 0)".to_owned(),
            position: Some(Position { start: 4, end: 9 }),
        })
    );
    assert_eq!(state.start_instr, Some(vec![1]));
}

#[test]
fn multiply_move_above_the_tape_is_an_error_after_earlier_changes() {
    let instrs = vec![AstNode::MultiplyMove { changes: changes_of(&[(1, 2), (5, 1)]), position: None }];
    let mut state =
        ExecutionState { start_instr: None, cells: vec![3, 0], cell_ptr: 0, outputs: vec![] };
    let outcome = execute_with_state(&instrs, &mut state, 5, None);
    assert_eq!(
        outcome,
        Outcome::RuntimeError(Warning {
            message: "This multiply loop tried to access cell 5 (the highest cell is 1)".to_owned(),
            position: None,
        })
    );
    assert_eq!(state.cells, vec![3, 6]);
}

#[test]
fn a_stale_path_is_cleared() {
    let instrs = parse("+").unwrap();
    let mut state =
        ExecutionState { start_instr: Some(vec![4]), cells: vec![0], cell_ptr: 0, outputs: vec![] };
    assert_eq!(execute_with_state(&instrs, &mut state, 5, None), Outcome::Completed(4));
    assert_eq!(state.start_instr, None);
}

#[test]
fn max_steps_is_ten_million() {
    assert_eq!(MAX_STEPS, 10_000_000);
}
