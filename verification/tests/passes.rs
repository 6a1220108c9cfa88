use std::collections::HashMap;
use brainf::bfir::{parse, AstNode, Position};
use brainf::bounds::highest_cell_index;
use brainf::diagnostics::Warning;
use brainf::execution::{execute, execute_with_state, ExecutionState, Outcome, MAX_STEPS};
use brainf::peephole::coalesce::{merge_pair, MergeRule};
use brainf::peephole::multiply::{cell_changes, is_multiply_loop_body};
use brainf::peephole::pure_code::remove_pure_code;
use brainf::peephole::queries::{next_cell_change, previous_cell_change};
use brainf::peephole::selection::{names, select_passes};
use brainf::peephole::sorting::sort_sequence_by_offset;
use brainf::peephole::{
    annotate_known_zero, annotate_known_zero_inner, combine_increments, combine_ptr_increments,
    combine_set_and_increments, extract_multiply, optimize, optimize_once, remove_dead_loops,
    remove_read_clobber, remove_redundant_sets, remove_redundant_sets_inner, sort_by_offset,
    zeroing_loops, MAX_OPT_ITERATIONS,
};

fn changes_of(pairs: &[(isize, i8)]) -> HashMap<isize, i8> {
    pairs.iter().cloned().collect()
}

fn at(start: usize, end: usize) -> Option<Position> {
    Some(Position { start, end })
}

fn inc(amount: i8, offset: isize) -> AstNode {
    AstNode::Increment { amount, offset, position: None }
}

fn set(amount: i8, offset: isize) -> AstNode {
    AstNode::SetCell { amount, offset, position: None }
}

fn ptr(amount: isize) -> AstNode {
    AstNode::PointerIncrement { amount, position: None }
}

fn lp(body: Vec<AstNode>) -> AstNode {
    AstNode::Loop { body, position: None }
}

fn read() -> AstNode {
    AstNode::Read { position: None }
}

fn write() -> AstNode {
    AstNode::Write { position: None }
}

const ALL_BUT_PURE: &str = "combine_inc,combine_ptr,known_zero,multiply,zeroing_loop,combine_set,dead_loop,redundant_set,read_clobber,offset_sort";

#[test]
fn combines_increments() {
    let out = combine_increments(parse("+++").unwrap());
    assert_eq!(out, vec![AstNode::Increment { amount: 3, offset: 0, position: at(0, 2) }]);
}

#[test]
fn combine_increments_wraps() {
    assert_eq!(combine_increments(vec![inc(127, 0), inc(1, 0)]), vec![inc(-128, 0)]);
}

#[test]
fn combine_increments_drops_zero() {
    assert_eq!(combine_increments(parse("+-").unwrap()), vec![]);
    assert_eq!(combine_increments(vec![inc(0, 3)]), vec![]);
}

#[test]
fn combine_increments_keeps_different_offsets() {
    assert_eq!(combine_increments(vec![inc(1, 0), inc(1, 1)]), vec![inc(1, 0), inc(1, 1)]);
}

#[test]
fn combine_increments_descends_into_loops() {
    assert_eq!(combine_increments(vec![lp(vec![inc(1, 0), inc(2, 0)])]), vec![lp(vec![inc(3, 0)])]);
    assert_eq!(
        combine_increments(vec![lp(vec![lp(vec![inc(1, 0), inc(-1, 0)])])]),
        vec![lp(vec![lp(vec![])])]
    );
}

#[test]
fn combines_pointer_increments() {
    let out = combine_ptr_increments(parse(">>").unwrap());
    assert_eq!(out, vec![AstNode::PointerIncrement { amount: 2, position: at(0, 1) }]);
    assert_eq!(combine_ptr_increments(parse("><").unwrap()), vec![]);
    assert_eq!(combine_ptr_increments(vec![lp(vec![ptr(1), ptr(2)])]), vec![lp(vec![ptr(3)])]);
}

#[test]
fn pointer_increments_that_overflow_stay_apart() {
    let far = vec![ptr(isize::MAX), ptr(1)];
    assert_eq!(combine_ptr_increments(far.clone()), far);
}

#[test]
fn merge_pair_hands_back_what_does_not_merge() {
    assert_eq!(merge_pair(MergeRule::Increments, inc(1, 0), read()), Err((inc(1, 0), read())));
    assert_eq!(merge_pair(MergeRule::Increments, inc(1, 0), inc(2, 0)), Ok(inc(3, 0)));
    assert_eq!(merge_pair(MergeRule::SetThenSet, inc(1, 0), inc(2, 0)), Err((inc(1, 0), inc(2, 0))));
}

#[test]
fn combines_sets_and_increments() {
    assert_eq!(combine_set_and_increments(vec![inc(1, 0), set(5, 0)]), vec![set(5, 0)]);
    assert_eq!(combine_set_and_increments(vec![set(5, 0), inc(-2, 0)]), vec![set(3, 0)]);
    assert_eq!(combine_set_and_increments(vec![set(5, 0), set(7, 0)]), vec![set(7, 0)]);
    assert_eq!(combine_set_and_increments(vec![set(127, 0), inc(1, 0)]), vec![set(-128, 0)]);
    assert_eq!(
        combine_set_and_increments(vec![set(5, 0), inc(-2, 1)]),
        vec![set(5, 0), inc(-2, 1)]
    );
    assert_eq!(
        combine_set_and_increments(vec![lp(vec![inc(1, 2), set(5, 2), inc(1, 2)])]),
        vec![lp(vec![set(6, 2)])]
    );
}

#[test]
fn combine_set_merges_positions() {
    let out = combine_set_and_increments(vec![
        AstNode::Increment { amount: 1, offset: 0, position: at(0, 0) },
        AstNode::SetCell { amount: 2, offset: 0, position: at(1, 3) },
    ]);
    assert_eq!(out, vec![AstNode::SetCell { amount: 2, offset: 0, position: at(0, 3) }]);
}

#[test]
fn zeroes_simple_loops() {
    let out = zeroing_loops(parse("[-]").unwrap());
    assert_eq!(out, vec![AstNode::SetCell { amount: 0, offset: 0, position: at(0, 2) }]);
    assert_eq!(zeroing_loops(vec![lp(vec![inc(-1, 1)])]), vec![lp(vec![inc(-1, 1)])]);
    assert_eq!(zeroing_loops(vec![lp(vec![inc(1, 0)])]), vec![lp(vec![inc(1, 0)])]);
    assert_eq!(zeroing_loops(vec![lp(vec![lp(vec![inc(-1, 0)])])]), vec![lp(vec![set(0, 0)])]);
}

#[test]
fn zeroing_loops_then_combine_set() {
    let out = combine_set_and_increments(zeroing_loops(parse("[-]>[-]+").unwrap()));
    assert_eq!(
        out,
        vec![
            AstNode::SetCell { amount: 0, offset: 0, position: at(0, 2) },
            AstNode::PointerIncrement { amount: 1, position: at(3, 3) },
            AstNode::SetCell { amount: 1, offset: 0, position: at(4, 7) },
        ]
    );
}

#[test]
fn removes_dead_loops() {
    assert_eq!(remove_dead_loops(vec![set(0, 0), lp(vec![])]), vec![set(0, 0)]);
    assert_eq!(
        remove_dead_loops(vec![set(0, 0), inc(1, 1), write(), lp(vec![read()])]),
        vec![set(0, 0), inc(1, 1), write()]
    );
    assert_eq!(
        remove_dead_loops(vec![set(0, 0), ptr(1), ptr(-1), lp(vec![])]),
        vec![set(0, 0), ptr(1), ptr(-1)]
    );
}

#[test]
fn keeps_loops_that_may_run() {
    let live = vec![set(1, 0), lp(vec![])];
    assert_eq!(remove_dead_loops(live.clone()), live);
    let moved = vec![set(0, 0), ptr(1), lp(vec![])];
    assert_eq!(remove_dead_loops(moved.clone()), moved);
    let after_read = vec![set(0, 0), read(), lp(vec![])];
    assert_eq!(remove_dead_loops(after_read.clone()), after_read);
    let offset = vec![set(0, 1), ptr(1), lp(vec![])];
    assert_eq!(remove_dead_loops(offset.clone()), offset);
    assert_eq!(
        remove_dead_loops(vec![lp(vec![set(0, 0), lp(vec![])])]),
        vec![lp(vec![set(0, 0)])]
    );
}

#[test]
fn removes_redundant_sets() {
    assert_eq!(remove_redundant_sets(vec![lp(vec![]), set(0, 0)]), vec![lp(vec![])]);
    assert_eq!(remove_redundant_sets(vec![set(0, 0), inc(1, 0)]), vec![inc(1, 0)]);
    assert_eq!(
        remove_redundant_sets(vec![
            read(),
            AstNode::MultiplyMove { changes: changes_of(&[(1, 1)]), position: None },
            write(),
            set(0, 0)
        ]),
        vec![read(), AstNode::MultiplyMove { changes: changes_of(&[(1, 1)]), position: None }, write()]
    );
}

#[test]
fn keeps_sets_that_matter() {
    let kept = vec![read(), lp(vec![]), set(1, 0)];
    assert_eq!(remove_redundant_sets(kept.clone()), kept);
    let moved = vec![read(), lp(vec![]), ptr(1), set(0, 0)];
    assert_eq!(remove_redundant_sets(moved.clone()), moved);
    let inner = vec![lp(vec![set(0, 0)])];
    assert_eq!(remove_redundant_sets_inner(inner.clone()), inner);
    assert_eq!(remove_redundant_sets_inner(vec![set(0, 0)]), vec![set(0, 0)]);
}

#[test]
fn removes_read_clobber() {
    assert_eq!(remove_read_clobber(vec![inc(1, 0), read()]), vec![read()]);
    assert_eq!(remove_read_clobber(vec![set(1, 0), read()]), vec![read()]);
    assert_eq!(remove_read_clobber(vec![inc(1, 1), ptr(1), read()]), vec![ptr(1), read()]);
    assert_eq!(
        remove_read_clobber(vec![lp(vec![inc(1, 0), inc(1, 1), read()])]),
        vec![lp(vec![inc(1, 1), read()])]
    );
}

#[test]
fn keeps_what_a_read_does_not_clobber() {
    let after = parse(",+.").unwrap();
    assert_eq!(remove_read_clobber(after.clone()), after);
    let written = vec![inc(1, 0), write(), read()];
    assert_eq!(remove_read_clobber(written.clone()), written);
    let other = vec![inc(1, 1), read()];
    assert_eq!(remove_read_clobber(other.clone()), other);
    let moves = vec![AstNode::MultiplyMove { changes: changes_of(&[(1, 1)]), position: None }, read()];
    assert_eq!(remove_read_clobber(moves.clone()), moves);
}

#[test]
fn annotates_known_zero() {
    let out = annotate_known_zero(parse("+[]").unwrap());
    assert_eq!(
        out,
        vec![
            AstNode::SetCell { amount: 0, offset: 0, position: at(0, 0) },
            AstNode::Increment { amount: 1, offset: 0, position: at(0, 0) },
            AstNode::Loop { body: vec![], position: at(1, 2) },
            AstNode::SetCell { amount: 0, offset: 0, position: at(2, 2) },
        ]
    );
    assert_eq!(annotate_known_zero(vec![]), vec![set(0, 0)]);
}

#[test]
fn annotate_known_zero_recurses_without_a_leading_set() {
    assert_eq!(
        annotate_known_zero_inner(vec![lp(vec![lp(vec![])])]),
        vec![lp(vec![lp(vec![]), set(0, 0)]), set(0, 0)]
    );
}

#[test]
fn annotate_known_zero_twice_changes_nothing() {
    for source in ["", "+", "[]", "+[-]>[[-]+]", "[][]", "[[][]]."] {
        let once = annotate_known_zero(parse(source).unwrap());
        assert_eq!(annotate_known_zero(once.clone()), once);
    }
    let unplaced = annotate_known_zero(vec![set(0, 0), lp(vec![]), set(0, 0)]);
    assert_eq!(unplaced, vec![set(0, 0), lp(vec![]), set(0, 0)]);
}

#[test]
fn removes_pure_code() {
    let (out, warning) = remove_pure_code(parse("+++").unwrap());
    assert_eq!(out, vec![]);
    assert_eq!(
        warning,
        Some(Warning { message: "These instructions have no effect.".to_owned(), position: at(0, 2) })
    );
}

#[test]
fn keeps_code_up_to_the_last_effect() {
    let (out, warning) = remove_pure_code(parse("+.+>").unwrap());
    assert_eq!(out, parse("+.").unwrap());
    assert_eq!(warning.unwrap().position, at(2, 3));
    let (out, warning) = remove_pure_code(parse("+[-]").unwrap());
    assert_eq!(out, parse("+[-]").unwrap());
    assert_eq!(warning, None);
    let (out, warning) = remove_pure_code(vec![]);
    assert_eq!(out, vec![]);
    assert_eq!(warning, None);
    let (out, warning) = remove_pure_code(vec![read(), set(1, 0)]);
    assert_eq!(out, vec![read()]);
    assert_eq!(
        warning,
        Some(Warning { message: "These instructions have no effect.".to_owned(), position: None })
    );
}

#[test]
fn pure_code_inside_loops_stays() {
    let (out, warning) = remove_pure_code(vec![lp(vec![inc(1, 0)])]);
    assert_eq!(out, vec![lp(vec![inc(1, 0)])]);
    assert_eq!(warning, None);
}

#[test]
fn sorts_by_offset() {
    assert_eq!(
        sort_by_offset(vec![inc(1, 0), ptr(1), inc(2, 0), ptr(-1), inc(3, 0)]),
        vec![inc(1, 0), inc(3, 0), inc(2, 1)]
    );
    assert_eq!(sort_by_offset(vec![ptr(1), set(1, 0)]), vec![set(1, 1), ptr(1)]);
    assert_eq!(
        sort_by_offset(vec![inc(1, 2), inc(1, -1), write(), inc(1, 1), inc(1, 0)]),
        vec![inc(1, -1), inc(1, 2), write(), inc(1, 0), inc(1, 1)]
    );
    assert_eq!(
        sort_by_offset(vec![lp(vec![ptr(2), inc(1, -2), ptr(-1)])]),
        vec![lp(vec![inc(1, 0), ptr(1)])]
    );
}

#[test]
fn sort_keeps_the_position_of_the_last_move() {
    let out = sort_by_offset(parse(">>+").unwrap());
    assert_eq!(
        out,
        vec![
            AstNode::Increment { amount: 1, offset: 2, position: at(2, 2) },
            AstNode::PointerIncrement { amount: 2, position: at(1, 1) },
        ]
    );
}

#[test]
fn sort_leaves_a_stretch_whose_offsets_overflow() {
    let far = vec![ptr(isize::MAX), inc(1, 1)];
    assert_eq!(sort_sequence_by_offset(&far), far);
    let sum = vec![ptr(isize::MIN), ptr(-1), inc(1, 0)];
    assert_eq!(sort_by_offset(sum.clone()), sum);
}

#[test]
fn sort_is_stable_within_an_offset() {
    assert_eq!(
        sort_sequence_by_offset(&vec![set(1, 1), inc(2, 0), inc(3, 1), set(4, 0)]),
        vec![inc(2, 0), set(4, 0), set(1, 1), inc(3, 1)]
    );
}

#[test]
fn extracts_multiply_loops() {
    let out = extract_multiply(parse("[->+++<]").unwrap());
    assert_eq!(out, vec![AstNode::MultiplyMove { changes: changes_of(&[(1, 3)]), position: at(0, 7) }]);
    let out = extract_multiply(parse("[>>++<<<-->-]").unwrap());
    assert_eq!(
        out,
        vec![AstNode::MultiplyMove { changes: changes_of(&[(-1, -2), (2, 2)]), position: at(0, 12) }]
    );
    assert_eq!(
        extract_multiply(vec![lp(vec![lp(vec![inc(-1, 0), inc(1, 1)])])]),
        vec![lp(vec![AstNode::MultiplyMove { changes: changes_of(&[(1, 1)]), position: None }])]
    );
}

#[test]
fn keeps_loops_that_do_not_multiply() {
    for source in ["[-]", "[->+]", "[+>+<]", "[->+<.]", "[->+<-]", "[>+<]"] {
        let parsed = parse(source).unwrap();
        assert_eq!(extract_multiply(parsed.clone()), parsed);
    }
}

#[test]
fn multiply_body_checks() {
    assert!(is_multiply_loop_body(&vec![inc(-1, 0), inc(2, 1)]));
    assert!(is_multiply_loop_body(&vec![inc(2, 1), inc(-2, 1), inc(-1, 0)]));
    assert!(!is_multiply_loop_body(&vec![inc(-1, 0)]));
    assert!(!is_multiply_loop_body(&vec![inc(-1, 0), inc(2, 1), ptr(1)]));
    assert!(!is_multiply_loop_body(&vec![inc(-1, 0), inc(2, 1), read()]));
    assert!(!is_multiply_loop_body(&vec![ptr(isize::MAX), inc(1, 1), ptr(-isize::MAX), inc(-1, 0)]));
}

#[test]
fn cell_changes_sum_by_cell() {
    assert_eq!(
        cell_changes(&vec![inc(1, 0), ptr(2), inc(3, -1), inc(4, 0), ptr(-3), inc(-1, 1)]),
        Some((changes_of(&[(0, 0), (1, 3), (2, 4)]), -1))
    );
    assert_eq!(
        cell_changes(&vec![inc(100, 0), inc(100, 0)]),
        Some((changes_of(&[(0, -56)]), 0))
    );
    assert_eq!(cell_changes(&vec![]), Some((changes_of(&[]), 0)));
    assert_eq!(cell_changes(&vec![ptr(isize::MAX), ptr(1)]), None);
}

#[test]
fn finds_previous_cell_change() {
    let instrs = vec![inc(1, 0), inc(1, 1), ptr(1), write(), inc(1, 0)];
    assert_eq!(previous_cell_change(&instrs, 4), Some(1));
    assert_eq!(previous_cell_change(&instrs, 2), Some(0));
    assert_eq!(previous_cell_change(&instrs, 0), None);
    assert_eq!(previous_cell_change(&vec![inc(1, 0), read(), inc(1, 0)], 2), None);
    assert_eq!(previous_cell_change(&vec![inc(1, 0), lp(vec![]), inc(1, 0)], 2), None);
    let moves = vec![AstNode::MultiplyMove { changes: changes_of(&[(2, 1)]), position: None }, ptr(2), read()];
    assert_eq!(previous_cell_change(&moves, 2), Some(0));
    let beside = vec![AstNode::MultiplyMove { changes: changes_of(&[(2, 1)]), position: None }, ptr(1), read()];
    assert_eq!(previous_cell_change(&beside, 2), None);
}

#[test]
fn finds_next_cell_change() {
    let instrs = vec![lp(vec![]), ptr(1), inc(1, 0), write(), set(0, -1)];
    assert_eq!(next_cell_change(&instrs, 0), Some(4));
    assert_eq!(next_cell_change(&instrs, 1), Some(2));
    assert_eq!(next_cell_change(&instrs, 4), None);
    assert_eq!(next_cell_change(&vec![inc(1, 0), read(), inc(1, 0)], 0), None);
    let moves = vec![inc(1, 0), AstNode::MultiplyMove { changes: changes_of(&[(2, 1)]), position: None }];
    assert_eq!(next_cell_change(&moves, 0), Some(1));
}

#[test]
fn pass_specification_selects_passes() {
    let only = select_passes(&Some("combine_inc,offset_sort".to_owned()));
    assert!(only.combine_inc && only.offset_sort);
    assert!(!only.combine_ptr && !only.known_zero && !only.multiply && !only.zeroing_loop);
    assert!(!only.combine_set && !only.dead_loop && !only.redundant_set);
    assert!(!only.read_clobber && !only.pure_removal);
    let all = select_passes(&None);
    assert!(all.combine_inc && all.combine_ptr && all.known_zero && all.multiply);
    assert!(all.zeroing_loop && all.combine_set && all.dead_loop && all.redundant_set);
    assert!(all.read_clobber && all.pure_removal && all.offset_sort);
    let none = select_passes(&Some("".to_owned()));
    assert!(!none.combine_inc && !none.pure_removal);
}

#[test]
fn unknown_pass_names_are_skipped() {
    let odd = select_passes(&Some("bogus,multiply,combine_in,xcombine_inc, dead_loop".to_owned()));
    assert!(odd.multiply);
    assert!(!odd.combine_inc && !odd.dead_loop);
    assert!(names(b"a,,b", b""));
    assert!(names(b"", b""));
    assert!(!names(b"ab", b"a"));
    assert!(names(b"x,ab", b"ab"));
}

#[test]
fn optimize_once_runs_only_the_named_passes() {
    let (out, warning) = optimize_once(parse("++>>").unwrap(), &Some("combine_ptr".to_owned()));
    assert_eq!(
        out,
        vec![
            AstNode::Increment { amount: 1, offset: 0, position: at(0, 0) },
            AstNode::Increment { amount: 1, offset: 0, position: at(1, 1) },
            AstNode::PointerIncrement { amount: 2, position: at(2, 3) },
        ]
    );
    assert_eq!(warning, None);
}

#[test]
fn optimizes_to_a_single_set() {
    let (out, warnings, converged) =
        optimize(parse("+++[-]++").unwrap(), &Some(ALL_BUT_PURE.to_owned()));
    assert_eq!(out.len(), 1);
    assert!(matches!(out[0], AstNode::SetCell { amount: 2, offset: 0, .. }));
    assert_eq!(warnings, vec![]);
    assert!(converged);
}

#[test]
fn optimizing_code_without_effect_leaves_nothing() {
    let (out, warnings, converged) = optimize(parse("+++").unwrap(), &None);
    assert_eq!(out, vec![]);
    assert_eq!(
        warnings,
        vec![Warning { message: "These instructions have no effect.".to_owned(), position: at(0, 2) }]
    );
    assert!(converged);
}

#[test]
fn optimize_leaves_read_increment_write() {
    let (out, warnings, converged) = optimize(parse(",+.").unwrap(), &None);
    assert_eq!(out, parse(",+.").unwrap());
    assert_eq!(warnings, vec![]);
    assert!(converged);
}

#[test]
fn optimize_reaches_a_fixed_point() {
    for source in ["+[->+<]>.", "[-]>[-]+.", "++[>+++[>+<-]<-]>>.", ",[.,]", "+[[-]+.-]"] {
        let (once, _, converged) = optimize(parse(source).unwrap(), &None);
        assert!(converged);
        let (twice, warnings, again) = optimize(once.clone(), &None);
        assert_eq!(twice, once);
        assert_eq!(warnings, vec![]);
        assert!(again);
    }
}

#[test]
fn optimize_without_passes_changes_nothing() {
    let parsed = parse("+-[-]").unwrap();
    let (out, warnings, converged) = optimize(parsed.clone(), &Some("none".to_owned()));
    assert_eq!(out, parsed);
    assert_eq!(warnings, vec![]);
    assert!(converged);
}

#[test]
fn iteration_limit() {
    assert_eq!(MAX_OPT_ITERATIONS, 40);
}

#[test]
fn optimize_gives_up_after_the_iteration_limit() {
    let mut source = String::from("[-]");
    for _ in 0..50 {
        source.push_str("[.]");
    }
    let passes = Some("zeroing_loop,dead_loop".to_owned());
    let (out, warnings, converged) = optimize(parse(&source).unwrap(), &passes);
    assert!(!converged);
    assert_eq!(out.len(), 1 + 50 - 41);
    assert_eq!(warnings, vec![]);
    let (again, _, _) = optimize(out.clone(), &passes);
    assert_ne!(again, out);
    assert_eq!(again, vec![AstNode::SetCell { amount: 0, offset: 0, position: at(0, 2) }]);
}

#[test]
fn optimized_programs_write_the_same() {
    for source in [
        "++++++++[>++++++++<-]>+.",
        ",[->+>+<<]>>[-<<+>>]<.<.",
        "+++[->++<]>[-<+>]<.[-].",
        ",>,<[->[->+>+<<]>>[-<<+>>]<<<]>>>.",
        "+[-],.>++<[-]>.",
    ] {
        let parsed = parse(source).unwrap();
        let (optimized, _, _) = optimize(parsed.clone(), &None);
        let run = |instrs: &Vec<AstNode>| {
            let mut state =
                ExecutionState { start_instr: None, cells: vec![0; 64], cell_ptr: 0, outputs: vec![] };
            let outcome = execute_with_state(instrs, &mut state, 1_000_000, Some(5));
            assert!(matches!(outcome, Outcome::Completed(_)));
            state.outputs
        };
        assert_eq!(run(&optimized), run(&parsed));
    }
}

#[test]
fn sorting_a_stretch_keeps_what_it_does() {
    let stretch = vec![inc(1, 2), ptr(1), set(5, 0), inc(2, -1), ptr(2), inc(3, -2), ptr(-1)];
    let sorted = sort_sequence_by_offset(&stretch);
    assert_eq!(sorted, vec![inc(2, 0), set(5, 1), inc(3, 1), inc(1, 2), ptr(2)]);
    let run = |instrs: &Vec<AstNode>| {
        let mut state =
            ExecutionState { start_instr: None, cells: vec![9; 8], cell_ptr: 2, outputs: vec![] };
        execute_with_state(instrs, &mut state, 100, None);
        (state.cells, state.cell_ptr)
    };
    assert_eq!(run(&sorted), run(&stretch));
}

#[test]
fn bound_covers_every_cell_touched() {
    for source in ["+>++>+++", ">>[-]<<+", "+[->>+<<]>>.", ">>>[<]"] {
        let parsed = parse(source).unwrap();
        let (state, warning) = execute(&parsed, MAX_STEPS);
        assert_eq!(warning, None);
        assert_eq!(state.cells.len(), highest_cell_index(&parsed) + 1);
        assert!((state.cell_ptr as usize) < state.cells.len());
    }
}

fn unplaced(instrs: &Vec<AstNode>) -> Vec<AstNode> {
    let mut out = vec![];
    for instr in instrs {
        out.push(match instr {
            AstNode::Increment { amount, offset, .. } => inc(*amount, *offset),
            AstNode::SetCell { amount, offset, .. } => set(*amount, *offset),
            AstNode::PointerIncrement { amount, .. } => ptr(*amount),
            AstNode::MultiplyMove { changes, .. } => {
                AstNode::MultiplyMove { changes: changes.clone(), position: None }
            }
            AstNode::Read { .. } => read(),
            AstNode::Write { .. } => write(),
            AstNode::Loop { body, .. } => lp(unplaced(body)),
        });
    }
    out
}

#[test]
fn parsing_the_commands_alone_gives_the_same_program() {
    let source = "read: , then [ loop - > + < ] and .";
    let commands: String = source.chars().filter(|c| "+-<>.,[]".contains(*c)).collect();
    assert_eq!(commands, ",[->+<].");
    let first = parse(source).unwrap();
    let second = parse(&commands).unwrap();
    assert_ne!(first, second);
    assert_eq!(unplaced(&first), unplaced(&second));
    assert_eq!(
        unplaced(&second),
        vec![read(), lp(vec![inc(-1, 0), ptr(1), inc(1, 0), ptr(-1)]), write()]
    );
}

#[test]
fn optimizing_two_cleared_cells() {
    let (out, warnings, converged) =
        optimize(parse("[-]>[-]+").unwrap(), &Some(ALL_BUT_PURE.to_owned()));
    assert_eq!(
        out,
        vec![
            AstNode::SetCell { amount: 1, offset: 1, position: at(4, 7) },
            AstNode::PointerIncrement { amount: 1, position: at(3, 3) },
        ]
    );
    assert_eq!(warnings, vec![]);
    assert!(converged);
}

#[test]
fn optimized_set_runs_ahead_of_time() {
    let (out, _, _) = optimize(parse("+++[-]++").unwrap(), &Some(ALL_BUT_PURE.to_owned()));
    let (state, warning) = execute(&out, MAX_STEPS);
    assert_eq!(state.cells, vec![2]);
    assert_eq!(state.start_instr, None);
    assert_eq!(warning, None);
}

#[test]
fn every_short_program_reaches_a_fixed_point() {
    let commands = ['+', '-', '<', '>', '.', ',', '[', ']'];
    let mut sources = vec![String::new()];
    let mut from = 0;
    for _ in 0..5 {
        let upto = sources.len();
        for i in from..upto {
            for c in commands {
                let mut longer = sources[i].clone();
                longer.push(c);
                sources.push(longer);
            }
        }
        from = upto;
    }
    let mut parsed_count = 0;
    for source in &sources {
        if let Ok(program) = parse(source) {
            parsed_count += 1;
            let (once, _, converged) = optimize(program, &None);
            assert!(converged, "{}", source);
            let (twice, warnings, again) = optimize(once.clone(), &None);
            assert!(again, "{}", source);
            assert_eq!(twice, once, "{}", source);
            assert_eq!(warnings, vec![], "{}", source);
        }
    }
    assert!(parsed_count > 7000);
}
