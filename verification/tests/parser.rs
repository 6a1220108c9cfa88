use std::collections::HashMap;
use brainf::bfir::{get_position, parse, AstNode, Combine, Position};

fn changes_of(pairs: &[(isize, i8)]) -> HashMap<isize, i8> {
    pairs.iter().cloned().collect()
}

fn at(start: usize, end: usize) -> Option<Position> {
    Some(Position { start, end })
}

#[test]
fn parses_each_command() {
    let parsed = parse("+-><.,").unwrap();
    assert_eq!(
        parsed,
        vec![
            AstNode::Increment { amount: 1, offset: 0, position: at(0, 0) },
            AstNode::Increment { amount: -1, offset: 0, position: at(1, 1) },
            AstNode::PointerIncrement { amount: 1, position: at(2, 2) },
            AstNode::PointerIncrement { amount: -1, position: at(3, 3) },
            AstNode::Write { position: at(4, 4) },
            AstNode::Read { position: at(5, 5) },
        ]
    );
}

#[test]
fn parses_empty_source() {
    assert_eq!(parse("").unwrap(), vec![]);
}

#[test]
fn ignores_comments() {
    let parsed = parse("a+b").unwrap();
    assert_eq!(parsed, vec![AstNode::Increment { amount: 1, offset: 0, position: at(1, 1) }]);
}

#[test]
fn positions_count_bytes() {
    let parsed = parse("é+").unwrap();
    assert_eq!(parsed, vec![AstNode::Increment { amount: 1, offset: 0, position: at(2, 2) }]);
}

#[test]
fn parses_nested_loops() {
    let parsed = parse("[+[-]]").unwrap();
    assert_eq!(
        parsed,
        vec![AstNode::Loop {
            body: vec![
                AstNode::Increment { amount: 1, offset: 0, position: at(1, 1) },
                AstNode::Loop {
                    body: vec![AstNode::Increment { amount: -1, offset: 0, position: at(3, 3) }],
                    position: at(2, 4),
                },
            ],
            position: at(0, 5),
        }]
    );
}

#[test]
fn parses_empty_loop() {
    assert_eq!(parse("[]").unwrap(), vec![AstNode::Loop { body: vec![], position: at(0, 1) }]);
}

#[test]
fn rejects_unclosed_loop() {
    let error = parse("[").unwrap_err();
    assert_eq!(error.message, "This [ has no matching ]");
    assert_eq!(error.position, Position { start: 0, end: 0 });
}

#[test]
fn rejects_unclosed_loop_at_innermost_open_bracket() {
    let error = parse("+[[-]").unwrap_err();
    assert_eq!(error.message, "This [ has no matching ]");
    assert_eq!(error.position, Position { start: 1, end: 1 });
    let error = parse("[+[").unwrap_err();
    assert_eq!(error.position, Position { start: 2, end: 2 });
}

#[test]
fn rejects_stray_close() {
    let error = parse("+]").unwrap_err();
    assert_eq!(error.message, "This ] has no matching [");
    assert_eq!(error.position, Position { start: 1, end: 1 });
}

#[test]
fn reports_first_stray_close_before_unclosed_loop() {
    let error = parse("[]][").unwrap_err();
    assert_eq!(error.message, "This ] has no matching [");
    assert_eq!(error.position, Position { start: 2, end: 2 });
}

#[test]
fn gets_position_of_every_kind() {
    assert_eq!(get_position(&AstNode::Read { position: at(1, 2) }), at(1, 2));
    assert_eq!(get_position(&AstNode::Write { position: None }), None);
    assert_eq!(get_position(&AstNode::SetCell { amount: 0, offset: 0, position: at(3, 3) }), at(3, 3));
    assert_eq!(get_position(&AstNode::MultiplyMove { changes: changes_of(&[]), position: at(4, 9) }), at(4, 9));
    assert_eq!(get_position(&AstNode::Loop { body: vec![], position: at(0, 1) }), at(0, 1));
}

#[test]
fn combines_adjacent_positions() {
    assert_eq!(at(0, 0).combine(at(1, 1)), at(0, 1));
    assert_eq!(at(1, 1).combine(at(0, 0)), at(0, 1));
    assert_eq!(at(0, 5).combine(at(3, 4)), at(0, 5));
    assert_eq!(at(0, 10).combine(at(2, 3)), at(0, 10));
    assert_eq!(at(2, 3).combine(at(0, 10)), at(0, 10));
    assert_eq!(at(0, 3).combine(at(2, 9)), at(0, 9));
}

#[test]
fn combining_across_a_gap_gives_the_second() {
    assert_eq!(at(0, 0).combine(at(2, 2)), at(2, 2));
    assert_eq!(at(5, 5).combine(at(0, 0)), at(0, 0));
}

#[test]
fn combining_with_nothing_gives_nothing() {
    assert_eq!(at(0, 0).combine(None), None);
    assert_eq!(None.combine(at(0, 0)), None);
    let nothing: Option<Position> = None;
    assert_eq!(nothing.combine(None), None);
}

#[test]
fn combining_is_associative_on_adjacent_ranges() {
    let (a, b, c) = (at(0, 1), at(2, 4), at(5, 5));
    assert_eq!(a.combine(b).combine(c), a.combine(b.combine(c)));
    assert_eq!(a.combine(b).combine(c), at(0, 5));
}

#[test]
fn combine_at_the_end_of_the_range() {
    assert_eq!(at(0, usize::MAX).combine(at(3, 7)), at(0, usize::MAX));
    assert_eq!(at(0, 2).combine(at(3, usize::MAX)), at(0, usize::MAX));
}

#[test]
fn clone_keeps_the_tree() {
    let parsed = parse("+[>[-]<]").unwrap();
    assert_eq!(parsed.clone(), parsed);
}

#[test]
fn dumps_instructions() {
    let parsed = parse("+[-]").unwrap();
    assert_eq!(
        parsed[0].to_string(),
        "Increment { amount: 1, offset: 0, position: Some(Position { start: 0, end: 0 }) }"
    );
    assert_eq!(
        parsed[1].to_string(),
        "Loop position: Some(Position { start: 1, end: 3 })\n Increment { amount: -1, offset: 0, position: Some(Position { start: 2, end: 2 }) }"
    );
}

#[test]
fn dumps_nested_loops_one_space_deeper() {
    let parsed = parse("[[.]]").unwrap();
    assert_eq!(
        parsed[0].to_string(),
        "Loop position: Some(Position { start: 0, end: 4 })\n Loop position: Some(Position { start: 1, end: 3 })\n  Write { position: Some(Position { start: 2, end: 2 }) }"
    );
}

#[test]
fn dumps_sets_and_multiply_moves() {
    let set = AstNode::SetCell { amount: -3, offset: 2, position: None };
    assert_eq!(set.to_string(), "Set { amount: -3, offset: 2, position: None }");
    let moves = AstNode::MultiplyMove { changes: changes_of(&[(-1, 2), (3, -4)]), position: None };
    assert_eq!(moves.to_string(), "MultiplyMove { changes: {-1: 2, 3: -4}, position: None }");
    let ptr = AstNode::PointerIncrement { amount: -128, position: None };
    assert_eq!(ptr.to_string(), "PointerIncrement { amount: -128, position: None }");
    assert_eq!(AstNode::Read { position: None }.to_string(), "Read { position: None }");
}
