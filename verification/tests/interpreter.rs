use brainf::interpreter::program::Program;
use brainf::interpreter::tape::Tape;
use brainf::interpreter::{step, Action};

fn program(source: &str) -> Program {
    Program::new(source.chars().collect())
}

fn run(source: &str, input: &[&str]) -> Vec<u8> {
    let mut program = program(source);
    let mut tape = Tape::new();
    let mut lines = input.iter();
    let mut out = vec![];
    loop {
        match step(&mut program, &mut tape) {
            Action::Continue => {}
            Action::Print(byte) => out.push(byte),
            Action::Read => tape.read_value(lines.next().unwrap_or(&"")),
            Action::Finished => return out,
            Action::Fault => panic!("fault"),
        }
    }
}

#[test]
fn program_starts_at_the_first_command() {
    let p = program("+-");
    assert_eq!(p.pointer, 0);
    assert_eq!(p.len(), 2);
    assert_eq!(p.command(), '+');
    assert!(!p.finished());
    assert!(program("").finished());
}

#[test]
fn program_moves_forward_and_back() {
    let mut p = program("+-");
    p.forward();
    assert_eq!(p.command(), '-');
    p.forward();
    assert!(p.finished());
    p.back();
    p.back();
    assert_eq!(p.pointer, 0);
}

#[test]
fn fast_forward_finds_the_matching_close() {
    let mut p = program("[+[-]+]>");
    p.fast_forward(1);
    assert_eq!(p.pointer, 6);
    let mut q = program("[+[-]+]>");
    q.pointer = 2;
    q.fast_forward(1);
    assert_eq!(q.pointer, 4);
    q.fast_forward(0);
    assert_eq!(q.pointer, 4);
    assert_eq!(program("[[]").find_close(1), None);
    assert_eq!(program("[]").find_close(1), Some(1));
}

#[test]
fn rewind_finds_the_matching_open() {
    let mut p = program("[+[-]+]>");
    p.pointer = 6;
    p.rewind(1);
    assert_eq!(p.pointer, 0);
    let mut q = program("[+[-]+]>");
    q.pointer = 4;
    q.rewind(1);
    assert_eq!(q.pointer, 2);
    let mut r = program("]+]");
    r.pointer = 2;
    assert_eq!(r.find_open(1), None);
}

#[test]
fn tape_starts_zeroed() {
    let tape = Tape::new();
    assert_eq!(tape.content.len(), 30000);
    assert!(tape.content.iter().all(|&cell| cell == 0));
    assert_eq!(tape.value(), 0);
    assert!(tape.zero());
    assert!(!tape.not_zero());
}

#[test]
fn tape_cells_wrap() {
    let mut tape = Tape::new();
    tape.dec();
    assert_eq!(tape.value(), 255);
    tape.inc();
    assert_eq!(tape.value(), 0);
    tape.inc();
    assert!(tape.not_zero());
}

#[test]
fn tape_pointer_moves() {
    let mut tape = Tape::new();
    tape.next();
    tape.inc();
    tape.prev();
    assert_eq!(tape.value(), 0);
    tape.next();
    assert_eq!(tape.value(), 1);
}

#[test]
fn read_value_takes_the_first_byte() {
    let mut tape = Tape::new();
    tape.read_value("abc");
    assert_eq!(tape.value(), 97);
    tape.read_value("");
    assert_eq!(tape.value(), 97);
    tape.set_value(5);
    assert_eq!(tape.value(), 5);
}

#[test]
fn interprets_a_program() {
    assert_eq!(run("++++++++[>++++++++<-]>+.", &[]), vec![65]);
    assert_eq!(run(",.,.", &["hi", "!"]), vec![104, 33]);
    assert_eq!(run("+[-]", &[]), vec![]);
    assert_eq!(run("[.]", &[]), vec![]);
    assert_eq!(run("comment", &[]), vec![]);
}

#[test]
fn step_reports_faults() {
    let mut tape = Tape::new();
    let mut p = program("<");
    assert_eq!(step(&mut p, &mut tape), Action::Fault);
    assert_eq!(p.pointer, 0);
    let mut q = program("[");
    assert_eq!(step(&mut q, &mut tape), Action::Fault);
    let mut r = program("+]");
    assert_eq!(step(&mut r, &mut tape), Action::Continue);
    assert_eq!(step(&mut r, &mut tape), Action::Fault);
    assert_eq!(r.pointer, 1);
    let mut s = program("");
    assert_eq!(step(&mut s, &mut tape), Action::Finished);
}
