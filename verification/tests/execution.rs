use brainfuck::interp::{brainfuck, Machine, RunError};
use brainfuck::lexer::trans;
use brainfuck::parser::parse;

const TAPE_LEN: usize = 1024;
const START: usize = 512;
const FUEL: u64 = 1_000_000;

fn fresh_machine(input: Vec<u8>) -> Machine {
    Machine {
        tape: vec![0u8; TAPE_LEN],
        ptr: START,
        input,
        in_pos: 0,
        output: Vec::new(),
    }
}

fn run(source: &str, input: Vec<u8>) -> (Result<(), RunError>, Machine) {
    let code = parse(&trans(source)).unwrap();
    let mut m = fresh_machine(input);
    let r = brainfuck(&code, &mut m, FUEL);
    (r, m)
}

#[test]
fn two_increments_output_two() {
    let (r, m) = run("++.", Vec::new());
    assert_eq!(r, Ok(()));
    assert_eq!(m.output, vec![2u8]);
    assert_eq!(m.tape[START], 2);
}

#[test]
fn read_then_write_echoes_input() {
    let (r, m) = run(",.", vec![65u8]);
    assert_eq!(r, Ok(()));
    assert_eq!(m.output, vec![65u8]);
}

#[test]
fn empty_loop_over_zero_cell_terminates_immediately() {
    let (r, m) = run("[]", Vec::new());
    assert_eq!(r, Ok(()));
    assert_eq!(m.tape[START], 0);
    assert!(m.output.is_empty());
}

#[test]
fn decrement_to_zero_loop_clears_the_cell() {
    let (r, m) = run("+++[-]", Vec::new());
    assert_eq!(r, Ok(()));
    assert_eq!(m.tape[START], 0);
}

#[test]
fn loop_moves_one_to_next_cell() {
    let (r, m) = run("+[->+<]", Vec::new());
    assert_eq!(r, Ok(()));
    assert_eq!(m.tape[START], 0);
    assert_eq!(m.tape[START + 1], 1);
}

#[test]
fn loop_moves_count_to_next_cell() {
    let (r, m) = run("+++[->+<]", Vec::new());
    assert_eq!(r, Ok(()));
    assert_eq!(m.tape[START], 0);
    assert_eq!(m.tape[START + 1], 3);
}

#[test]
fn nested_loops_multiply() {
    let (r, m) = run("++[>+++[>++<-]<-]", Vec::new());
    assert_eq!(r, Ok(()));
    assert_eq!(m.tape[START], 0);
    assert_eq!(m.tape[START + 1], 0);
    assert_eq!(m.tape[START + 2], 12);
}

#[test]
fn increment_wraps_255_to_zero() {
    let code = parse(&trans("+")).unwrap();
    let mut m = fresh_machine(Vec::new());
    m.tape[START] = 255;
    let r = brainfuck(&code, &mut m, FUEL);
    assert_eq!(r, Ok(()));
    assert_eq!(m.tape[START], 0);
}

#[test]
fn decrement_wraps_zero_to_255() {
    let (r, m) = run("-", Vec::new());
    assert_eq!(r, Ok(()));
    assert_eq!(m.tape[START], 255);
}

#[test]
fn pointer_moves_reach_neighbour_cells() {
    let (r, m) = run(">+>++<<-", Vec::new());
    assert_eq!(r, Ok(()));
    assert_eq!(m.tape[START], 255);
    assert_eq!(m.tape[START + 1], 1);
    assert_eq!(m.tape[START + 2], 2);
}

#[test]
fn moving_left_off_the_tape_is_reported() {
    let code = parse(&trans("<")).unwrap();
    let mut m = Machine {
        tape: vec![0u8; 4],
        ptr: 0,
        input: Vec::new(),
        in_pos: 0,
        output: Vec::new(),
    };
    let r = brainfuck(&code, &mut m, FUEL);
    assert_eq!(r, Err(RunError::TapeOutOfBounds));
}

#[test]
fn moving_right_off_the_tape_is_reported() {
    let code = parse(&trans(">")).unwrap();
    let mut m = Machine {
        tape: vec![0u8; 4],
        ptr: 3,
        input: Vec::new(),
        in_pos: 0,
        output: Vec::new(),
    };
    let r = brainfuck(&code, &mut m, FUEL);
    assert_eq!(r, Err(RunError::TapeOutOfBounds));
}

#[test]
fn reading_exhausted_input_is_reported() {
    let (r, _m) = run(",", Vec::new());
    assert_eq!(r, Err(RunError::InputExhausted));
}

#[test]
fn second_read_past_input_is_reported() {
    let (r, m) = run(",.,", vec![7u8]);
    assert_eq!(r, Err(RunError::InputExhausted));
    assert_eq!(m.output, vec![7u8]);
}

#[test]
fn spent_step_budget_is_reported() {
    let code = parse(&trans("+[]")).unwrap();
    let mut m = fresh_machine(Vec::new());
    let r = brainfuck(&code, &mut m, 3);
    assert_eq!(r, Err(RunError::OutOfFuel));
}

#[test]
fn partial_output_survives_a_fault() {
    let code = parse(&trans(".<")).unwrap();
    let mut m = Machine {
        tape: vec![9u8; 4],
        ptr: 0,
        input: Vec::new(),
        in_pos: 0,
        output: Vec::new(),
    };
    let r = brainfuck(&code, &mut m, FUEL);
    assert_eq!(r, Err(RunError::TapeOutOfBounds));
    assert_eq!(m.output, vec![9u8]);
}
