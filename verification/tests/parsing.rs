use brainfuck::lexer::trans;
use brainfuck::parser::{parse, Instruction, ParseError};

#[test]
fn parse_flat_program() {
    let code = parse(&trans("+-><.,")).unwrap();
    assert_eq!(
        code,
        vec![
            Instruction::Increment,
            Instruction::Decrement,
            Instruction::IncrementPtr,
            Instruction::DecrementPtr,
            Instruction::Write,
            Instruction::Read,
        ]
    );
}

#[test]
fn parse_collapses_matched_brackets() {
    let code = parse(&trans("+[->+<]")).unwrap();
    assert_eq!(
        code,
        vec![
            Instruction::Increment,
            Instruction::Loop(vec![
                Instruction::Decrement,
                Instruction::IncrementPtr,
                Instruction::Increment,
                Instruction::DecrementPtr,
            ]),
        ]
    );
}

#[test]
fn parse_nested_loops_nest_as_deep_as_brackets() {
    let code = parse(&trans("[[]]")).unwrap();
    assert_eq!(
        code,
        vec![Instruction::Loop(vec![Instruction::Loop(vec![])])]
    );
}

#[test]
fn parse_sibling_loops() {
    let code = parse(&trans("[][]")).unwrap();
    assert_eq!(
        code,
        vec![Instruction::Loop(vec![]), Instruction::Loop(vec![])]
    );
}

#[test]
fn parse_empty_program() {
    let code = parse(&trans("")).unwrap();
    assert!(code.is_empty());
}

#[test]
fn parse_unmatched_end_reports_its_position() {
    let r = parse(&trans("]"));
    assert_eq!(r, Err(ParseError::UnmatchedLoopEnd(0)));
    let r = parse(&trans("+-]"));
    assert_eq!(r, Err(ParseError::UnmatchedLoopEnd(2)));
    let r = parse(&trans("[]]"));
    assert_eq!(r, Err(ParseError::UnmatchedLoopEnd(2)));
}

#[test]
fn parse_unmatched_start_reports_position_zero() {
    let r = parse(&trans("[+"));
    assert_eq!(r, Err(ParseError::UnmatchedLoopStart(0)));
}

#[test]
fn parse_unmatched_start_reports_outermost_position() {
    let r = parse(&trans("[][[]"));
    assert_eq!(r, Err(ParseError::UnmatchedLoopStart(2)));
    let r = parse(&trans("++["));
    assert_eq!(r, Err(ParseError::UnmatchedLoopStart(2)));
}

#[test]
fn parse_end_error_wins_over_start_error() {
    // The stray `]` comes first in the scan, before the unclosed `[`.
    let r = parse(&trans("]["));
    assert_eq!(r, Err(ParseError::UnmatchedLoopEnd(0)));
}
