use brainfuck::lexer::{trans, OpCode};

#[test]
fn trans_maps_each_symbol() {
    let ops = trans("><+-.,[]");
    assert_eq!(
        ops,
        vec![
            OpCode::IncrementPtr,
            OpCode::DecrementPtr,
            OpCode::Increment,
            OpCode::Decrement,
            OpCode::Write,
            OpCode::Read,
            OpCode::LoopStart,
            OpCode::LoopEnd,
        ]
    );
}

#[test]
fn trans_length_counts_recognized_symbols() {
    let ops = trans("a+b-c>d<e");
    assert_eq!(ops.len(), 4);
    assert_eq!(
        ops,
        vec![
            OpCode::Increment,
            OpCode::Decrement,
            OpCode::IncrementPtr,
            OpCode::DecrementPtr,
        ]
    );
}

#[test]
fn trans_ignores_inserted_comment_text() {
    let plain = trans("+[->+<]");
    let noisy = trans("+ hello [ - > + world < ] !");
    assert_eq!(plain, noisy);
}

#[test]
fn trans_of_unrecognized_text_is_empty() {
    let ops = trans("nothing to see here; 0123 \n\t");
    assert!(ops.is_empty());
}

#[test]
fn trans_of_empty_source_is_empty() {
    let ops = trans("");
    assert!(ops.is_empty());
}

#[test]
fn trans_keeps_relative_order() {
    let ops = trans("+.-");
    assert_eq!(ops, vec![OpCode::Increment, OpCode::Write, OpCode::Decrement]);
}
