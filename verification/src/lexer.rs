use vstd::prelude::*;

verus! {

/// One operation of the language, as the lexer produces it and the parser
/// consumes it. Loop brackets are still unmatched at this stage.
#[derive(Clone, Copy, PartialEq, Eq, Structural, Debug)]
pub enum OpCode {
    IncrementPtr,
    DecrementPtr,
    Increment,
    Decrement,
    Write,
    Read,
    LoopStart,
    LoopEnd,
}

/// The opcode a source character stands for, or `None` for a character the
/// language does not recognize.
pub open spec fn opcode_of_char(c: char) -> Option<OpCode> {
    match c {
        '>' => Some(OpCode::IncrementPtr),
        '<' => Some(OpCode::DecrementPtr),
        '+' => Some(OpCode::Increment),
        '-' => Some(OpCode::Decrement),
        '.' => Some(OpCode::Write),
        ',' => Some(OpCode::Read),
        '[' => Some(OpCode::LoopStart),
        ']' => Some(OpCode::LoopEnd),
        _ => None,
    }
}

/// Whether a character is one of the eight symbols of the language.
pub open spec fn recognized(c: char) -> bool {
    opcode_of_char(c) is Some
}

/// The opcode sequence a source text denotes: its recognized characters in
/// order, each mapped to its opcode, with every other character skipped.
pub open spec fn translation(s: Seq<char>) -> Seq<OpCode>
    decreases s.len(),
{
    if s.len() == 0 {
        Seq::empty()
    } else {
        let rest = translation(s.drop_last());
        match opcode_of_char(s.last()) {
            Some(op) => rest.push(op),
            None => rest,
        }
    }
}

/// How many characters of a text are recognized symbols.
pub open spec fn symbol_count(s: Seq<char>) -> nat
    decreases s.len(),
{
    if s.len() == 0 {
        0
    } else {
        symbol_count(s.drop_last()) + if recognized(s.last()) {
            1nat
        } else {
            0nat
        }
    }
}

/// Lexer: turns source text into the opcode sequence it denotes.
pub fn trans(source: &str) -> (ops: Vec<OpCode>)
    ensures
        ops@ == translation(source@),
{
    let mut ops: Vec<OpCode> = Vec::new();
    let n = source.unicode_len();
    for i in 0..n
        invariant
            n == source@.len(),
            ops@ == translation(source@.subrange(0, i as int)),
    {
        let cmd = source.get_char(i);
        let op = match cmd {
            '>' => Some(OpCode::IncrementPtr),
            '<' => Some(OpCode::DecrementPtr),
            '+' => Some(OpCode::Increment),
            '-' => Some(OpCode::Decrement),
            '.' => Some(OpCode::Write),
            ',' => Some(OpCode::Read),
            '[' => Some(OpCode::LoopStart),
            ']' => Some(OpCode::LoopEnd),
            _ => None,
        };
        match op {
            Some(op) => ops.push(op),
            None => (),
        }
        proof {
            let pre = source@.subrange(0, i as int);
            let cur = source@.subrange(0, i + 1);
            assert(cur.drop_last() =~= pre);
            assert(cur.last() == source@[i as int]);
        }
    }
    proof {
        assert(source@.subrange(0, source@.len() as int) =~= source@);
    }
    ops
}

/// The lexer emits one opcode per recognized character.
pub proof fn lemma_translation_length(s: Seq<char>)
    ensures
        translation(s).len() == symbol_count(s),
    decreases s.len(),
{
    if s.len() > 0 {
        lemma_translation_length(s.drop_last());
    }
}

/// Translating a concatenation translates the pieces in order.
pub proof fn lemma_translation_concat(a: Seq<char>, b: Seq<char>)
    ensures
        translation(a + b) == translation(a) + translation(b),
    decreases b.len(),
{
    if b.len() == 0 {
        assert(a + b =~= a);
        assert(translation(a) + translation(b) =~= translation(a));
    } else {
        lemma_translation_concat(a, b.drop_last());
        assert((a + b).drop_last() =~= a + b.drop_last());
        assert((a + b).last() == b.last());
        match opcode_of_char(b.last()) {
            Some(op) => {
                assert(translation(a) + translation(b) =~= (translation(a) + translation(
                    b.drop_last(),
                )).push(op));
            },
            None => {},
        }
    }
}

/// A text with no recognized characters translates to no opcodes.
pub proof fn lemma_translation_unrecognized(s: Seq<char>)
    requires
        forall|k: int| 0 <= k < s.len() ==> !recognized(s[k]),
    ensures
        translation(s) == Seq::<OpCode>::empty(),
    decreases s.len(),
{
    if s.len() > 0 {
        assert(!recognized(s.last()));
        lemma_translation_unrecognized(s.drop_last());
    }
}

/// Inserting unrecognized characters anywhere in a source text leaves its
/// translation unchanged.
pub proof fn lemma_translation_insertion(a: Seq<char>, b: Seq<char>, c: Seq<char>)
    requires
        forall|k: int| 0 <= k < b.len() ==> !recognized(b[k]),
    ensures
        translation(a + b + c) == translation(a + c),
{
    lemma_translation_concat(a, b);
    lemma_translation_concat(a + b, c);
    lemma_translation_concat(a, c);
    lemma_translation_unrecognized(b);
    assert(translation(a) + Seq::<OpCode>::empty() =~= translation(a));
}

} // verus!
