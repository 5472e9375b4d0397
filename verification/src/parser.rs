use vstd::prelude::*;

use crate::lexer::OpCode;

verus! {

/// One node of the instruction tree. A `Loop` owns the instructions of its
/// body; a matched bracket pair of the opcode sequence collapses into one
/// such node.
#[derive(Debug, PartialEq)]
pub enum Instruction {
    IncrementPtr,
    DecrementPtr,
    Increment,
    Decrement,
    Write,
    Read,
    Loop(Vec<Instruction>),
}

/// A structural fault of the opcode sequence, with the position of the
/// offending bracket.
#[derive(Clone, Copy, Debug, PartialEq, Eq, Structural)]
pub enum ParseError {
    /// A `]` at this position closes no open loop.
    UnmatchedLoopEnd(usize),
    /// A `[` at this position is never closed.
    UnmatchedLoopStart(usize),
}

/// What an opcode does to the bracket nesting depth.
pub open spec fn op_delta(op: OpCode) -> int {
    match op {
        OpCode::LoopStart => 1,
        OpCode::LoopEnd => -1,
        _ => 0,
    }
}

/// Bracket nesting depth after the first `i` opcodes.
pub open spec fn depth_at(ops: Seq<OpCode>, i: int) -> int
    decreases i,
{
    if i <= 0 {
        0
    } else {
        depth_at(ops, i - 1) + op_delta(ops[i - 1])
    }
}

/// Every `]` closes an open loop, and every `[` is closed.
pub open spec fn balanced(ops: Seq<OpCode>) -> bool {
    &&& depth_at(ops, ops.len() as int) == 0
    &&& forall|j: int| 0 <= j <= ops.len() ==> depth_at(ops, j) >= 0
}

/// Position `p` holds the first `]` that closes no open loop.
pub open spec fn end_fails_at(ops: Seq<OpCode>, p: int) -> bool {
    &&& 0 <= p < ops.len()
    &&& ops[p] == OpCode::LoopEnd
    &&& depth_at(ops, p) == 0
    &&& forall|j: int| 0 <= j <= p ==> depth_at(ops, j) >= 0
}

/// Position `p` holds the outermost `[` that is never closed.
pub open spec fn start_fails_at(ops: Seq<OpCode>, p: int) -> bool {
    &&& 0 <= p < ops.len()
    &&& ops[p] == OpCode::LoopStart
    &&& depth_at(ops, p) == 0
    &&& forall|j: int| 0 <= j <= p ==> depth_at(ops, j) >= 0
    &&& forall|j: int| p < j <= ops.len() ==> depth_at(ops, j) > 0
}

/// The opcodes an instruction stands for, its brackets restored.
pub open spec fn flatten_inst(inst: Instruction) -> Seq<OpCode>
    decreases inst,
{
    match inst {
        Instruction::IncrementPtr => seq![OpCode::IncrementPtr],
        Instruction::DecrementPtr => seq![OpCode::DecrementPtr],
        Instruction::Increment => seq![OpCode::Increment],
        Instruction::Decrement => seq![OpCode::Decrement],
        Instruction::Write => seq![OpCode::Write],
        Instruction::Read => seq![OpCode::Read],
        Instruction::Loop(body) => seq![OpCode::LoopStart] + flatten_seq(body@) + seq![
            OpCode::LoopEnd,
        ],
    }
}

/// The opcodes an instruction sequence stands for.
pub open spec fn flatten_seq(insts: Seq<Instruction>) -> Seq<OpCode>
    decreases insts,
{
    if insts.len() == 0 {
        Seq::empty()
    } else {
        flatten_inst(insts[0]) + flatten_seq(insts.drop_first())
    }
}

/// Flattening distributes over appending one instruction.
pub proof fn lemma_flatten_push(insts: Seq<Instruction>, inst: Instruction)
    ensures
        flatten_seq(insts.push(inst)) == flatten_seq(insts) + flatten_inst(inst),
    decreases insts.len(),
{
    if insts.len() == 0 {
        assert(insts.push(inst)[0] == inst);
        assert(insts.push(inst).drop_first() =~= Seq::<Instruction>::empty());
        assert(flatten_seq(insts.push(inst)) == flatten_inst(inst) + flatten_seq(
            Seq::<Instruction>::empty(),
        ));
        assert(flatten_inst(inst) + Seq::<OpCode>::empty() =~= Seq::<OpCode>::empty()
            + flatten_inst(inst));
    } else {
        lemma_flatten_push(insts.drop_first(), inst);
        assert(insts.push(inst).drop_first() =~= insts.drop_first().push(inst));
        assert(insts.push(inst)[0] == insts[0]);
        assert(flatten_inst(insts[0]) + (flatten_seq(insts.drop_first()) + flatten_inst(inst)) =~= (
        flatten_inst(insts[0]) + flatten_seq(insts.drop_first())) + flatten_inst(inst));
    }
}

/// Depth within a cut-out range, relative to the depth where the range
/// begins.
pub proof fn lemma_depth_subrange(ops: Seq<OpCode>, a: int, c: int, k: int)
    requires
        0 <= a <= c <= ops.len(),
        0 <= k <= c - a,
    ensures
        depth_at(ops.subrange(a, c), k) == depth_at(ops, a + k) - depth_at(ops, a),
    decreases k,
{
    if k > 0 {
        lemma_depth_subrange(ops, a, c, k - 1);
        assert(ops.subrange(a, c)[k - 1] == ops[a + k - 1]);
    }
}

/// Nesting depth of one instruction: a loop nests one deeper than its
/// body.
pub open spec fn inst_depth(inst: Instruction) -> nat
    decreases inst,
{
    match inst {
        Instruction::Loop(body) => 1 + seq_depth(body@),
        _ => 0,
    }
}

/// Greatest nesting depth of any instruction in a sequence.
pub open spec fn seq_depth(insts: Seq<Instruction>) -> nat
    decreases insts,
{
    if insts.len() == 0 {
        0
    } else {
        let d0 = inst_depth(insts[0]);
        let dr = seq_depth(insts.drop_first());
        if d0 >= dr {
            d0
        } else {
            dr
        }
    }
}

/// Greatest bracket nesting depth reached anywhere in an opcode sequence.
pub open spec fn max_depth(ops: Seq<OpCode>) -> int
    decreases ops.len(),
{
    if ops.len() == 0 {
        0
    } else {
        let dl = max_depth(ops.drop_last());
        let de = depth_at(ops, ops.len() as int);
        if dl >= de {
            dl
        } else {
            de
        }
    }
}

/// Depth within a prefix of a concatenation is depth within the first
/// piece.
pub proof fn lemma_depth_at_prefix(a: Seq<OpCode>, b: Seq<OpCode>, i: int)
    requires
        0 <= i <= a.len(),
    ensures
        depth_at(a + b, i) == depth_at(a, i),
    decreases i,
{
    if i > 0 {
        lemma_depth_at_prefix(a, b, i - 1);
        assert((a + b)[i - 1] == a[i - 1]);
    }
}

/// Depth within the second piece of a concatenation, shifted by where the
/// first piece ends.
pub proof fn lemma_depth_at_concat(a: Seq<OpCode>, b: Seq<OpCode>, k: int)
    requires
        0 <= k <= b.len(),
    ensures
        depth_at(a + b, a.len() + k) == depth_at(a, a.len() as int) + depth_at(b, k),
    decreases k,
{
    if k == 0 {
        lemma_depth_at_prefix(a, b, a.len() as int);
    } else {
        lemma_depth_at_concat(a, b, k - 1);
        assert((a + b)[a.len() + k - 1] == b[k - 1]);
    }
}

/// The greatest depth bounds the depth of every prefix.
pub proof fn lemma_max_depth_ge(s: Seq<OpCode>, i: int)
    requires
        0 <= i <= s.len(),
    ensures
        max_depth(s) >= depth_at(s, i),
    decreases s.len(),
{
    if s.len() > 0 {
        if i < s.len() {
            lemma_max_depth_ge(s.drop_last(), i);
            assert(s.drop_last() + seq![s.last()] =~= s);
            lemma_depth_at_prefix(s.drop_last(), seq![s.last()], i);
        }
    }
}

/// The greatest depth of a concatenation, from those of its pieces.
pub proof fn lemma_max_depth_concat(a: Seq<OpCode>, b: Seq<OpCode>)
    ensures
        max_depth(a + b) == vstd::math::max(
            max_depth(a),
            depth_at(a, a.len() as int) + max_depth(b),
        ),
    decreases b.len(),
{
    if b.len() == 0 {
        assert(a + b =~= a);
        lemma_max_depth_ge(a, a.len() as int);
    } else {
        lemma_max_depth_concat(a, b.drop_last());
        assert((a + b).drop_last() =~= a + b.drop_last());
        lemma_depth_at_concat(a, b, b.len() as int);
        lemma_max_depth_ge(b, 0);
    }
}

/// One bracketless opcode on its own is balanced and reaches no depth.
proof fn lemma_flatten_basic(op: OpCode)
    requires
        op_delta(op) == 0,
    ensures
        balanced(seq![op]),
        max_depth(seq![op]) == 0,
{
    let s = seq![op];
    assert(s.len() == 1);
    assert(s[0] == op);
    assert(s.drop_last() =~= Seq::<OpCode>::empty());
    assert(depth_at(s, 0) == 0);
    assert(depth_at(s, 1) == 0);
    assert(max_depth(Seq::<OpCode>::empty()) == 0);
    assert(max_depth(s) == 0);
}

/// The opcodes of one instruction are balanced and nest exactly as deep
/// as the instruction.
pub proof fn lemma_flatten_inst_depth(inst: Instruction)
    ensures
        balanced(flatten_inst(inst)),
        max_depth(flatten_inst(inst)) == inst_depth(inst),
    decreases inst,
{
    match inst {
        Instruction::IncrementPtr => lemma_flatten_basic(OpCode::IncrementPtr),
        Instruction::DecrementPtr => lemma_flatten_basic(OpCode::DecrementPtr),
        Instruction::Increment => lemma_flatten_basic(OpCode::Increment),
        Instruction::Decrement => lemma_flatten_basic(OpCode::Decrement),
        Instruction::Write => lemma_flatten_basic(OpCode::Write),
        Instruction::Read => lemma_flatten_basic(OpCode::Read),
        Instruction::Loop(body) => {
            lemma_flatten_seq_depth(body@);
            let a = seq![OpCode::LoopStart];
            let g = flatten_seq(body@);
            let e = seq![OpCode::LoopEnd];
            assert(a.len() == 1 && a[0] == OpCode::LoopStart);
            assert(e.len() == 1 && e[0] == OpCode::LoopEnd);
            assert(a.drop_last() =~= Seq::<OpCode>::empty());
            assert(e.drop_last() =~= Seq::<OpCode>::empty());
            assert(depth_at(a, 0) == 0);
            assert(depth_at(a, 1) == 1);
            assert(depth_at(e, 0) == 0);
            assert(depth_at(e, 1) == -1);
            assert(max_depth(Seq::<OpCode>::empty()) == 0);
            assert(max_depth(a) == 1);
            assert(max_depth(e) == 0);
            lemma_max_depth_concat(a, g);
            lemma_max_depth_concat(a + g, e);
            lemma_depth_at_concat(a, g, g.len() as int);
            lemma_depth_at_concat(a + g, e, 1);
            lemma_max_depth_ge(g, 0);
            assert(flatten_inst(inst) == a + g + e);
            assert(depth_at(a + g, (a + g).len() as int) == 1);
            assert(depth_at(a + g + e, (a + g + e).len() as int) == 0);
            assert(max_depth(a + g + e) == 1 + max_depth(g));
            assert forall|j: int| 0 <= j <= (a + g + e).len() implies depth_at(a + g + e, j)
                >= 0 by {
                if j <= (a + g).len() {
                    lemma_depth_at_prefix(a + g, e, j);
                    if j > 0 {
                        lemma_depth_at_concat(a, g, j - 1);
                    }
                }
            }
        },
    }
}

/// The opcodes of an instruction sequence are balanced and nest exactly
/// as deep as the sequence.
pub proof fn lemma_flatten_seq_depth(insts: Seq<Instruction>)
    ensures
        balanced(flatten_seq(insts)),
        max_depth(flatten_seq(insts)) == seq_depth(insts),
    decreases insts,
{
    if insts.len() > 0 {
        lemma_flatten_inst_depth(insts[0]);
        lemma_flatten_seq_depth(insts.drop_first());
        let a = flatten_inst(insts[0]);
        let b = flatten_seq(insts.drop_first());
        lemma_max_depth_concat(a, b);
        lemma_depth_at_concat(a, b, b.len() as int);
        assert forall|j: int| 0 <= j <= (a + b).len() implies depth_at(a + b, j) >= 0 by {
            if j <= a.len() {
                lemma_depth_at_prefix(a, b, j);
            } else {
                lemma_depth_at_concat(a, b, j - a.len());
            }
        }
    }
}

/// A tree the parser may return for an opcode sequence nests exactly as
/// deep as the sequence's brackets, and such a sequence is balanced.
pub proof fn lemma_parse_depth(ops: Seq<OpCode>, code: Seq<Instruction>)
    requires
        flatten_seq(code) == ops,
    ensures
        balanced(ops),
        max_depth(ops) == seq_depth(code),
{
    lemma_flatten_seq_depth(code);
}

/// Parser: collapses each matched bracket pair of the opcode sequence into
/// a `Loop` node. It succeeds exactly on balanced sequences, and the tree
/// it builds flattens back to its input; on an unbalanced sequence it
/// reports the offending bracket and its position.
#[verifier::loop_isolation(false)]
pub fn parse(opcodes: &Vec<OpCode>) -> (r: Result<Vec<Instruction>, ParseError>)
    ensures
        r is Ok <==> balanced(opcodes@),
        r matches Ok(code) ==> flatten_seq(code@) == opcodes@,
        r matches Err(ParseError::UnmatchedLoopEnd(p)) ==> end_fails_at(opcodes@, p as int),
        r matches Err(ParseError::UnmatchedLoopStart(p)) ==> start_fails_at(opcodes@, p as int),
    decreases opcodes@.len(),
{
    let n = opcodes.len();
    let mut code: Vec<Instruction> = Vec::new();
    let mut loop_begin: usize = 0;
    let mut loop_stack: usize = 0;
    let mut i: usize = 0;
    while i < n
        invariant
            i <= n,
            loop_stack <= i,
            loop_stack as int == depth_at(opcodes@, i as int),
            forall|j: int| 0 <= j <= i ==> depth_at(opcodes@, j) >= 0,
            loop_stack == 0 ==> flatten_seq(code@) == opcodes@.subrange(0, i as int),
            loop_stack > 0 ==> {
                &&& loop_begin < i
                &&& opcodes@[loop_begin as int] == OpCode::LoopStart
                &&& depth_at(opcodes@, loop_begin as int) == 0
                &&& flatten_seq(code@) == opcodes@.subrange(0, loop_begin as int)
                &&& forall|j: int| loop_begin < j <= i ==> depth_at(opcodes@, j) > 0
            },
        decreases n - i,
    {
        let op = opcodes[i];
        if loop_stack == 0 {
            let instruction: Option<Instruction> = match op {
                OpCode::IncrementPtr => Some(Instruction::IncrementPtr),
                OpCode::DecrementPtr => Some(Instruction::DecrementPtr),
                OpCode::Increment => Some(Instruction::Increment),
                OpCode::Decrement => Some(Instruction::Decrement),
                OpCode::Read => Some(Instruction::Read),
                OpCode::Write => Some(Instruction::Write),
                OpCode::LoopStart => {
                    loop_begin = i;
                    loop_stack = 1;
                    None
                },
                OpCode::LoopEnd => {
                    proof {
                        assert(depth_at(opcodes@, i as int + 1) == -1);
                        assert(!balanced(opcodes@));
                        assert(end_fails_at(opcodes@, i as int));
                    }
                    return Err(ParseError::UnmatchedLoopEnd(i));
                },
            };
            proof {
                if instruction is Some {
                    assert(flatten_inst(instruction->Some_0) =~= seq![op]);
                    assert(op_delta(op) == 0);
                }
            }
            match instruction {
                Some(instruction) => {
                    let ghost code0 = code@;
                    let ghost inst = instruction;
                    code.push(instruction);
                    proof {
                        lemma_flatten_push(code0, inst);
                        assert(flatten_seq(code@) =~= opcodes@.subrange(0, i as int + 1));
                    }
                },
                None => (),
            }
        } else {
            match op {
                OpCode::LoopStart => {
                    loop_stack = loop_stack + 1;
                },
                OpCode::LoopEnd => {
                    loop_stack = loop_stack - 1;
                    if loop_stack == 0 {
                        let ghost b = loop_begin as int;
                        let mut sub: Vec<OpCode> = Vec::new();
                        let mut k: usize = loop_begin + 1;
                        while k < i
                            invariant
                                loop_begin + 1 <= k <= i,
                                sub@ == opcodes@.subrange(b + 1, k as int),
                            decreases i - k,
                        {
                            let x = opcodes[k];
                            sub.push(x);
                            proof {
                                assert(opcodes@.subrange(b + 1, k as int + 1) =~= opcodes@.subrange(
                                    b + 1,
                                    k as int,
                                ).push(opcodes@[k as int]));
                            }
                            k = k + 1;
                        }
                        proof {
                            assert(depth_at(opcodes@, b + 1) == 1);
                            assert(depth_at(opcodes@, i as int) == 1);
                            assert(sub@.len() == i - b - 1);
                            assert forall|j: int| 0 <= j <= sub@.len() implies depth_at(sub@, j)
                                == depth_at(opcodes@, b + 1 + j) - 1 by {
                                lemma_depth_subrange(opcodes@, b + 1, i as int, j);
                            }
                            assert(balanced(sub@));
                        }
                        let sub_result = parse(&sub);
                        match sub_result {
                            Ok(body) => {
                                let ghost code0 = code@;
                                let ghost inst = Instruction::Loop(body);
                                code.push(Instruction::Loop(body));
                                proof {
                                    lemma_flatten_push(code0, inst);
                                    assert(flatten_seq(code@) =~= opcodes@.subrange(
                                        0,
                                        i as int + 1,
                                    ));
                                }
                            },
                            Err(_) => {
                                // The sub-sequence is balanced, so the
                                // recursive parse cannot fail.
                                proof {
                                    assert(false);
                                }
                            },
                        }
                    }
                },
                _ => (),
            }
        }
        i = i + 1;
    }
    if loop_stack != 0 {
        proof {
            assert(!balanced(opcodes@));
            assert(start_fails_at(opcodes@, loop_begin as int));
        }
        return Err(ParseError::UnmatchedLoopStart(loop_begin));
    }
    proof {
        assert(balanced(opcodes@));
        assert(opcodes@.subrange(0, n as int) =~= opcodes@);
    }
    Ok(code)
}

} // verus!
