use vstd::prelude::*;

use crate::parser::Instruction;

verus! {

/// A fault during execution. Every fault is fatal to the run.
#[derive(Clone, Copy, Debug, PartialEq, Eq, Structural)]
pub enum RunError {
    /// The data pointer would leave the tape, or a cell access lies
    /// outside it.
    TapeOutOfBounds,
    /// A read instruction found the input exhausted.
    InputExhausted,
    /// The step budget ran out before the program finished.
    OutOfFuel,
}

/// The mathematical execution state: the tape and data pointer, the input
/// with how much of it is consumed, and the output written so far.
pub ghost struct State {
    pub tape: Seq<u8>,
    pub ptr: int,
    pub input: Seq<u8>,
    pub in_pos: int,
    pub output: Seq<u8>,
}

/// The machine a program runs against: a byte tape with its data pointer,
/// an input buffer with a cursor, and the output gathered so far.
pub struct Machine {
    pub tape: Vec<u8>,
    pub ptr: usize,
    pub input: Vec<u8>,
    pub in_pos: usize,
    pub output: Vec<u8>,
}

impl View for Machine {
    type V = State;

    open spec fn view(&self) -> State {
        State {
            tape: self.tape@,
            ptr: self.ptr as int,
            input: self.input@,
            in_pos: self.in_pos as int,
            output: self.output@,
        }
    }
}

/// A byte cell incremented, wrapping 255 to 0.
pub open spec fn inc_wrap(v: u8) -> u8 {
    if v == 255 {
        0
    } else {
        (v + 1) as u8
    }
}

/// A byte cell decremented, wrapping 0 to 255.
pub open spec fn dec_wrap(v: u8) -> u8 {
    if v == 0 {
        255
    } else {
        (v - 1) as u8
    }
}

/// What one non-loop instruction does to the state. Pointer moves must
/// keep the pointer on the tape, and cell accesses must find it there;
/// anything else is a fault.
pub open spec fn step_basic(inst: Instruction, st: State) -> Result<State, RunError>
    recommends
        !(inst is Loop),
{
    match inst {
        Instruction::IncrementPtr => if st.ptr + 1 < st.tape.len() {
            Ok(State { ptr: st.ptr + 1, ..st })
        } else {
            Err(RunError::TapeOutOfBounds)
        },
        Instruction::DecrementPtr => if st.ptr >= 1 {
            Ok(State { ptr: st.ptr - 1, ..st })
        } else {
            Err(RunError::TapeOutOfBounds)
        },
        Instruction::Increment => if 0 <= st.ptr < st.tape.len() {
            Ok(State { tape: st.tape.update(st.ptr, inc_wrap(st.tape[st.ptr])), ..st })
        } else {
            Err(RunError::TapeOutOfBounds)
        },
        Instruction::Decrement => if 0 <= st.ptr < st.tape.len() {
            Ok(State { tape: st.tape.update(st.ptr, dec_wrap(st.tape[st.ptr])), ..st })
        } else {
            Err(RunError::TapeOutOfBounds)
        },
        Instruction::Write => if 0 <= st.ptr < st.tape.len() {
            Ok(State { output: st.output.push(st.tape[st.ptr]), ..st })
        } else {
            Err(RunError::TapeOutOfBounds)
        },
        Instruction::Read => if !(0 <= st.ptr < st.tape.len()) {
            Err(RunError::TapeOutOfBounds)
        } else if st.in_pos < st.input.len() {
            Ok(
                State {
                    tape: st.tape.update(st.ptr, st.input[st.in_pos]),
                    in_pos: st.in_pos + 1,
                    ..st
                },
            )
        } else {
            Err(RunError::InputExhausted)
        },
        Instruction::Loop(_) => Ok(st),
    }
}

/// Executing an instruction sequence against a state. A loop runs its body
/// while the cell under the pointer is non-zero, re-checking the cell
/// after every full pass. `fuel` bounds how often any one loop may be
/// entered; running out of budget is the fault `OutOfFuel`, so that every
/// execution is finite.
pub open spec fn run_seq(insts: Seq<Instruction>, st: State, fuel: nat) -> Result<State, RunError>
    decreases fuel, insts.len(),
{
    if insts.len() == 0 {
        Ok(st)
    } else {
        match insts[0] {
            Instruction::Loop(body) => {
                if !(0 <= st.ptr < st.tape.len()) {
                    Err(RunError::TapeOutOfBounds)
                } else if st.tape[st.ptr] == 0 {
                    run_seq(insts.drop_first(), st, fuel)
                } else if fuel == 0 {
                    Err(RunError::OutOfFuel)
                } else {
                    match run_seq(body@, st, (fuel - 1) as nat) {
                        Ok(st2) => run_seq(insts, st2, (fuel - 1) as nat),
                        Err(e) => Err(e),
                    }
                }
            },
            _ => match step_basic(insts[0], st) {
                Ok(st2) => run_seq(insts.drop_first(), st2, fuel),
                Err(e) => Err(e),
            },
        }
    }
}

/// A loop that runs to completion leaves the cell then under the pointer
/// zero: a re-check finding that cell non-zero is the only way back into
/// the body, and a zero the only way out.
pub proof fn lemma_loop_exit_cell_zero(body: Vec<Instruction>, st: State, fuel: nat, st2: State)
    requires
        run_seq(seq![Instruction::Loop(body)], st, fuel) == Ok::<State, RunError>(st2),
    ensures
        0 <= st2.ptr < st2.tape.len(),
        st2.tape[st2.ptr] == 0,
    decreases fuel,
{
    let insts = seq![Instruction::Loop(body)];
    assert(insts[0] == Instruction::Loop(body));
    assert(insts.drop_first() =~= Seq::<Instruction>::empty());
    assert(run_seq(Seq::<Instruction>::empty(), st, fuel) == Ok::<State, RunError>(st));
    if 0 <= st.ptr < st.tape.len() && st.tape[st.ptr] != 0 && fuel > 0 {
        match run_seq(body@, st, (fuel - 1) as nat) {
            Ok(stm) => {
                assert(run_seq(insts, st, fuel) == run_seq(insts, stm, (fuel - 1) as nat));
                lemma_loop_exit_cell_zero(body, stm, (fuel - 1) as nat, st2);
            },
            Err(_) => {
                assert(false);
            },
        }
    } else {
        assert(st2 == st);
    }
}

/// Executor: runs the instruction tree against the machine. The result,
/// and the machine afterwards, are exactly what the semantics `run_seq`
/// gives for the machine before, under the same step budget.
#[verifier::loop_isolation(false)]
pub fn brainfuck(instructions: &Vec<Instruction>, m: &mut Machine, fuel: u64) -> (r: Result<
    (),
    RunError,
>)
    ensures
        match r {
            Ok(_) => run_seq(instructions@, old(m)@, fuel as nat) == Ok::<State, RunError>(
                final(m)@,
            ),
            Err(e) => run_seq(instructions@, old(m)@, fuel as nat) == Err::<State, RunError>(e),
        },
    decreases fuel, instructions@.len(),
{
    let ghost st0 = m@;
    let ghost fuel0 = fuel as nat;
    let mut f = fuel;
    let n = instructions.len();
    let mut j: usize = 0;
    proof {
        assert(instructions@.skip(0) =~= instructions@);
    }
    while j < n
        invariant
            j <= n,
            f <= fuel,
            run_seq(instructions@.skip(j as int), m@, f as nat) == run_seq(
                instructions@,
                st0,
                fuel0,
            ),
        decreases n - j,
    {
        let ghost pre = m@;
        let ghost suffix = instructions@.skip(j as int);
        proof {
            assert(suffix[0] == instructions@[j as int]);
            assert(suffix.drop_first() =~= instructions@.skip(j as int + 1));
        }
        match &instructions[j] {
            Instruction::IncrementPtr => {
                if m.ptr < m.tape.len() && m.ptr + 1 < m.tape.len() {
                    m.ptr = m.ptr + 1;
                } else {
                    return Err(RunError::TapeOutOfBounds);
                }
            },
            Instruction::DecrementPtr => {
                if m.ptr >= 1 {
                    m.ptr = m.ptr - 1;
                } else {
                    return Err(RunError::TapeOutOfBounds);
                }
            },
            Instruction::Increment => {
                if m.ptr < m.tape.len() {
                    let v = m.tape[m.ptr];
                    let w = if v == 255 {
                        0
                    } else {
                        v + 1
                    };
                    m.tape.set(m.ptr, w);
                } else {
                    return Err(RunError::TapeOutOfBounds);
                }
            },
            Instruction::Decrement => {
                if m.ptr < m.tape.len() {
                    let v = m.tape[m.ptr];
                    let w = if v == 0 {
                        255
                    } else {
                        v - 1
                    };
                    m.tape.set(m.ptr, w);
                } else {
                    return Err(RunError::TapeOutOfBounds);
                }
            },
            Instruction::Write => {
                if m.ptr < m.tape.len() {
                    let v = m.tape[m.ptr];
                    m.output.push(v);
                } else {
                    return Err(RunError::TapeOutOfBounds);
                }
            },
            Instruction::Read => {
                if m.ptr < m.tape.len() {
                    if m.in_pos < m.input.len() {
                        let b = m.input[m.in_pos];
                        m.tape.set(m.ptr, b);
                        m.in_pos = m.in_pos + 1;
                    } else {
                        return Err(RunError::InputExhausted);
                    }
                } else {
                    return Err(RunError::TapeOutOfBounds);
                }
            },
            Instruction::Loop(body) => {
                let mut looping = true;
                while looping
                    invariant
                        j < n,
                        f <= fuel,
                        instructions@[j as int] == Instruction::Loop(*body),
                        looping ==> run_seq(instructions@.skip(j as int), m@, f as nat) == run_seq(
                            instructions@,
                            st0,
                            fuel0,
                        ),
                        !looping ==> run_seq(instructions@.skip(j as int + 1), m@, f as nat)
                            == run_seq(instructions@, st0, fuel0),
                    decreases
                            f,
                            if looping {
                                1int
                            } else {
                                0int
                            },
                {
                    if !(m.ptr < m.tape.len()) {
                        return Err(RunError::TapeOutOfBounds);
                    }
                    let cell = m.tape[m.ptr];
                    if cell == 0 {
                        looping = false;
                    } else {
                        if f == 0 {
                            return Err(RunError::OutOfFuel);
                        }
                        f = f - 1;
                        let res = brainfuck(body, m, f);
                        match res {
                            Ok(_) => {},
                            Err(e) => {
                                return Err(e);
                            },
                        }
                    }
                }
            },
        }
        proof {
            if !(instructions@[j as int] is Loop) {
                assert(step_basic(instructions@[j as int], pre) == Ok::<State, RunError>(m@));
            }
        }
        j = j + 1;
    }
    proof {
        assert(instructions@.skip(n as int) =~= Seq::<Instruction>::empty());
    }
    Ok(())
}

} // verus!
