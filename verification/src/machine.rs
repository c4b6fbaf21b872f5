use vstd::prelude::*;
use std::io::Write;
use crate::instr::EvalError;
use crate::instr::Instruction;

verus! {

/// Number of cells on the tape.
pub const TAPE_LEN: usize = 30000;

/// How many steps a run may take before it is abandoned. At any realistic
/// speed this is more steps than could execute in the lifetime of the
/// machine, so only a program that never halts can exhaust it.
pub const STEP_LIMIT: u128 = u128::MAX;

/// The machine's state between two steps: the program counter, the tape
/// cursor, the tape itself, and the output bytes accumulated so far.
pub ghost struct MState {
    pub pc: int,
    pub cur: int,
    pub tape: Seq<u8>,
    pub out: Seq<u8>,
}

/// What one step of the machine leads to: a next state, a normal halt with
/// the accumulated output, or an abort.
pub ghost enum Outcome {
    Running(MState),
    Halted(Seq<u8>),
    Failed(EvalError),
}

/// Addition on a cell wraps modulo 256.
pub open spec fn wrap_add(a: u8, b: u8) -> u8 {
    ((a + b) % 256) as u8
}

/// Subtraction on a cell wraps modulo 256.
pub open spec fn wrap_sub(a: u8, b: u8) -> u8 {
    ((a - b + 256) % 256) as u8
}

/// Cell arithmetic wraps modulo 256 in both directions: adding an amount and
/// subtracting it again restores any cell value, and the other way round.
pub proof fn lemma_wrap_round_trip(a: u8, b: u8)
    ensures
        wrap_sub(wrap_add(a, b), b) == a,
        wrap_add(wrap_sub(a, b), b) == a,
{
    assert((a + b) % 256 == if a + b < 256 {
        a + b
    } else {
        a + b - 256
    });
    assert((a - b + 256) % 256 == if a - b >= 0 {
        (a - b) as int
    } else {
        a - b + 256
    });
    assert(wrap_sub(wrap_add(a, b), b) == a) by {
        let w = wrap_add(a, b);
        assert((w - b + 256) % 256 == if w - b >= 0 {
            (w - b) as int
        } else {
            w - b + 256
        });
    }
    assert(wrap_add(wrap_sub(a, b), b) == a) by {
        let w = wrap_sub(a, b);
        assert((w + b) % 256 == if w + b < 256 {
            w + b
        } else {
            w + b - 256
        });
    }
}

/// The executable wrapping operations of `u8` agree with the modulo-256
/// specification.
proof fn lemma_wrapping_matches(a: u8, b: u8)
    ensures
        vstd::wrapping::u8_specs::wrapping_add(a, b) == wrap_add(a, b),
        vstd::wrapping::u8_specs::wrapping_sub(a, b) == wrap_sub(a, b),
{
    assert((a + b) % 256 == if a + b < 256 {
        a + b
    } else {
        a + b - 256
    });
    assert((a - b + 256) % 256 == if a - b >= 0 {
        (a - b) as int
    } else {
        a - b + 256
    });
}

/// One step of the machine. Execution halts exactly when the program counter
/// reaches the program length. A relative move that would leave the tape, a
/// scan that reaches a tape end on nonzero cells, or a jump target outside
/// the program aborts; the read-a-byte instruction always aborts. A loop
/// start falls through into the body on a nonzero cell and jumps just past
/// its matching end on a zero cell; a loop end jumps just past its matching
/// start on a nonzero cell and falls through on a zero cell. Scans move one
/// cell per step and leave the program counter in place until a zero cell is
/// under the cursor.
pub open spec fn step(p: Seq<Instruction>, s: MState) -> Outcome {
    if s.pc == p.len() {
        Outcome::Halted(s.out)
    } else if !(0 <= s.pc < p.len()) {
        Outcome::Failed(EvalError::OutOfBounds)
    } else {
        match p[s.pc] {
            Instruction::MoveRight(d) => if s.cur + d < TAPE_LEN as int {
                Outcome::Running(MState { pc: s.pc + 1, cur: s.cur + d, tape: s.tape, out: s.out })
            } else {
                Outcome::Failed(EvalError::OutOfBounds)
            },
            Instruction::MoveLeft(d) => if s.cur - d >= 0 {
                Outcome::Running(MState { pc: s.pc + 1, cur: s.cur - d, tape: s.tape, out: s.out })
            } else {
                Outcome::Failed(EvalError::OutOfBounds)
            },
            Instruction::Add(v) => Outcome::Running(
                MState {
                    pc: s.pc + 1,
                    cur: s.cur,
                    tape: s.tape.update(s.cur, wrap_add(s.tape[s.cur], v)),
                    out: s.out,
                },
            ),
            Instruction::Sub(v) => Outcome::Running(
                MState {
                    pc: s.pc + 1,
                    cur: s.cur,
                    tape: s.tape.update(s.cur, wrap_sub(s.tape[s.cur], v)),
                    out: s.out,
                },
            ),
            Instruction::PutChar => Outcome::Running(
                MState { pc: s.pc + 1, cur: s.cur, tape: s.tape, out: s.out.push(s.tape[s.cur]) },
            ),
            Instruction::GetChar => Outcome::Failed(EvalError::InputUnsupported),
            Instruction::LoopStart(t) => if s.tape[s.cur] == 0 {
                if t < p.len() {
                    Outcome::Running(MState { pc: t + 1, cur: s.cur, tape: s.tape, out: s.out })
                } else {
                    Outcome::Failed(EvalError::OutOfBounds)
                }
            } else {
                Outcome::Running(MState { pc: s.pc + 1, cur: s.cur, tape: s.tape, out: s.out })
            },
            Instruction::LoopEnd(t) => if s.tape[s.cur] != 0 {
                if t < p.len() {
                    Outcome::Running(MState { pc: t + 1, cur: s.cur, tape: s.tape, out: s.out })
                } else {
                    Outcome::Failed(EvalError::OutOfBounds)
                }
            } else {
                Outcome::Running(MState { pc: s.pc + 1, cur: s.cur, tape: s.tape, out: s.out })
            },
            Instruction::Clear => Outcome::Running(
                MState { pc: s.pc + 1, cur: s.cur, tape: s.tape.update(s.cur, 0u8), out: s.out },
            ),
            Instruction::ScanRight => if s.tape[s.cur] != 0 {
                if s.cur + 1 < TAPE_LEN as int {
                    Outcome::Running(MState { pc: s.pc, cur: s.cur + 1, tape: s.tape, out: s.out })
                } else {
                    Outcome::Failed(EvalError::OutOfBounds)
                }
            } else {
                Outcome::Running(MState { pc: s.pc + 1, cur: s.cur, tape: s.tape, out: s.out })
            },
            Instruction::ScanLeft => if s.tape[s.cur] != 0 {
                if s.cur - 1 >= 0 {
                    Outcome::Running(MState { pc: s.pc, cur: s.cur - 1, tape: s.tape, out: s.out })
                } else {
                    Outcome::Failed(EvalError::OutOfBounds)
                }
            } else {
                Outcome::Running(MState { pc: s.pc + 1, cur: s.cur, tape: s.tape, out: s.out })
            },
        }
    }
}

/// Where the machine begins: counter and cursor at zero, a zeroed tape, no
/// output yet.
pub open spec fn init_state() -> MState {
    MState {
        pc: 0,
        cur: 0,
        tape: Seq::new(TAPE_LEN as nat, |i: int| 0u8),
        out: Seq::empty(),
    }
}

/// The machine's situation after `n` steps from the initial state; halting
/// and aborting are absorbing.
pub open spec fn run_n(p: Seq<Instruction>, n: nat) -> Outcome
    decreases n,
{
    if n == 0 {
        Outcome::Running(init_state())
    } else {
        match run_n(p, (n - 1) as nat) {
            Outcome::Running(s) => step(p, s),
            o => o,
        }
    }
}

/// A clear instruction zeroes the cell under the cursor and produces no
/// output, whatever nonzero value preceding arithmetic left in it: the
/// program that adds `v` and then clears halts with the cell at zero and an
/// empty output.
pub proof fn lemma_clear_zeroes_cell(v: u8)
    requires
        v > 0,
    ensures
        ({
            let p = seq![Instruction::Add(v), Instruction::Clear];
            &&& run_n(p, 2) matches Outcome::Running(s) && s.tape[0] == 0 && s.out
                =~= Seq::<u8>::empty()
            &&& run_n(p, 3) == Outcome::Halted(Seq::<u8>::empty())
        }),
{
    let p = seq![Instruction::Add(v), Instruction::Clear];
    let s0 = init_state();
    assert(run_n(p, 0) == Outcome::Running(s0));
    assert(s0.tape[0] == 0);
    assert((0 + v) % 256 == v as int);
    let s1 = MState { pc: 1, cur: 0, tape: s0.tape.update(0, v), out: s0.out };
    assert(step(p, s0) == Outcome::Running(s1));
    assert(run_n(p, 1) == Outcome::Running(s1));
    let s2 = MState { pc: 2, cur: 0, tape: s1.tape.update(0, 0u8), out: s1.out };
    assert(step(p, s1) == Outcome::Running(s2));
    assert(run_n(p, 2) == Outcome::Running(s2));
    assert(s2.tape[0] == 0);
    assert(step(p, s2) == Outcome::Halted(s2.out));
    assert(run_n(p, 3) == Outcome::Halted(s2.out));
    assert(s2.out =~= Seq::<u8>::empty());
}

/// Relies on std::io::Stdout and the write! macro: prints one byte to
/// standard output, read as a character, for live-output mode.
#[verifier::external_body]
fn write_live(b: u8) {
    let mut sink = std::io::stdout();
    let _ = write!(sink, "{}", b as char);
}

/// Interpret a resolved program against a fresh zeroed tape and return the
/// bytes it outputs. With `print_live` set, each byte is also written to
/// standard output, as a character, the moment it is produced. The result is
/// exactly what the step semantics reaches from the initial state: the
/// accumulated output where the run halts, the fault where it aborts, and
/// the step-limit error exactly where the run is still going after the whole
/// unreachable step budget.
#[verifier::loop_isolation(false)]
pub fn execute(program: &Vec<Instruction>, print_live: bool) -> (r: Result<Vec<u8>, EvalError>)
    ensures
        match r {
            Ok(out) => exists|n: nat| run_n(program@, n) == Outcome::Halted(out@),
            Err(e) => (exists|n: nat| run_n(program@, n) == Outcome::Failed(e)) || (e
                == EvalError::StepLimitExceeded && run_n(program@, STEP_LIMIT as nat)
                is Running),
        },
{
    let mut tape: Vec<u8> = Vec::new();
    let mut idx: usize = 0;
    while idx < TAPE_LEN
        invariant
            idx <= TAPE_LEN,
            tape@.len() == idx,
            forall|t: int| 0 <= t < idx ==> tape@[t] == 0u8,
        decreases TAPE_LEN - idx,
    {
        tape.push(0);
        idx = idx + 1;
    }
    proof {
        assert(tape@ =~= init_state().tape);
    }
    let mut pc: usize = 0;
    let mut cur: usize = 0;
    let mut out: Vec<u8> = Vec::new();
    let mut fuel: u128 = STEP_LIMIT;
    let ghost mut steps: nat = 0;
    proof {
        assert(run_n(program@, 0) == Outcome::Running(init_state()));
        assert(init_state() == (MState { pc: pc as int, cur: cur as int, tape: tape@, out: out@ }));
    }
    while pc != program.len()
        invariant
            pc <= program.len(),
            cur < TAPE_LEN,
            tape@.len() == TAPE_LEN,
            steps + fuel == STEP_LIMIT,
            run_n(program@, steps) == Outcome::Running(
                MState { pc: pc as int, cur: cur as int, tape: tape@, out: out@ },
            ),
        decreases fuel,
    {
        if fuel == 0 {
            return Err(EvalError::StepLimitExceeded);
        }
        fuel = fuel - 1;
        let ghost pre = MState { pc: pc as int, cur: cur as int, tape: tape@, out: out@ };
        proof {
            assert(run_n(program@, steps + 1) == step(program@, pre));
        }
        let inst = program[pc];
        match inst {
            Instruction::MoveRight(d) => {
                if d < TAPE_LEN && cur + d < TAPE_LEN {
                    cur = cur + d;
                    pc = pc + 1;
                } else {
                    proof {
                        steps = steps + 1;
                    }
                    return Err(EvalError::OutOfBounds);
                }
            },
            Instruction::MoveLeft(d) => {
                if d <= cur {
                    cur = cur - d;
                    pc = pc + 1;
                } else {
                    proof {
                        steps = steps + 1;
                    }
                    return Err(EvalError::OutOfBounds);
                }
            },
            Instruction::Add(v) => {
                let b = tape[cur];
                proof {
                    lemma_wrapping_matches(b, v);
                }
                tape.set(cur, b.wrapping_add(v));
                pc = pc + 1;
            },
            Instruction::Sub(v) => {
                let b = tape[cur];
                proof {
                    lemma_wrapping_matches(b, v);
                }
                tape.set(cur, b.wrapping_sub(v));
                pc = pc + 1;
            },
            Instruction::PutChar => {
                let b = tape[cur];
                out.push(b);
                if print_live {
                    write_live(b);
                }
                pc = pc + 1;
            },
            Instruction::GetChar => {
                proof {
                    steps = steps + 1;
                }
                return Err(EvalError::InputUnsupported);
            },
            Instruction::LoopStart(t) => {
                let b = tape[cur];
                if b == 0 {
                    if t < program.len() {
                        pc = t + 1;
                    } else {
                        proof {
                            steps = steps + 1;
                        }
                        return Err(EvalError::OutOfBounds);
                    }
                } else {
                    pc = pc + 1;
                }
            },
            Instruction::LoopEnd(t) => {
                let b = tape[cur];
                if b != 0 {
                    if t < program.len() {
                        pc = t + 1;
                    } else {
                        proof {
                            steps = steps + 1;
                        }
                        return Err(EvalError::OutOfBounds);
                    }
                } else {
                    pc = pc + 1;
                }
            },
            Instruction::Clear => {
                tape.set(cur, 0);
                pc = pc + 1;
            },
            Instruction::ScanRight => {
                let b = tape[cur];
                if b != 0 {
                    if cur + 1 < TAPE_LEN {
                        cur = cur + 1;
                    } else {
                        proof {
                            steps = steps + 1;
                        }
                        return Err(EvalError::OutOfBounds);
                    }
                } else {
                    pc = pc + 1;
                }
            },
            Instruction::ScanLeft => {
                let b = tape[cur];
                if b != 0 {
                    if cur >= 1 {
                        cur = cur - 1;
                    } else {
                        proof {
                            steps = steps + 1;
                        }
                        return Err(EvalError::OutOfBounds);
                    }
                } else {
                    pc = pc + 1;
                }
            },
        }
        proof {
            assert(step(program@, pre) == Outcome::Running(
                MState { pc: pc as int, cur: cur as int, tape: tape@, out: out@ },
            ));
            steps = steps + 1;
        }
    }
    proof {
        assert(run_n(program@, steps + 1) == Outcome::Halted(out@));
    }
    Ok(out)
}

} // verus!
