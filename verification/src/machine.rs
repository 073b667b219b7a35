use vstd::prelude::*;

use crate::parser::targets_resolved;
use crate::token::Token;

verus! {

/// Number of cells on the tape.
pub const BUF_SIZE: usize = 30000;

/// The byte a read leaves behind at end of input in compiled programs.
pub const EOF: u8 = 0;

/// The line-feed byte.
pub const NEW_LINE: u8 = 10;

/// A failure detected while executing an operation sequence.
#[derive(Debug, PartialEq, Eq)]
pub enum RuntimeError {
    /// A dereference at a cursor outside `[0, BUF_SIZE)`; carries the cursor.
    PtrOutOfBounds(i32),
    /// A read was requested but the input stream is exhausted.
    OutOfInput,
    /// The input source or output sink failed at the transport level.
    IOError,
}

/// The tape: `BUF_SIZE` unsigned byte cells, zero-initialized per execution.
#[derive(Debug, PartialEq, Eq)]
pub struct Buffer(pub Vec<u8>);

/// Is `ptr` a valid cell index?
pub open spec fn in_bounds(ptr: int) -> bool {
    0 <= ptr < BUF_SIZE
}

impl Buffer {
    /// A full-length tape.
    pub open spec fn wf(&self) -> bool {
        self.0@.len() == BUF_SIZE
    }

    /// A zeroed tape.
    pub fn new() -> (r: Self)
        ensures
            r.wf(),
            forall|i: int| 0 <= i < BUF_SIZE ==> r.0@[i] == 0u8,
    {
        let mut cells: Vec<u8> = Vec::new();
        let mut i: usize = 0;
        while i < BUF_SIZE
            invariant
                i <= BUF_SIZE,
                cells@.len() == i,
                forall|k: int| 0 <= k < i ==> cells@[k] == 0u8,
            decreases BUF_SIZE - i,
        {
            cells.push(0);
            i += 1;
        }
        Buffer(cells)
    }

    fn bounds_check(&self, index: i32) -> (r: Option<usize>)
        ensures
            r == if in_bounds(index as int) {
                Some(index as usize)
            } else {
                None::<usize>
            },
    {
        if index < 0 || index >= BUF_SIZE as i32 {
            return None;
        }
        Some(index as usize)
    }

    /// Read access to the cell at `index`, or `None` out of bounds.
    pub fn get_checked(&self, index: i32) -> (r: Option<&u8>)
        requires
            self.wf(),
        ensures
            match r {
                Some(b) => in_bounds(index as int) && *b == self.0@[index as int],
                None => !in_bounds(index as int),
            },
    {
        let index = match self.bounds_check(index) {
            Some(i) => i,
            None => {
                return None;
            },
        };
        Some(&self.0[index])
    }

    /// Write access to the cell at `index`, or `None` out of bounds.
    pub fn get_mut_checked(&mut self, index: i32) -> (r: Option<&mut u8>)
        requires
            old(self).wf(),
        ensures
            match r {
                Some(b) => in_bounds(index as int) && *b == old(self).0@[index as int]
                    && final(self).0@ == old(self).0@.update(index as int, *final(b)),
                None => !in_bounds(index as int) && *final(self) == *old(self),
            },
    {
        let index = match self.bounds_check(index) {
            Some(i) => i,
            None => {
                return None;
            },
        };
        Some(&mut self.0[index])
    }
}

impl Default for Buffer {
    /// A zeroed tape.
    fn default() -> (r: Self)
        ensures
            r.wf(),
            forall|i: int| 0 <= i < BUF_SIZE ==> r.0@[i] == 0u8,
    {
        Self::new()
    }
}

/// The whole execution state: tape contents, cursor, instruction position,
/// count of input bytes consumed, and bytes emitted so far.
pub ghost struct MState {
    pub tape: Seq<u8>,
    pub ptr: int,
    pub pos: int,
    pub nread: int,
    pub out: Seq<u8>,
}

/// The state an execution starts from.
pub open spec fn init_state() -> MState {
    MState {
        tape: Seq::new(BUF_SIZE as nat, |i: int| 0u8),
        ptr: 0,
        pos: 0,
        nread: 0,
        out: Seq::empty(),
    }
}

/// 8-bit wraparound increment.
pub open spec fn wrap_inc(b: u8) -> u8 {
    if b == 255 {
        0
    } else {
        (b + 1) as u8
    }
}

/// 8-bit wraparound decrement.
pub open spec fn wrap_dec(b: u8) -> u8 {
    if b == 0 {
        255
    } else {
        (b - 1) as u8
    }
}

/// One step of the machine: either the next state or the error that aborts
/// the run. Meaningful when `0 <= s.pos < tokens.len()`.
pub ghost enum Step {
    Next(MState),
    Fail(RuntimeError),
}

/// Step semantics, dispatched on the current operation. Pointer motion is
/// never checked; every dereference is checked against the tape bounds.
pub open spec fn step(tokens: Seq<Token>, input: Seq<u8>, s: MState) -> Step {
    match tokens[s.pos] {
        Token::IncPtr => Step::Next(MState { ptr: s.ptr + 1, pos: s.pos + 1, ..s }),
        Token::DecPtr => Step::Next(MState { ptr: s.ptr - 1, pos: s.pos + 1, ..s }),
        Token::IncByte => if in_bounds(s.ptr) {
            Step::Next(
                MState {
                    tape: s.tape.update(s.ptr, wrap_inc(s.tape[s.ptr])),
                    pos: s.pos + 1,
                    ..s
                },
            )
        } else {
            Step::Fail(RuntimeError::PtrOutOfBounds(s.ptr as i32))
        },
        Token::DecByte => if in_bounds(s.ptr) {
            Step::Next(
                MState {
                    tape: s.tape.update(s.ptr, wrap_dec(s.tape[s.ptr])),
                    pos: s.pos + 1,
                    ..s
                },
            )
        } else {
            Step::Fail(RuntimeError::PtrOutOfBounds(s.ptr as i32))
        },
        Token::WriteByte => if in_bounds(s.ptr) {
            Step::Next(MState { out: s.out.push(s.tape[s.ptr]), pos: s.pos + 1, ..s })
        } else {
            Step::Fail(RuntimeError::PtrOutOfBounds(s.ptr as i32))
        },
        Token::ReadByte => if s.nread >= input.len() {
            Step::Fail(RuntimeError::OutOfInput)
        } else if in_bounds(s.ptr) {
            Step::Next(
                MState {
                    tape: s.tape.update(s.ptr, input[s.nread]),
                    nread: s.nread + 1,
                    pos: s.pos + 1,
                    ..s
                },
            )
        } else {
            Step::Fail(RuntimeError::PtrOutOfBounds(s.ptr as i32))
        },
        Token::LoopStart(end) => if in_bounds(s.ptr) {
            if s.tape[s.ptr] == 0 {
                Step::Next(MState { pos: end + 1, ..s })
            } else {
                Step::Next(MState { pos: s.pos + 1, ..s })
            }
        } else {
            Step::Fail(RuntimeError::PtrOutOfBounds(s.ptr as i32))
        },
        Token::LoopEnd(start) => Step::Next(MState { pos: start as int, ..s }),
    }
}

/// The outcome of a finished run: a halt at the end of the sequence, or the
/// error together with the state it arose in.
pub ghost enum Run {
    Halts(MState),
    Fails(RuntimeError, MState),
}

/// Run the machine for at most `fuel` steps; `None` when `fuel` ran out
/// before the machine halted or failed.
pub open spec fn run(tokens: Seq<Token>, input: Seq<u8>, s: MState, fuel: nat) -> Option<Run>
    decreases fuel,
{
    if s.pos >= tokens.len() {
        Some(Run::Halts(s))
    } else if fuel == 0 {
        None
    } else {
        match step(tokens, input, s) {
            Step::Next(s2) => run(tokens, input, s2, (fuel - 1) as nat),
            Step::Fail(e) => Some(Run::Fails(e, s)),
        }
    }
}

/// The cursor strays from the tape by at most the straight-line distance the
/// program can cover between two dereferences, which every loop iteration
/// passes through.
pub open spec fn cursor_in_frame(tokens: Seq<Token>, s: MState) -> bool {
    &&& s.ptr <= BUF_SIZE - 1 + tokens.len()
    &&& s.ptr >= -1 - tokens.len()
    &&& (0 <= s.pos < tokens.len() && !(tokens[s.pos] is LoopStart)) ==> (s.ptr <= BUF_SIZE - 1
        + s.pos && s.ptr >= -1 - s.pos)
}

/// More fuel never changes a finished outcome: the machine is deterministic,
/// so whatever `run` finishes with at one fuel it finishes with at any larger
/// fuel, and the outcome `interpret` promises is the only one reachable.
pub proof fn lemma_run_mono(tokens: Seq<Token>, input: Seq<u8>, s: MState, n1: nat, n2: nat)
    requires
        n1 <= n2,
        run(tokens, input, s, n1) is Some,
    ensures
        run(tokens, input, s, n2) == run(tokens, input, s, n1),
    decreases n1,
{
    if s.pos >= tokens.len() {
    } else {
        match step(tokens, input, s) {
            Step::Next(s2) => {
                lemma_run_mono(tokens, input, s2, (n1 - 1) as nat, (n2 - 1) as nat);
            },
            Step::Fail(e) => {},
        }
    }
}

/// After `k` steps carried the machine from `s0` to `s1`, one more step to
/// `s2` extends every continuation of the run accordingly.
proof fn lemma_run_step(
    tokens: Seq<Token>,
    input: Seq<u8>,
    s0: MState,
    s1: MState,
    s2: MState,
    k: nat,
)
    requires
        forall|m: nat| run(tokens, input, s0, (k + m) as nat) == #[trigger] run(
            tokens,
            input,
            s1,
            m,
        ),
        0 <= s1.pos < tokens.len(),
        step(tokens, input, s1) == Step::Next(s2),
    ensures
        forall|m: nat| run(tokens, input, s0, (k + 1 + m) as nat) == #[trigger] run(
            tokens,
            input,
            s2,
            m,
        ),
{
    assert forall|m: nat| run(tokens, input, s0, (k + 1 + m) as nat) == #[trigger] run(
        tokens,
        input,
        s2,
        m,
    ) by {
        assert(run(tokens, input, s1, (1 + m) as nat) == run(tokens, input, s2, m));
        assert(run(tokens, input, s0, (k + (1 + m)) as nat) == run(tokens, input, s1, (1
            + m) as nat));
    }
}

/// Execute an operation sequence against `input`, appending every emitted
/// byte to `output`. Returns the final tape, or the error that aborted the
/// run. The result is exactly what the step machine reaches from the zeroed
/// initial state: some fuel suffices to run it to that halt or failure.
pub fn interpret(tokens: &Vec<Token>, input: &[u8], output: &mut Vec<u8>) -> (r: Result<
    Buffer,
    RuntimeError,
>)
    requires
        targets_resolved(tokens@),
        tokens@.len() + BUF_SIZE <= i32::MAX,
        // the run ends within as many steps as a machine word can count
        exists|n: nat| n <= u64::MAX && (#[trigger] run(tokens@, input@, init_state(), n)) is Some,
    ensures
        match r {
            Ok(buf) => buf.wf() && exists|n: nat|
                match #[trigger] run(tokens@, input@, init_state(), n) {
                    Some(Run::Halts(s)) => buf.0@ == s.tape && final(output)@ == old(output)@
                        + s.out,
                    _ => false,
                },
            Err(e) => exists|n: nat|
                match #[trigger] run(tokens@, input@, init_state(), n) {
                    Some(Run::Fails(e2, s)) => e2 == e && final(output)@ == old(output)@ + s.out,
                    _ => false,
                },
        },
        // in-memory streams never fail at the transport level
        r != Err::<Buffer, RuntimeError>(RuntimeError::IOError),
{
    let ghost t = tokens@;
    let ghost inp = input@;

    // the tape
    let mut buf: Buffer = Buffer::new();
    // the cursor; dereferences bounds-check it, pointer motion does not
    let mut ptr: i32 = 0;
    // instruction position
    let mut pos: usize = 0;
    // input bytes consumed so far
    let mut in_pos: usize = 0;

    // steps taken so far; the run ends before this can saturate
    let mut steps: u64 = 0;

    let ghost mut cur: MState = init_state();

    proof {
        assert(buf.0@ =~= init_state().tape);
    }

    while pos < tokens.len()
        invariant
            t == tokens@,
            inp == input@,
            targets_resolved(t),
            t.len() + BUF_SIZE <= i32::MAX,
            exists|n: nat| n <= u64::MAX && (#[trigger] run(t, inp, init_state(), n)) is Some,
            buf.wf(),
            cur.tape == buf.0@,
            cur.ptr == ptr as int,
            cur.pos == pos as int,
            pos <= t.len(),
            cur.nread == in_pos as int,
            in_pos <= inp.len(),
            output@ == old(output)@ + cur.out,
            cursor_in_frame(t, cur),
            forall|m: nat| run(t, inp, init_state(), steps as nat + m) == #[trigger] run(
                t,
                inp,
                cur,
                m,
            ),
        decreases u64::MAX - steps,
    {
        let ghost fuel: nat = steps as nat;
        proof {
            // still running, so the promised end of the run is still ahead
            assert(run(t, inp, cur, 0) is None);
            assert(run(t, inp, init_state(), fuel + 0nat) == run(t, inp, cur, 0nat));
            let n0 = choose|n: nat|
                n <= u64::MAX && (#[trigger] run(t, inp, init_state(), n)) is Some;
            if n0 <= fuel {
                lemma_run_mono(t, inp, init_state(), n0, fuel);
            }
            assert(steps < u64::MAX);
        }
        let token = &tokens[pos];

        match token {
            Token::IncPtr => {
                proof {
                    let next = MState { ptr: cur.ptr + 1, pos: cur.pos + 1, ..cur };
                    lemma_run_step(t, inp, init_state(), cur, next, fuel);
                    cur = next;
                }
                ptr = ptr + 1;
                pos = pos + 1;
                steps = steps + 1;
            },
            Token::DecPtr => {
                proof {
                    let next = MState { ptr: cur.ptr - 1, pos: cur.pos + 1, ..cur };
                    lemma_run_step(t, inp, init_state(), cur, next, fuel);
                    cur = next;
                }
                ptr = ptr - 1;
                pos = pos + 1;
                steps = steps + 1;
            },
            Token::IncByte => {
                if let Some(byte) = buf.get_mut_checked(ptr) {
                    *byte = byte.wrapping_add(1);
                } else {
                    proof {
                        assert(run(t, inp, cur, 1) == Some(
                            Run::Fails(RuntimeError::PtrOutOfBounds(ptr), cur),
                        ));
                        assert(run(t, inp, init_state(), (fuel + 1) as nat) == run(t, inp, cur, 1));
                    }
                    return Err(RuntimeError::PtrOutOfBounds(ptr));
                }
                proof {
                    let next = MState {
                        tape: cur.tape.update(cur.ptr, wrap_inc(cur.tape[cur.ptr])),
                        pos: cur.pos + 1,
                        ..cur
                    };
                    lemma_run_step(t, inp, init_state(), cur, next, fuel);
                    cur = next;
                }
                pos = pos + 1;
                steps = steps + 1;
            },
            Token::DecByte => {
                if let Some(byte) = buf.get_mut_checked(ptr) {
                    *byte = byte.wrapping_sub(1);
                } else {
                    proof {
                        assert(run(t, inp, cur, 1) == Some(
                            Run::Fails(RuntimeError::PtrOutOfBounds(ptr), cur),
                        ));
                        assert(run(t, inp, init_state(), (fuel + 1) as nat) == run(t, inp, cur, 1));
                    }
                    return Err(RuntimeError::PtrOutOfBounds(ptr));
                }
                proof {
                    let next = MState {
                        tape: cur.tape.update(cur.ptr, wrap_dec(cur.tape[cur.ptr])),
                        pos: cur.pos + 1,
                        ..cur
                    };
                    lemma_run_step(t, inp, init_state(), cur, next, fuel);
                    cur = next;
                }
                pos = pos + 1;
                steps = steps + 1;
            },
            Token::WriteByte => {
                if let Some(byte) = buf.get_checked(ptr) {
                    output.push(*byte);
                } else {
                    proof {
                        assert(run(t, inp, cur, 1) == Some(
                            Run::Fails(RuntimeError::PtrOutOfBounds(ptr), cur),
                        ));
                        assert(run(t, inp, init_state(), (fuel + 1) as nat) == run(t, inp, cur, 1));
                    }
                    return Err(RuntimeError::PtrOutOfBounds(ptr));
                }
                proof {
                    let next = MState { out: cur.out.push(cur.tape[cur.ptr]), pos: cur.pos + 1, ..cur };
                    lemma_run_step(t, inp, init_state(), cur, next, fuel);
                    cur = next;
                }
                pos = pos + 1;
                steps = steps + 1;
            },
            Token::ReadByte => {
                if in_pos >= input.len() {
                    proof {
                        assert(run(t, inp, cur, 1) == Some(
                            Run::Fails(RuntimeError::OutOfInput, cur),
                        ));
                        assert(run(t, inp, init_state(), (fuel + 1) as nat) == run(t, inp, cur, 1));
                    }
                    return Err(RuntimeError::OutOfInput);
                }
                let ch = input[in_pos];
                in_pos = in_pos + 1;
                if let Some(byte) = buf.get_mut_checked(ptr) {
                    *byte = ch;
                } else {
                    proof {
                        assert(run(t, inp, cur, 1) == Some(
                            Run::Fails(RuntimeError::PtrOutOfBounds(ptr), cur),
                        ));
                        assert(run(t, inp, init_state(), (fuel + 1) as nat) == run(t, inp, cur, 1));
                    }
                    return Err(RuntimeError::PtrOutOfBounds(ptr));
                }
                proof {
                    let next = MState {
                        tape: cur.tape.update(cur.ptr, inp[cur.nread]),
                        nread: cur.nread + 1,
                        pos: cur.pos + 1,
                        ..cur
                    };
                    lemma_run_step(t, inp, init_state(), cur, next, fuel);
                    cur = next;
                }
                pos = pos + 1;
                steps = steps + 1;
            },
            Token::LoopStart(end) => {
                let target: usize = *end;
                if let Some(byte) = buf.get_checked(ptr) {
                    proof {
                        assert(t[cur.pos] == Token::LoopStart(target));
                        assert(target < t.len());
                    }
                    if *byte == 0 {
                        // skip the loop entirely
                        proof {
                            let next = MState { pos: target + 1, ..cur };
                            lemma_run_step(t, inp, init_state(), cur, next, fuel);
                            cur = next;
                        }
                        pos = target + 1;
                        steps = steps + 1;
                    } else {
                        // the loop body follows in sequence
                        proof {
                            let next = MState { pos: cur.pos + 1, ..cur };
                            lemma_run_step(t, inp, init_state(), cur, next, fuel);
                            cur = next;
                        }
                        pos = pos + 1;
                        steps = steps + 1;
                    }
                } else {
                    proof {
                        assert(run(t, inp, cur, 1) == Some(
                            Run::Fails(RuntimeError::PtrOutOfBounds(ptr), cur),
                        ));
                        assert(run(t, inp, init_state(), (fuel + 1) as nat) == run(t, inp, cur, 1));
                    }
                    return Err(RuntimeError::PtrOutOfBounds(ptr));
                }
            },
            Token::LoopEnd(start) => {
                let target: usize = *start;
                proof {
                    assert(t[cur.pos] == Token::LoopEnd(target));
                    assert(t[target as int] == Token::LoopStart(pos as usize));
                    let next = MState { pos: target as int, ..cur };
                    lemma_run_step(t, inp, init_state(), cur, next, fuel);
                    cur = next;
                }
                // re-test the condition at the matching loop-start
                pos = target;
                steps = steps + 1;
            },
        }
    }

    proof {
        assert(run(t, inp, cur, 0) == Some(Run::Halts(cur)));
        assert(run(t, inp, init_state(), steps as nat + 0nat) == run(t, inp, cur, 0nat));
        assert(run(t, inp, init_state(), steps as nat) == Some(Run::Halts(cur)));
    }

    Ok(buf)
}

} // verus!
