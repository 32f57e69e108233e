//! The executor: walking an instruction tree against the machine state.

use vstd::prelude::*;
use crate::instruction::{Instruction, SpecInst, view_insts};

verus! {

/// The number of cells on the tape.
pub const TAPE_LENGTH: usize = 24576;

/// The cell the cursor points at before the first instruction runs.
pub const INITIAL_CURSOR: usize = 12288;

/// A fatal runtime condition; each one aborts the run immediately, keeping
/// whatever output was already produced.
#[derive(Clone, Copy, Debug, PartialEq, Eq, Structural)]
pub enum RunError {
    /// The cursor would move below cell zero or past the last cell.
    CursorOutOfBounds,
    /// An input instruction found the input stream exhausted.
    InputExhausted,
    /// The fuel bound was spent before the run finished, so the run was cut
    /// short: with more fuel it would have gone on.
    OutOfFuel,
}

/// The machine state as mathematics: the tape of byte cells, the cursor into
/// it, the input bytes not yet consumed, and the output bytes produced so
/// far.
pub struct State {
    pub tape: Seq<u8>,
    pub cursor: int,
    pub input: Seq<u8>,
    pub output: Seq<u8>,
}

/// A state whose cursor lies on the tape.
pub open spec fn wf_state(st: State) -> bool {
    0 <= st.cursor < st.tape.len()
}

/// What a run comes to: the final state, a fault and the state at that
/// fault, or the fuel bound cut the run short before either.
pub enum Outcome {
    Done(State),
    Fail(RunError, State),
    OutOfFuel,
}

/// A cell incremented, wrapping modulo 256.
pub open spec fn wrap_inc(b: u8) -> u8 {
    if b == 255 {
        0
    } else {
        (b + 1) as u8
    }
}

/// A cell decremented, wrapping modulo 256.
pub open spec fn wrap_dec(b: u8) -> u8 {
    if b == 0 {
        255
    } else {
        (b - 1) as u8
    }
}

/// The semantics of the language: what running `prog` from instruction `i`
/// onward does to state `st`.
///
/// Each instruction acts in order: the pointer instructions move the cursor,
/// and a step off either end of the tape is a fault; the cell instructions
/// wrap modulo 256; output appends the current cell to the output sequence;
/// input consumes the next input byte into the current cell, and an empty
/// input stream is a fault. A loop tests the current cell before each pass,
/// runs its body once if the cell is nonzero, and then tests again. Since a
/// loop need not terminate, each pass consumes one unit of fuel, and a run
/// that would go on with no fuel left is cut short with `OutOfFuel`.
pub open spec fn run_from(prog: Seq<SpecInst>, i: int, st: State, fuel: nat) -> Outcome
    decreases fuel, prog.len() - i,
        when 0 <= i <= prog.len()
{
    if i == prog.len() {
        Outcome::Done(st)
    } else {
        match prog[i] {
            SpecInst::IncrementPointer => {
                if st.cursor + 1 < st.tape.len() {
                    run_from(prog, i + 1, State { cursor: st.cursor + 1, ..st }, fuel)
                } else {
                    Outcome::Fail(RunError::CursorOutOfBounds, st)
                }
            },
            SpecInst::DecrementPointer => {
                if st.cursor >= 1 {
                    run_from(prog, i + 1, State { cursor: st.cursor - 1, ..st }, fuel)
                } else {
                    Outcome::Fail(RunError::CursorOutOfBounds, st)
                }
            },
            SpecInst::Increment => run_from(
                prog,
                i + 1,
                State { tape: st.tape.update(st.cursor, wrap_inc(st.tape[st.cursor])), ..st },
                fuel,
            ),
            SpecInst::Decrement => run_from(
                prog,
                i + 1,
                State { tape: st.tape.update(st.cursor, wrap_dec(st.tape[st.cursor])), ..st },
                fuel,
            ),
            SpecInst::Output => run_from(
                prog,
                i + 1,
                State { output: st.output.push(st.tape[st.cursor]), ..st },
                fuel,
            ),
            SpecInst::Input => {
                if st.input.len() == 0 {
                    Outcome::Fail(RunError::InputExhausted, st)
                } else {
                    run_from(
                        prog,
                        i + 1,
                        State {
                            tape: st.tape.update(st.cursor, st.input[0]),
                            input: st.input.drop_first(),
                            ..st
                        },
                        fuel,
                    )
                }
            },
            SpecInst::Loop(body) => {
                if st.tape[st.cursor] == 0 {
                    run_from(prog, i + 1, st, fuel)
                } else if fuel == 0 {
                    Outcome::OutOfFuel
                } else {
                    match run_from(body, 0, st, (fuel - 1) as nat) {
                        Outcome::Done(st2) => run_from(prog, i, st2, (fuel - 1) as nat),
                        other => other,
                    }
                }
            },
        }
    }
}

/// What running a whole program does to a state, within a fuel bound on loop
/// passes.
pub open spec fn spec_run(prog: Seq<SpecInst>, st: State, fuel: nat) -> Outcome {
    run_from(prog, 0, st, fuel)
}

/// The state every run starts from: a zeroed tape of `TAPE_LENGTH` cells,
/// the cursor at `INITIAL_CURSOR`, the given input still unread, and no
/// output yet.
pub open spec fn initial_state(input: Seq<u8>) -> State {
    State {
        tape: Seq::new(TAPE_LENGTH as nat, |j: int| 0u8),
        cursor: INITIAL_CURSOR as int,
        input,
        output: Seq::empty(),
    }
}

/// The execution state: the tape and the cursor into it, together with the
/// modeled console streams — the input bytes (of which the first `consumed`
/// are already read) and the output bytes produced so far.
pub struct Machine {
    pub tape: Vec<u8>,
    pub cursor: usize,
    pub input: Vec<u8>,
    pub consumed: usize,
    pub output: Vec<u8>,
}

impl Machine {
    /// The cursor lies on the tape and the consumed prefix lies within the
    /// input.
    pub open spec fn wf(self) -> bool {
        &&& self.cursor < self.tape@.len()
        &&& self.consumed <= self.input@.len()
    }
}

impl View for Machine {
    type V = State;

    open spec fn view(&self) -> State {
        State {
            tape: self.tape@,
            cursor: self.cursor as int,
            input: self.input@.skip(self.consumed as int),
            output: self.output@,
        }
    }
}

impl Machine {
    /// A fresh machine in the initial state, with the given bytes as its
    /// input stream.
    pub fn new(input: Vec<u8>) -> (m: Machine)
        ensures
            m.wf(),
            m@ == initial_state(input@),
    {
        let mut tape: Vec<u8> = Vec::new();
        let mut j: usize = 0;
        while j < TAPE_LENGTH
            invariant
                j <= TAPE_LENGTH,
                tape@ =~= Seq::new(j as nat, |k: int| 0u8),
            decreases TAPE_LENGTH - j,
        {
            tape.push(0u8);
            j = j + 1;
        }
        let m = Machine { tape, cursor: INITIAL_CURSOR, input, consumed: 0, output: Vec::new() };
        proof {
            assert(m@.input =~= m.input@);
            assert(m@.output =~= Seq::<u8>::empty());
        }
        m
    }
}

/// Apply each instruction of `instructions` in order to the machine,
/// re-entering loop bodies while their tested cell is nonzero, within a
/// bound of `fuel` loop passes. The result and the machine afterward are
/// exactly what the semantics [`spec_run`] assigns to the starting state:
/// `Ok` and the final state, or the first fault and the state at that fault
/// (output already produced stays), or `OutOfFuel` when the bound was spent
/// first.
pub fn run(instructions: &Vec<Instruction>, m: &mut Machine, fuel: u64) -> (r: Result<
    (),
    RunError,
>)
    requires
        old(m).wf(),
    ensures
        final(m).wf(),
        match spec_run(view_insts(instructions@), old(m)@, fuel as nat) {
            Outcome::Done(st) => r == Ok::<(), RunError>(()) && final(m)@ == st,
            Outcome::Fail(e, st) => r == Err::<(), RunError>(e) && final(m)@ == st,
            Outcome::OutOfFuel => r == Err::<(), RunError>(RunError::OutOfFuel),
        },
    decreases fuel,
{
    let ghost prog = view_insts(instructions@);
    let ghost st0 = old(m)@;
    let n = instructions.len();
    let mut i: usize = 0;
    let mut fuel_left: u64 = fuel;
    while i < n
        invariant
            n == instructions@.len(),
            i <= n,
            fuel_left <= fuel,
            m.wf(),
            prog == view_insts(instructions@),
            st0 == old(m)@,
            run_from(prog, 0, st0, fuel as nat) == run_from(
                prog,
                i as int,
                m@,
                fuel_left as nat,
            ),
        decreases n - i,
    {
        match &instructions[i] {
            Instruction::IncrementPointer => {
                if m.cursor < m.tape.len() - 1 {
                    m.cursor = m.cursor + 1;
                } else {
                    return Err(RunError::CursorOutOfBounds);
                }
            },
            Instruction::DecrementPointer => {
                if m.cursor >= 1 {
                    m.cursor = m.cursor - 1;
                } else {
                    return Err(RunError::CursorOutOfBounds);
                }
            },
            Instruction::Increment => {
                let b = m.tape[m.cursor];
                let nb = if b == 255 {
                    0
                } else {
                    b + 1
                };
                m.tape[m.cursor] = nb;
            },
            Instruction::Decrement => {
                let b = m.tape[m.cursor];
                let nb = if b == 0 {
                    255
                } else {
                    b - 1
                };
                m.tape[m.cursor] = nb;
            },
            Instruction::Output => {
                let b = m.tape[m.cursor];
                m.output.push(b);
            },
            Instruction::Input => {
                if m.consumed < m.input.len() {
                    let ghost before = m@;
                    let b = m.input[m.consumed];
                    m.consumed = m.consumed + 1;
                    m.tape[m.cursor] = b;
                    proof {
                        assert(before.input[0] == b);
                        assert(m@.input =~= before.input.drop_first());
                    }
                } else {
                    proof {
                        assert(m@.input.len() == 0);
                    }
                    return Err(RunError::InputExhausted);
                }
            },
            Instruction::Loop(body) => {
                while m.tape[m.cursor] != 0
                    invariant
                        n == instructions@.len(),
                        i < n,
                        fuel_left <= fuel,
                        m.wf(),
                        prog == view_insts(instructions@),
                        st0 == old(m)@,
                        instructions@[i as int] matches Instruction::Loop(b) && body == &b,
                        run_from(prog, 0, st0, fuel as nat) == run_from(
                            prog,
                            i as int,
                            m@,
                            fuel_left as nat,
                        ),
                    decreases fuel_left,
                {
                    if fuel_left == 0 {
                        return Err(RunError::OutOfFuel);
                    }
                    match run(body, m, fuel_left - 1) {
                        Ok(()) => {
                            fuel_left = fuel_left - 1;
                        },
                        Err(e) => {
                            return Err(e);
                        },
                    }
                }
            },
        }
        i = i + 1;
    }
    Ok(())
}

/// Run a structured program on a fresh machine that reads from the given
/// input bytes, within a bound of `fuel` loop passes. Returns the machine —
/// its `output` holds every byte the program emitted, even when a fault cut
/// the run short — together with the verdict of [`run`].
pub fn execute(instructions: &Vec<Instruction>, input: Vec<u8>, fuel: u64) -> (r: (
    Machine,
    Result<(), RunError>,
))
    ensures
        r.0.wf(),
        match spec_run(view_insts(instructions@), initial_state(input@), fuel as nat) {
            Outcome::Done(st) => r.1 == Ok::<(), RunError>(()) && r.0@ == st,
            Outcome::Fail(e, st) => r.1 == Err::<(), RunError>(e) && r.0@ == st,
            Outcome::OutOfFuel => r.1 == Err::<(), RunError>(RunError::OutOfFuel),
        },
{
    let mut m = Machine::new(input);
    let result = run(instructions, &mut m, fuel);
    (m, result)
}

/// Fuel only cuts runs short, never changes them: a run from instruction `i`
/// that finishes or faults within some budget does exactly the same within
/// any larger budget.
pub proof fn lemma_run_from_fuel_monotonic(
    prog: Seq<SpecInst>,
    i: int,
    st: State,
    f1: nat,
    f2: nat,
)
    requires
        0 <= i <= prog.len(),
        f1 <= f2,
        !(run_from(prog, i, st, f1) is OutOfFuel),
    ensures
        run_from(prog, i, st, f2) == run_from(prog, i, st, f1),
    decreases f1, prog.len() - i,
{
    if i < prog.len() {
        match prog[i] {
            SpecInst::IncrementPointer => {
                if st.cursor + 1 < st.tape.len() {
                    lemma_run_from_fuel_monotonic(
                        prog,
                        i + 1,
                        State { cursor: st.cursor + 1, ..st },
                        f1,
                        f2,
                    );
                }
            },
            SpecInst::DecrementPointer => {
                if st.cursor >= 1 {
                    lemma_run_from_fuel_monotonic(
                        prog,
                        i + 1,
                        State { cursor: st.cursor - 1, ..st },
                        f1,
                        f2,
                    );
                }
            },
            SpecInst::Increment => {
                lemma_run_from_fuel_monotonic(
                    prog,
                    i + 1,
                    State { tape: st.tape.update(st.cursor, wrap_inc(st.tape[st.cursor])), ..st },
                    f1,
                    f2,
                );
            },
            SpecInst::Decrement => {
                lemma_run_from_fuel_monotonic(
                    prog,
                    i + 1,
                    State { tape: st.tape.update(st.cursor, wrap_dec(st.tape[st.cursor])), ..st },
                    f1,
                    f2,
                );
            },
            SpecInst::Output => {
                lemma_run_from_fuel_monotonic(
                    prog,
                    i + 1,
                    State { output: st.output.push(st.tape[st.cursor]), ..st },
                    f1,
                    f2,
                );
            },
            SpecInst::Input => {
                if st.input.len() > 0 {
                    lemma_run_from_fuel_monotonic(
                        prog,
                        i + 1,
                        State {
                            tape: st.tape.update(st.cursor, st.input[0]),
                            input: st.input.drop_first(),
                            ..st
                        },
                        f1,
                        f2,
                    );
                }
            },
            SpecInst::Loop(body) => {
                if st.tape[st.cursor] == 0 {
                    lemma_run_from_fuel_monotonic(prog, i + 1, st, f1, f2);
                } else {
                    lemma_run_from_fuel_monotonic(body, 0, st, (f1 - 1) as nat, (f2 - 1) as nat);
                    match run_from(body, 0, st, (f1 - 1) as nat) {
                        Outcome::Done(st2) => {
                            lemma_run_from_fuel_monotonic(
                                prog,
                                i,
                                st2,
                                (f1 - 1) as nat,
                                (f2 - 1) as nat,
                            );
                        },
                        _ => {},
                    }
                }
            },
        }
    }
}

/// Fuel only bounds how long a run may go on: a whole program whose run
/// finishes or faults within some budget does exactly the same within any
/// larger budget, so a budget that proved too small can simply be raised.
pub proof fn lemma_spec_run_fuel_monotonic(prog: Seq<SpecInst>, st: State, f1: nat, f2: nat)
    requires
        f1 <= f2,
        !(spec_run(prog, st, f1) is OutOfFuel),
    ensures
        spec_run(prog, st, f2) == spec_run(prog, st, f1),
{
    lemma_run_from_fuel_monotonic(prog, 0, st, f1, f2);
}

/// A loop whose tested cell is zero runs its body zero times: control passes
/// to the instruction after the loop with the state — output included —
/// unchanged, whatever the body holds and with no fuel spent.
pub proof fn lemma_loop_on_zero_cell_is_skipped(
    prog: Seq<SpecInst>,
    i: int,
    st: State,
    fuel: nat,
)
    requires
        0 <= i < prog.len(),
        prog[i] is Loop,
        wf_state(st),
        st.tape[st.cursor] == 0,
    ensures
        run_from(prog, i, st, fuel) == run_from(prog, i + 1, st, fuel),
{
}

} // verus!
