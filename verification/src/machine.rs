//! The tape machine that both program forms run on.
//!
//! [`State`] is the mathematical machine: a program counter, a cursor and a
//! tape of unbounded length. [`Machine`] is the executable one, whose view is
//! a `State`. One run of a program against an input stream is a [`Run`].
use vstd::prelude::*;

verus! {

/// A byte value brought into the range of a cell, modulo 256.
pub open spec fn wrap(v: int) -> u8 {
    (v % 256) as u8
}

/// `tape`, with zero cells appended until it has at least `len` cells.
pub open spec fn grown(tape: Seq<u8>, len: int) -> Seq<u8> {
    if len <= tape.len() {
        tape
    } else {
        tape + Seq::new((len - tape.len()) as nat, |i: int| 0u8)
    }
}

/// The machine between two steps.
pub struct State {
    /// The index of the instruction to execute next.
    pub pc: int,
    /// The index of the current cell.
    pub cursor: int,
    /// The cells.
    pub tape: Seq<u8>,
}

impl State {
    /// The machine before the first step: one zero cell, everything at 0.
    pub open spec fn initial() -> State {
        State { pc: 0, cursor: 0, tape: seq![0u8] }
    }

    /// The cursor addresses a cell of the tape.
    pub open spec fn wf(self) -> bool {
        0 <= self.pc && 0 <= self.cursor < self.tape.len()
    }

    /// The value of the current cell.
    pub open spec fn cell(self) -> u8 {
        self.tape[self.cursor]
    }

    /// The cursor moved `n` cells to the right, the tape grown by as many
    /// zero cells as it takes to hold the new position.
    pub open spec fn right(self, n: int) -> State {
        State { cursor: self.cursor + n, tape: grown(self.tape, self.cursor + n + 1), ..self }
    }

    /// The cursor moved `n` cells to the left.
    pub open spec fn left(self, n: int) -> State {
        State { cursor: self.cursor - n, ..self }
    }

    /// `n` added to the current cell, modulo 256.
    pub open spec fn incr(self, n: int) -> State {
        State { tape: self.tape.update(self.cursor, wrap(self.cell() + n)), ..self }
    }

    /// `n` subtracted from the current cell, modulo 256.
    pub open spec fn decr(self, n: int) -> State {
        State { tape: self.tape.update(self.cursor, wrap(self.cell() - n)), ..self }
    }

    /// `b` written into the current cell.
    pub open spec fn store(self, b: u8) -> State {
        State { tape: self.tape.update(self.cursor, b), ..self }
    }

    /// The program counter set to `pc`.
    pub open spec fn goto(self, pc: int) -> State {
        State { pc, ..self }
    }
}

/// What a step asks of whoever drives the machine.
#[derive(Clone, Copy, Debug, PartialEq, Eq, Structural)]
pub enum Action {
    /// Nothing: take the next step.
    Continue,
    /// Write this byte to the output, then take the next step.
    Output(u8),
    /// Read one byte of input and repeat the step with it. The machine has
    /// not moved.
    Input,
    /// The program counter has passed the last instruction. The machine has
    /// not moved and will not move again.
    Finished,
    /// The cursor was asked to move left of the first cell. The machine has
    /// not moved and will not move again.
    LeftBoundary,
}

/// How far a run has come.
#[derive(Clone, Copy, Debug, PartialEq, Eq, Structural)]
pub enum Status {
    /// The machine can take another step.
    Running,
    /// The program counter has passed the last instruction.
    Finished,
    /// The cursor was asked to move left of the first cell.
    LeftBoundary,
    /// The program asks for input and the input stream has no byte left.
    InputExhausted,
}

/// The status of a run whose next step, taken without input, asks for
/// `act`; `more_input` says whether the input stream has a byte left.
pub open spec fn status_of(act: Action, more_input: bool) -> Status {
    match act {
        Action::Finished => Status::Finished,
        Action::LeftBoundary => Status::LeftBoundary,
        Action::Input => if more_input {
            Status::Running
        } else {
            Status::InputExhausted
        },
        _ => Status::Running,
    }
}

/// A run in progress: the machine, how many input bytes it has read and
/// what it has written.
pub struct Run {
    /// The machine.
    pub state: State,
    /// The number of input bytes read so far.
    pub consumed: nat,
    /// The bytes written so far.
    pub output: Seq<u8>,
}

impl Run {
    /// A run before its first step.
    pub open spec fn start() -> Run {
        Run { state: State::initial(), consumed: 0, output: Seq::empty() }
    }

    /// The byte the run would read next, if the input still has one.
    pub open spec fn next_input(self, input: Seq<u8>) -> Option<u8> {
        if self.consumed < input.len() {
            Some(input[self.consumed as int])
        } else {
            None
        }
    }
}

/// What a bounded run hands back.
#[derive(Debug)]
pub struct Outcome {
    /// The bytes written, in order.
    pub output: Vec<u8>,
    /// Where the run stood when it returned. `Running` says that the step
    /// limit cut it short.
    pub status: Status,
}

/// The executable machine.
#[derive(Debug)]
pub struct Machine {
    pc: usize,
    sp: usize,
    tape: Vec<u8>,
}

impl View for Machine {
    type V = State;

    closed spec fn view(&self) -> State {
        State { pc: self.pc as int, cursor: self.sp as int, tape: self.tape@ }
    }
}

impl Machine {
    /// A machine before its first step.
    pub fn new() -> (m: Machine)
        ensures
            m@ == State::initial(),
    {
        let mut tape: Vec<u8> = Vec::new();
        tape.push(0u8);
        assert(tape@ =~= seq![0u8]);
        Machine { pc: 0, sp: 0, tape }
    }

    /// An executable machine is a finite one.
    pub proof fn lemma_fits(&self)
        ensures
            self@.pc <= usize::MAX,
            self@.cursor <= usize::MAX,
            self@.tape.len() <= usize::MAX,
    {
        assert(self.tape.len() == self.tape@.len());
    }

    /// The index of the instruction to execute next.
    pub fn pc(&self) -> (r: usize)
        ensures
            r == self@.pc,
    {
        self.pc
    }

    /// The index of the current cell.
    pub fn cursor(&self) -> (r: usize)
        ensures
            r == self@.cursor,
    {
        self.sp
    }

    /// The value of the current cell.
    pub fn cell(&self) -> (r: u8)
        requires
            self@.wf(),
        ensures
            r == self@.cell(),
    {
        self.tape[self.sp]
    }

    /// The cells.
    pub fn tape(&self) -> (r: &Vec<u8>)
        ensures
            r@ == self@.tape,
    {
        &self.tape
    }

    /// Sets the program counter.
    pub(crate) fn goto(&mut self, pc: usize)
        ensures
            final(self)@ == old(self)@.goto(pc as int),
    {
        self.pc = pc;
    }

    /// Moves the cursor `n` cells to the right and grows the tape under it.
    pub(crate) fn shift_right(&mut self, n: usize)
        requires
            old(self)@.wf(),
            old(self)@.cursor + n <= usize::MAX,
        ensures
            final(self)@ == old(self)@.right(n as int),
            final(self)@.wf(),
    {
        let ghost before = self.tape@;
        self.sp = self.sp + n;
        while self.tape.len() <= self.sp
            invariant
                self.pc == old(self).pc,
                self.sp == old(self).sp + n,
                before.len() <= self.tape.len(),
                self.tape.len() == before.len() || self.tape.len() <= self.sp + 1,
                self.tape@ =~= before + Seq::new(
                    (self.tape.len() - before.len()) as nat,
                    |i: int| 0u8,
                ),
            decreases self.sp + 1 - self.tape.len(),
        {
            self.tape.push(0u8);
        }
        assert(self.tape@ =~= grown(before, self.sp + 1));
    }

    /// Moves the cursor `n` cells to the left.
    pub(crate) fn shift_left(&mut self, n: usize)
        requires
            old(self)@.wf(),
            n <= old(self)@.cursor,
        ensures
            final(self)@ == old(self)@.left(n as int),
            final(self)@.wf(),
    {
        self.sp = self.sp - n;
    }

    /// Adds `n` to the current cell, modulo 256.
    pub(crate) fn incr(&mut self, n: usize)
        requires
            old(self)@.wf(),
        ensures
            final(self)@ == old(self)@.incr(n as int),
            final(self)@.wf(),
    {
        let cell: usize = self.tape[self.sp] as usize;
        let sum: usize = (cell + n % 256) % 256;
        assert(sum == (cell + n) % 256);
        self.tape.set(self.sp, sum as u8);
    }

    /// Subtracts `n` from the current cell, modulo 256.
    pub(crate) fn decr(&mut self, n: usize)
        requires
            old(self)@.wf(),
        ensures
            final(self)@ == old(self)@.decr(n as int),
            final(self)@.wf(),
    {
        let cell: usize = self.tape[self.sp] as usize;
        let diff: usize = (cell + 256 - n % 256) % 256;
        assert(diff == (cell - n) % 256);
        self.tape.set(self.sp, diff as u8);
    }

    /// Writes `b` into the current cell.
    pub(crate) fn store(&mut self, b: u8)
        requires
            old(self)@.wf(),
        ensures
            final(self)@ == old(self)@.store(b),
            final(self)@.wf(),
    {
        self.tape.set(self.sp, b);
    }
}

} // verus!
