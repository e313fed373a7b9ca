//! The direct form: one instruction per source symbol, with the two ends of
//! every loop recorded in a jump table.
use crate::brackets::{
    balanced, lemma_close_has_open, lemma_open_has_close, lemma_pending_unpaired,
    lemma_push_close, lemma_push_open, lemma_push_plain, lemma_push_stray, lemma_stray_extends,
    matched, paired, pending, stray_close,
};
use crate::error::CompileError;
use crate::machine::{status_of, Action, Machine, Outcome, Run, State, Status};
use crate::opcode::{lemma_ops_prefix, lemma_ops_step, ops, OpCode};
use std::collections::HashMap;
use vstd::prelude::*;

verus! {

broadcast use vstd::std_specs::hash::group_hash_axioms;

/// A compiled program: its instructions and its jump table.
#[derive(Debug)]
pub struct Code {
    instrs: Vec<OpCode>,
    tables: HashMap<usize, usize>,
}

/// What a [`Code`] holds.
pub struct Program {
    /// The instructions, in source order.
    pub instrs: Seq<OpCode>,
    /// For a bracket's position, the position of the bracket at the other
    /// end of its loop.
    pub table: Map<usize, usize>,
}

impl View for Code {
    type V = Program;

    closed spec fn view(&self) -> Program {
        Program { instrs: self.instrs@, table: self.tables@ }
    }
}

impl Program {
    /// The table speaks of positions of this program only.
    pub open spec fn wf(self) -> bool {
        &&& self.instrs.len() <= usize::MAX
        &&& forall|k: usize| #[trigger]
            self.table.contains_key(k) ==> k < self.instrs.len() && self.table[k]
                < self.instrs.len()
    }

    /// `self` is what compiling `src` gives: one instruction for each
    /// symbol, and a table that holds the two ends of every loop, each
    /// under the other, and nothing else.
    pub open spec fn compiled_from(self, src: Seq<u8>) -> bool {
        &&& self.instrs == ops(src)
        &&& forall|i: usize, j: usize|
            #![trigger self.table.contains_pair(i, j)]
            #![trigger paired(self.instrs, i as int, j as int)]
            self.table.contains_pair(i, j) <==> paired(self.instrs, i as int, j as int)
    }

    /// Every bracket finds its partner in the table.
    pub open spec fn linked(self) -> bool {
        forall|i: int|
            0 <= i < self.instrs.len() && (#[trigger] self.instrs[i] == OpCode::LB
                || self.instrs[i] == OpCode::RB) ==> self.table.contains_key(i as usize)
    }

    /// The instruction that `s` is about to execute, if it jumps, finds its
    /// target in the table.
    pub open spec fn ready(self, s: State) -> bool {
        0 <= s.pc < self.instrs.len() ==> match self.instrs[s.pc] {
            OpCode::LB => s.cell() == 0 ==> self.table.contains_key(s.pc as usize),
            OpCode::RB => s.cell() != 0 ==> self.table.contains_key(s.pc as usize),
            _ => true,
        }
    }

    /// One step of the machine: the state after it, and what it asks of the
    /// driver. `input` is the byte handed in for an input instruction.
    pub open spec fn step(self, s: State, input: Option<u8>) -> (State, Action) {
        if s.pc >= self.instrs.len() {
            (s, Action::Finished)
        } else {
            match self.instrs[s.pc] {
                OpCode::SHR => (s.right(1).goto(s.pc + 1), Action::Continue),
                OpCode::SHL => if s.cursor == 0 {
                    (s, Action::LeftBoundary)
                } else {
                    (s.left(1).goto(s.pc + 1), Action::Continue)
                },
                OpCode::ADD => (s.incr(1).goto(s.pc + 1), Action::Continue),
                OpCode::SUB => (s.decr(1).goto(s.pc + 1), Action::Continue),
                OpCode::GETCHAR => (s.goto(s.pc + 1), Action::Output(s.cell())),
                OpCode::PUTCHAR => match input {
                    Some(b) => (s.store(b).goto(s.pc + 1), Action::Continue),
                    None => (s, Action::Input),
                },
                OpCode::LB => if s.cell() == 0 {
                    (s.goto(self.table[s.pc as usize] + 1), Action::Continue)
                } else {
                    (s.goto(s.pc + 1), Action::Continue)
                },
                OpCode::RB => if s.cell() != 0 {
                    (s.goto(self.table[s.pc as usize] + 1), Action::Continue)
                } else {
                    (s.goto(s.pc + 1), Action::Continue)
                },
            }
        }
    }

    /// Where the run `r` stands.
    pub open spec fn status(self, r: Run, input: Seq<u8>) -> Status {
        status_of(self.step(r.state, None).1, r.consumed < input.len())
    }

    /// The run after one more step. A run that is not `Running` stays as it
    /// is.
    pub open spec fn advance(self, r: Run, input: Seq<u8>) -> Run {
        let (s, act) = self.step(r.state, None);
        match act {
            Action::Continue => Run { state: s, ..r },
            Action::Output(b) => Run { state: s, output: r.output.push(b), ..r },
            Action::Input => match r.next_input(input) {
                Some(b) => Run {
                    state: self.step(r.state, Some(b)).0,
                    consumed: r.consumed + 1,
                    ..r
                },
                None => r,
            },
            Action::Finished => r,
            Action::LeftBoundary => r,
        }
    }

    /// The run after `n` steps from the start.
    pub open spec fn run_for(self, input: Seq<u8>, n: nat) -> Run
        decreases n,
    {
        if n == 0 {
            Run::start()
        } else {
            self.advance(self.run_for(input, (n - 1) as nat), input)
        }
    }

    /// The run `r` after `n` more steps.
    pub open spec fn run_on(self, r: Run, input: Seq<u8>, n: nat) -> Run
        decreases n,
    {
        if n == 0 {
            r
        } else {
            self.advance(self.run_on(r, input, (n - 1) as nat), input)
        }
    }

    /// Steps can be taken in two parts.
    pub proof fn lemma_run_on_adds(self, r: Run, input: Seq<u8>, a: nat, b: nat)
        ensures
            self.run_on(r, input, a + b) == self.run_on(self.run_on(r, input, a), input, b),
        decreases b,
    {
        if b > 0 {
            self.lemma_run_on_adds(r, input, a, (b - 1) as nat);
        }
    }

    /// A run from the start can be taken up where it stands.
    pub proof fn lemma_run_for_adds(self, input: Seq<u8>, a: nat, b: nat)
        ensures
            self.run_for(input, a + b) == self.run_on(self.run_for(input, a), input, b),
        decreases b,
    {
        if b > 0 {
            self.lemma_run_for_adds(input, a, (b - 1) as nat);
        }
    }

    /// A linked program finds every jump target that a run can need.
    pub proof fn lemma_linked_runs(self, input: Seq<u8>)
        requires
            self.linked(),
        ensures
            forall|k: nat| self.ready(#[trigger] self.run_for(input, k).state),
    {
    }

    /// A run that has stopped stays where it is.
    pub proof fn lemma_stopped_stays(self, input: Seq<u8>, k: nat, n: nat)
        requires
            self.status(self.run_for(input, k), input) != Status::Running,
            k <= n,
        ensures
            self.run_for(input, n) == self.run_for(input, k),
        decreases n,
    {
        if k < n {
            self.lemma_stopped_stays(input, k, (n - 1) as nat);
        }
    }
}

impl Code {
    /// Compiles a source buffer.
    ///
    /// Fails exactly when some `]` has no `[` before it left to close. A
    /// `[` that is never closed is accepted and gets no table entry: the
    /// program is then not [`Program::linked`].
    pub fn from(data: Vec<u8>) -> (res: Result<Code, CompileError>)
        ensures
            res is Err <==> stray_close(ops(data@)),
            res matches Err(e) ==> e == CompileError::UnbalancedCloseBracket,
            res matches Ok(code) ==> {
                &&& code@.compiled_from(data@)
                &&& code@.wf()
                &&& code@.linked() <==> balanced(ops(data@))
            },
    {
        let mut instrs: Vec<OpCode> = Vec::new();
        let mut jstack: Vec<usize> = Vec::new();
        let mut tables: HashMap<usize, usize> = HashMap::new();
        let mut p: usize = 0;
        assert(data@.take(0) =~= Seq::<u8>::empty());
        while p < data.len()
            invariant
                p <= data.len(),
                instrs@ == ops(data@.take(p as int)),
                instrs.len() <= p,
                !stray_close(instrs@),
                pending(instrs@, jstack@),
                forall|i: usize, j: usize|
                    #![trigger tables@.contains_pair(i, j)]
                    #![trigger paired(instrs@, i as int, j as int)]
                    tables@.contains_pair(i, j) <==> paired(instrs@, i as int, j as int),
            decreases data.len() - p,
        {
            let ghost before = instrs@;
            let ghost stack = jstack@;
            let ghost table = tables@;
            proof {
                lemma_ops_step(data@, p as int);
            }
            match OpCode::parse(data[p]) {
                None => {},
                Some(OpCode::LB) => {
                    proof {
                        lemma_push_open(before, stack);
                    }
                    jstack.push(instrs.len());
                    instrs.push(OpCode::LB);
                },
                Some(OpCode::RB) => {
                    let n = instrs.len();
                    match jstack.pop() {
                        None => {
                            proof {
                                lemma_push_stray(before, stack);
                                lemma_ops_prefix(data@, p as int + 1);
                                lemma_stray_extends(before.push(OpCode::RB), ops(data@));
                            }
                            return Err(CompileError::UnbalancedCloseBracket);
                        },
                        Some(j) => {
                            proof {
                                lemma_push_close(before, stack);
                                assert(stack.drop_last() =~= stack.subrange(0, stack.len() - 1));
                                assert forall|b: int| !paired(before, j as int, b) by {
                                    lemma_pending_unpaired(before, stack, stack.len() - 1, b);
                                }
                            }
                            tables.insert(n, j);
                            tables.insert(j, n);
                            instrs.push(OpCode::RB);
                            proof {
                                let s2 = instrs@;
                                let t2 = tables@;
                                assert forall|a: usize, b: usize|
                                    #![trigger t2.contains_pair(a, b)]
                                    #![trigger paired(s2, a as int, b as int)]
                                    t2.contains_pair(a, b) <==> paired(s2, a as int, b as int) by {
                                    if a != j && a != n {
                                        assert(t2.contains_pair(a, b) <==> table.contains_pair(
                                            a,
                                            b,
                                        ));
                                    }
                                    assert(!paired(before, j as int, b as int));
                                    assert(!paired(before, n as int, b as int));
                                }
                            }
                        },
                    }
                },
                Some(op) => {
                    proof {
                        lemma_push_plain(before, stack, op);
                    }
                    instrs.push(op);
                },
            }
            p += 1;
        }
        assert(data@.take(p as int) =~= data@);
        let code = Code { instrs, tables };
        proof {
            let s = code@.instrs;
            if balanced(s) {
                assert forall|i: int|
                    0 <= i < s.len() && (#[trigger] s[i] == OpCode::LB || s[i]
                        == OpCode::RB) implies code@.table.contains_key(i as usize) by {
                    if s[i] == OpCode::LB {
                        lemma_open_has_close(s, i);
                        let j = choose|j: int| matched(s, i, j);
                        assert(paired(s, i as usize as int, j as usize as int));
                        assert(code@.table.contains_pair(i as usize, j as usize));
                    } else {
                        lemma_close_has_open(s, i);
                        let j = choose|j: int| matched(s, j, i);
                        assert(paired(s, i as usize as int, j as usize as int));
                        assert(code@.table.contains_pair(i as usize, j as usize));
                    }
                }
            }
            if code@.linked() && jstack@.len() > 0 {
                let i = jstack@[0];
                assert(s[i as int] == OpCode::LB);
                assert(code@.table.contains_key(i));
                let j = code@.table[i];
                assert(code@.table.contains_pair(i, j));
                lemma_pending_unpaired(s, jstack@, 0, j as int);
            }
            assert forall|k: usize| #[trigger] code@.table.contains_key(k) implies k < s.len()
                && code@.table[k] < s.len() by {
                assert(code@.table.contains_pair(k, code@.table[k]));
            }
        }
        Ok(code)
    }

    /// The number of instructions.
    pub fn len(&self) -> (n: usize)
        ensures
            n == self@.instrs.len(),
    {
        self.instrs.len()
    }

    /// The instruction at position `i`.
    pub fn get(&self, i: usize) -> (op: Option<OpCode>)
        ensures
            op == if i < self@.instrs.len() {
                Some(self@.instrs[i as int])
            } else {
                None
            },
    {
        if i < self.instrs.len() {
            Some(self.instrs[i])
        } else {
            None
        }
    }

    /// The table's entry for position `i`.
    pub fn target(&self, i: usize) -> (t: Option<usize>)
        ensures
            t == if self@.table.contains_key(i) {
                Some(self@.table[i])
            } else {
                None
            },
    {
        match self.tables.get(&i) {
            Some(t) => Some(*t),
            None => None,
        }
    }

    /// Whether every bracket of the program finds its partner in the table.
    pub fn is_linked(&self) -> (r: bool)
        ensures
            r == self@.linked(),
    {
        let mut i: usize = 0;
        while i < self.instrs.len()
            invariant
                i <= self.instrs.len(),
                forall|k: int|
                    0 <= k < i && (#[trigger] self.instrs@[k] == OpCode::LB || self.instrs@[k]
                        == OpCode::RB) ==> self.tables@.contains_key(k as usize),
            decreases self.instrs.len() - i,
        {
            let op = self.instrs[i];
            if (op == OpCode::LB || op == OpCode::RB) && !self.tables.contains_key(&i) {
                return false;
            }
            i += 1;
        }
        true
    }

    /// Whether the instruction that `m` is about to execute, if it jumps,
    /// finds its target in the table.
    pub fn ready(&self, m: &Machine) -> (r: bool)
        requires
            m@.wf(),
        ensures
            r == self@.ready(m@),
    {
        let pc = m.pc();
        if pc >= self.instrs.len() {
            return true;
        }
        match self.instrs[pc] {
            OpCode::LB => m.cell() != 0 || self.tables.contains_key(&pc),
            OpCode::RB => m.cell() == 0 || self.tables.contains_key(&pc),
            _ => true,
        }
    }

    /// Where a run stands whose machine is `m`; `more_input` says whether
    /// the input stream has a byte left.
    pub fn status(&self, m: &Machine, more_input: bool) -> (st: Status)
        requires
            m@.wf(),
        ensures
            st == status_of(self@.step(m@, None).1, more_input),
    {
        let pc = m.pc();
        if pc >= self.instrs.len() {
            return Status::Finished;
        }
        match self.instrs[pc] {
            OpCode::SHL => if m.cursor() == 0 {
                Status::LeftBoundary
            } else {
                Status::Running
            },
            OpCode::PUTCHAR => if more_input {
                Status::Running
            } else {
                Status::InputExhausted
            },
            _ => Status::Running,
        }
    }

    /// Executes the instruction at the program counter of `m`.
    ///
    /// Performs no I/O: the result says what the driver owes. On
    /// [`Action::Input`] the machine has not moved, and the driver repeats
    /// the step with the byte it read in `input`. Any other instruction
    /// ignores `input`.
    pub fn step(&self, m: &mut Machine, input: Option<u8>) -> (act: Action)
        requires
            self@.wf(),
            old(m)@.wf(),
            self@.ready(old(m)@),
        ensures
            (final(m)@, act) == self@.step(old(m)@, input),
            final(m)@.wf(),
    {
        let pc = m.pc();
        if pc >= self.instrs.len() {
            return Action::Finished;
        }
        match self.instrs[pc] {
            OpCode::SHR => {
                proof {
                    m.lemma_fits();
                }
                m.shift_right(1);
                m.goto(pc + 1);
                Action::Continue
            },
            OpCode::SHL => {
                if m.cursor() == 0 {
                    return Action::LeftBoundary;
                }
                m.shift_left(1);
                m.goto(pc + 1);
                Action::Continue
            },
            OpCode::ADD => {
                m.incr(1);
                m.goto(pc + 1);
                Action::Continue
            },
            OpCode::SUB => {
                m.decr(1);
                m.goto(pc + 1);
                Action::Continue
            },
            OpCode::GETCHAR => {
                let b = m.cell();
                m.goto(pc + 1);
                Action::Output(b)
            },
            OpCode::PUTCHAR => match input {
                Some(b) => {
                    m.store(b);
                    m.goto(pc + 1);
                    Action::Continue
                },
                None => Action::Input,
            },
            OpCode::LB => {
                if m.cell() == 0 {
                    let t = self.jump(pc);
                    m.goto(t + 1);
                } else {
                    m.goto(pc + 1);
                }
                Action::Continue
            },
            OpCode::RB => {
                if m.cell() != 0 {
                    let t = self.jump(pc);
                    m.goto(t + 1);
                } else {
                    m.goto(pc + 1);
                }
                Action::Continue
            },
        }
    }

    /// The table's entry for a bracket that has one.
    fn jump(&self, pc: usize) -> (t: usize)
        requires
            self@.wf(),
            self@.table.contains_key(pc),
        ensures
            t == self@.table[pc],
            t < self@.instrs.len(),
    {
        match self.tables.get(&pc) {
            Some(t) => *t,
            None => pc,
        }
    }

    /// Runs the program from the start against `input`, for at most `limit`
    /// steps, and collects what it writes.
    ///
    /// No step of the run may need a jump target that the table lacks. That
    /// holds of every run of a linked program:
    /// [`Program::lemma_linked_runs`].
    pub fn run(&self, input: &Vec<u8>, limit: usize) -> (out: Outcome)
        requires
            self@.wf(),
            forall|k: nat| k < limit ==> self@.ready(#[trigger] self@.run_for(input@, k).state),
        ensures
            out.output@ == self@.run_for(input@, limit as nat).output,
            out.status == self@.status(self@.run_for(input@, limit as nat), input@),
    {
        let mut m = Machine::new();
        let mut output: Vec<u8> = Vec::new();
        let mut pos: usize = 0;
        let mut steps: usize = 0;
        while steps < limit
            invariant
                steps <= limit,
                pos <= input.len(),
                self@.wf(),
                forall|k: nat|
                    k < limit ==> self@.ready(#[trigger] self@.run_for(input@, k).state),
                m@.wf(),
                self@.run_for(input@, steps as nat) == (Run {
                    state: m@,
                    consumed: pos as nat,
                    output: output@,
                }),
            decreases limit - steps,
        {
            let ghost r = self@.run_for(input@, steps as nat);
            let st = self.status(&m, pos < input.len());
            match st {
                Status::Running => {},
                _ => {
                    proof {
                        self@.lemma_stopped_stays(input@, steps as nat, limit as nat);
                    }
                    return Outcome { output, status: st };
                },
            }
            assert(self@.ready(r.state));
            let act = self.step(&mut m, None);
            match act {
                Action::Output(b) => {
                    output.push(b);
                },
                Action::Input => {
                    let b = input[pos];
                    let _ = self.step(&mut m, Some(b));
                    pos += 1;
                },
                _ => {},
            }
            steps += 1;
            assert(self@.run_for(input@, steps as nat) == self@.advance(r, input@));
        }
        let st = self.status(&m, pos < input.len());
        Outcome { output, status: st }
    }
}

} // verus!
