//! The folded form: runs of one move or one increment become a single
//! counted instruction, and every branch carries its target with it.
use crate::brackets::{
    lemma_pending_unpaired, lemma_push_close, lemma_push_open, lemma_push_plain,
    lemma_push_stray, lemma_stray_extends, matched, paired, pending, stray_close,
};
use crate::error::CompileError;
use crate::layout::lemma_stray_expand;
use crate::machine::{status_of, Action, Machine, Outcome, Run, State, Status};
use crate::opcode::{lemma_ops_prefix, lemma_ops_step, ops, OpCode};
use vstd::prelude::*;

verus! {

/// One instruction of the folded form.
#[derive(Clone, Copy, Debug, PartialEq, Eq, Structural)]
pub enum IR {
    /// Move the cursor this many cells to the right.
    SHR(usize),
    /// Move the cursor this many cells to the left.
    SHL(usize),
    /// Add this much to the current cell.
    ADD(usize),
    /// Subtract this much from the current cell.
    SUB(usize),
    /// Take the byte in the current cell and write it out.
    GETCHAR,
    /// Put the next byte of input into the current cell.
    PUTCHAR,
    /// Branch to the instruction at this index if the current cell is zero.
    JIZ(usize),
    /// Branch to the instruction at this index if the current cell is not
    /// zero.
    JNZ(usize),
}

impl IR {
    /// The operation that the instruction repeats.
    pub open spec fn opcode(self) -> OpCode {
        match self {
            IR::SHR(_) => OpCode::SHR,
            IR::SHL(_) => OpCode::SHL,
            IR::ADD(_) => OpCode::ADD,
            IR::SUB(_) => OpCode::SUB,
            IR::GETCHAR => OpCode::GETCHAR,
            IR::PUTCHAR => OpCode::PUTCHAR,
            IR::JIZ(_) => OpCode::LB,
            IR::JNZ(_) => OpCode::RB,
        }
    }

    /// How many source symbols the instruction stands for.
    pub open spec fn width(self) -> nat {
        match self {
            IR::SHR(n) => n as nat,
            IR::SHL(n) => n as nat,
            IR::ADD(n) => n as nat,
            IR::SUB(n) => n as nat,
            _ => 1,
        }
    }

    /// How far the instruction moves the cursor to the right.
    pub open spec fn reach(self) -> nat {
        match self {
            IR::SHR(n) => n as nat,
            _ => 0,
        }
    }

    /// The instruction for a single symbol. A branch gets the target 0 until
    /// its partner is known.
    pub open spec fn single(op: OpCode) -> IR {
        match op {
            OpCode::SHR => IR::SHR(1),
            OpCode::SHL => IR::SHL(1),
            OpCode::ADD => IR::ADD(1),
            OpCode::SUB => IR::SUB(1),
            OpCode::GETCHAR => IR::GETCHAR,
            OpCode::PUTCHAR => IR::PUTCHAR,
            OpCode::LB => IR::JIZ(0),
            OpCode::RB => IR::JNZ(0),
        }
    }

    /// The instruction with one more repetition.
    pub open spec fn bump(self) -> IR {
        match self {
            IR::SHR(n) => IR::SHR((n + 1) as usize),
            IR::SHL(n) => IR::SHL((n + 1) as usize),
            IR::ADD(n) => IR::ADD((n + 1) as usize),
            IR::SUB(n) => IR::SUB((n + 1) as usize),
            other => other,
        }
    }

    /// The instruction for a single symbol.
    fn first(op: OpCode) -> (r: IR)
        ensures
            r == IR::single(op),
    {
        match op {
            OpCode::SHR => IR::SHR(1),
            OpCode::SHL => IR::SHL(1),
            OpCode::ADD => IR::ADD(1),
            OpCode::SUB => IR::SUB(1),
            OpCode::GETCHAR => IR::GETCHAR,
            OpCode::PUTCHAR => IR::PUTCHAR,
            OpCode::LB => IR::JIZ(0),
            OpCode::RB => IR::JNZ(0),
        }
    }

    /// The instruction with `op` folded into it, where `op` is what it
    /// repeats.
    fn merge(self, op: OpCode) -> (r: Option<IR>)
        requires
            self.width() < usize::MAX,
        ensures
            r == if op.folds() && self.opcode() == op {
                Some(self.bump())
            } else {
                None
            },
    {
        match self {
            IR::SHR(n) => match op {
                OpCode::SHR => Some(IR::SHR(n + 1)),
                _ => None,
            },
            IR::SHL(n) => match op {
                OpCode::SHL => Some(IR::SHL(n + 1)),
                _ => None,
            },
            IR::ADD(n) => match op {
                OpCode::ADD => Some(IR::ADD(n + 1)),
                _ => None,
            },
            IR::SUB(n) => match op {
                OpCode::SUB => Some(IR::SUB(n + 1)),
                _ => None,
            },
            _ => None,
        }
    }
}

/// The operation of each instruction.
pub open spec fn kinds(instrs: Seq<IR>) -> Seq<OpCode> {
    Seq::new(instrs.len(), |a: int| instrs[a].opcode())
}

/// What one instruction stands for, written out symbol by symbol.
pub open spec fn unfold(ir: IR) -> Seq<OpCode> {
    Seq::new(ir.width(), |k: int| ir.opcode())
}

/// What the instructions stand for, written out symbol by symbol.
pub open spec fn expand(instrs: Seq<IR>) -> Seq<OpCode>
    decreases instrs.len(),
{
    if instrs.len() == 0 {
        Seq::empty()
    } else {
        expand(instrs.drop_last()) + unfold(instrs.last())
    }
}

/// Instruction `a` repeats what the one before it repeats, so that the two
/// could be one.
pub open spec fn joins(instrs: Seq<IR>, a: int) -> bool {
    instrs[a].opcode().folds() && instrs[a - 1].opcode() == instrs[a].opcode()
}

/// No instruction could have been folded into the one before it.
pub open spec fn maximal(instrs: Seq<IR>) -> bool {
    forall|a: int| 0 < a < instrs.len() ==> !#[trigger] joins(instrs, a)
}

/// `instrs` with one more symbol compiled into it, brackets aside.
spec fn appended(instrs: Seq<IR>, op: OpCode) -> Seq<IR> {
    if instrs.len() > 0 && op.folds() && instrs.last().opcode() == op {
        instrs.update(instrs.len() - 1, instrs.last().bump())
    } else {
        instrs.push(IR::single(op))
    }
}

/// The largest move to the right that any instruction makes.
pub open spec fn widest(instrs: Seq<IR>) -> nat
    decreases instrs.len(),
{
    if instrs.len() == 0 {
        0
    } else {
        let rest = widest(instrs.drop_last());
        if instrs.last().reach() > rest {
            instrs.last().reach()
        } else {
            rest
        }
    }
}

/// No instruction moves further to the right than the widest.
pub proof fn lemma_widest(instrs: Seq<IR>, a: int)
    requires
        0 <= a < instrs.len(),
    ensures
        instrs[a].reach() <= widest(instrs),
    decreases instrs.len(),
{
    if a < instrs.len() - 1 {
        lemma_widest(instrs.drop_last(), a);
    }
}

/// An instruction at the end adds what it stands for at the end.
pub proof fn lemma_expand_push(instrs: Seq<IR>, ir: IR)
    ensures
        expand(instrs.push(ir)) == expand(instrs) + unfold(ir),
{
    assert(instrs.push(ir).drop_last() =~= instrs);
}

/// One more repetition of the last instruction adds one symbol at the end.
pub proof fn lemma_expand_bump(instrs: Seq<IR>)
    requires
        instrs.len() > 0,
        instrs.last().opcode().folds(),
        instrs.last().width() < usize::MAX,
    ensures
        expand(instrs.update(instrs.len() - 1, instrs.last().bump())) == expand(instrs).push(
            instrs.last().opcode(),
        ),
{
    let last = instrs.last();
    let after = instrs.update(instrs.len() - 1, last.bump());
    assert(after.drop_last() =~= instrs.drop_last());
    assert(unfold(last.bump()) =~= unfold(last).push(last.opcode()));
    assert(expand(after) =~= expand(instrs).push(last.opcode()));
}

/// What instructions stand for depends on their operations and counts
/// alone, not on their targets.
pub proof fn lemma_expand_same(a: Seq<IR>, b: Seq<IR>)
    requires
        a.len() == b.len(),
        forall|i: int|
            0 <= i < a.len() ==> a[i].opcode() == b[i].opcode() && a[i].width() == b[i].width(),
    ensures
        expand(a) == expand(b),
    decreases a.len(),
{
    if a.len() > 0 {
        lemma_expand_same(a.drop_last(), b.drop_last());
        assert(unfold(a.last()) =~= unfold(b.last()));
    }
}

/// Compiling one more symbol adds that symbol to what the instructions
/// stand for.
proof fn lemma_expand_appended(instrs: Seq<IR>, op: OpCode)
    requires
        forall|a: int| 0 <= a < instrs.len() ==> instrs[a].width() < usize::MAX,
    ensures
        expand(appended(instrs, op)) == expand(instrs).push(op),
{
    if instrs.len() > 0 && op.folds() && instrs.last().opcode() == op {
        lemma_expand_bump(instrs);
    } else {
        lemma_expand_push(instrs, IR::single(op));
        assert(unfold(IR::single(op)) =~= seq![op]);
        assert(expand(instrs) + seq![op] =~= expand(instrs).push(op));
    }
}

/// A compiled program.
#[derive(Debug)]
pub struct Code {
    instrs: Vec<IR>,
}

/// What a [`Code`] holds.
pub struct Program {
    /// The instructions.
    pub instrs: Seq<IR>,
}

impl View for Code {
    type V = Program;

    closed spec fn view(&self) -> Program {
        Program { instrs: self.instrs@ }
    }
}

/// Each branch of `instrs` points at its partner. A loop-open that is still
/// on `stack` has no partner yet and points at 0.
spec fn targets_set(instrs: Seq<IR>, stack: Seq<usize>) -> bool {
    forall|a: int|
        0 <= a < instrs.len() ==> match #[trigger] instrs[a] {
            IR::JNZ(t) => matched(kinds(instrs), t as int, a),
            IR::JIZ(t) => matched(kinds(instrs), a, t as int) || (t == 0 && exists|u: int|
                0 <= u < stack.len() && stack[u] == a),
            _ => true,
        }
}

/// What holds of the instructions while a source is being compiled, with
/// `stack` the loop-opens not closed so far.
spec fn partial(instrs: Seq<IR>, stack: Seq<usize>) -> bool {
    &&& forall|a: int| 0 <= a < instrs.len() ==> (#[trigger] instrs[a]).width() >= 1
    &&& maximal(instrs)
    &&& !stray_close(kinds(instrs))
    &&& pending(kinds(instrs), stack)
    &&& targets_set(instrs, stack)
}

/// Before the first symbol nothing is compiled and nothing is open.

proof fn lemma_partial_empty()
    ensures
        partial(Seq::<IR>::empty(), Seq::<usize>::empty()),
{
    assert(kinds(Seq::<IR>::empty()) =~= Seq::<OpCode>::empty());
}

/// Branches that pointed at their partners still do when the operations
/// grow by one and the pairs among the old ones stay.
proof fn lemma_targets_kept(
    before: Seq<IR>,
    stack: Seq<usize>,
    after: Seq<IR>,
    stack2: Seq<usize>,
    a: int,
)
    requires
        targets_set(before, stack),
        0 <= a < before.len() <= after.len(),
        after[a] == before[a],
        forall|i: int, j: int| #[trigger]
            paired(kinds(before), i, j) ==> paired(kinds(after), i, j),
        forall|u: int|
            0 <= u < stack.len() && stack[u] == a ==> 0 <= u < stack2.len() && stack2[u] == a,
    ensures
        match after[a] {
            IR::JNZ(t) => matched(kinds(after), t as int, a),
            IR::JIZ(t) => matched(kinds(after), a, t as int) || (t == 0 && exists|u: int|
                0 <= u < stack2.len() && stack2[u] == a),
            _ => true,
        },
{
    let k0 = kinds(before);
    let k1 = kinds(after);
    match before[a] {
        IR::JNZ(t) => {
            assert(paired(k0, t as int, a));
            assert(paired(k1, t as int, a));
        },
        IR::JIZ(t) => {
            if matched(k0, a, t as int) {
                assert(paired(k0, a, t as int));
                assert(paired(k1, a, t as int));
            } else {
                let u = choose|u: int| 0 <= u < stack.len() && stack[u] == a;
                assert(stack2[u] == a);
            }
        },
        _ => {},
    }
}

/// Compiling a `[`: the new branch waits on the stack for its partner.

proof fn lemma_partial_open(instrs: Seq<IR>, stack: Seq<usize>)
    requires
        partial(instrs, stack),
        instrs.len() <= usize::MAX,
    ensures
        partial(instrs.push(IR::JIZ(0)), stack.push(instrs.len() as usize)),
        expand(instrs.push(IR::JIZ(0))) == expand(instrs).push(OpCode::LB),
{
    let after = instrs.push(IR::JIZ(0));
    let n = instrs.len() as int;
    let stack2 = stack.push(n as usize);
    let k0 = kinds(instrs);
    lemma_push_open(k0, stack);
    lemma_expand_push(instrs, IR::JIZ(0));
    assert(unfold(IR::JIZ(0)) =~= seq![OpCode::LB]);
    assert(expand(instrs) + seq![OpCode::LB] =~= expand(instrs).push(OpCode::LB));
    assert(kinds(after) =~= k0.push(OpCode::LB));
    assert(stack2[stack.len() as int] == n);
    assert forall|a: int| 0 <= a < after.len() implies match #[trigger] after[a] {
        IR::JNZ(t) => matched(kinds(after), t as int, a),
        IR::JIZ(t) => matched(kinds(after), a, t as int) || (t == 0 && exists|u: int|
            0 <= u < stack2.len() && stack2[u] == a),
        _ => true,
    } by {
        if a < n {
            lemma_targets_kept(instrs, stack, after, stack2, a);
        }
    }
    assert forall|a: int| 0 < a < after.len() implies !#[trigger] joins(after, a) by {
        if a < instrs.len() {
            assert(!joins(instrs, a));
        }
        if a < n {
            assert(after[a] == instrs[a]);
        }
    }
}

/// A `]` that finds the stack empty is a stray one among the symbols.

proof fn lemma_partial_stray(instrs: Seq<IR>, stack: Seq<usize>)
    requires
        partial(instrs, stack),
        stack.len() == 0,
    ensures
        stray_close(expand(instrs).push(OpCode::RB)),
{
    let full = instrs.push(IR::JNZ(0));
    lemma_push_stray(kinds(instrs), stack);
    assert(kinds(full) =~= kinds(instrs).push(OpCode::RB));
    lemma_stray_expand(full);
    lemma_expand_push(instrs, IR::JNZ(0));
    assert(unfold(IR::JNZ(0)) =~= seq![OpCode::RB]);
    assert(expand(instrs) + seq![OpCode::RB] =~= expand(instrs).push(OpCode::RB));
}

/// Compiling a `]`: the new branch and the innermost one that waits point

/// at each other.

proof fn lemma_partial_close(instrs: Seq<IR>, stack: Seq<usize>)
    requires
        partial(instrs, stack),
        stack.len() > 0,
        instrs.len() <= usize::MAX,
    ensures
        stack.last() < instrs.len(),
        partial(
            instrs.push(IR::JNZ(stack.last())).update(
                stack.last() as int,
                IR::JIZ(instrs.len() as usize),
            ),
            stack.drop_last(),
        ),
        expand(
            instrs.push(IR::JNZ(stack.last())).update(
                stack.last() as int,
                IR::JIZ(instrs.len() as usize),
            ),
        ) == expand(instrs).push(OpCode::RB),
{
    let j = stack.last();
    let n = instrs.len() as int;
    let top = stack.len() - 1;
    let stack2 = stack.drop_last();
    let k0 = kinds(instrs);
    let mid = instrs.push(IR::JNZ(j));
    let after = mid.update(j as int, IR::JIZ(n as usize));
    assert(stack[top] == j);
    assert(k0[j as int] == OpCode::LB);
    lemma_push_close(k0, stack);
    lemma_expand_push(instrs, IR::JNZ(j));
    assert(unfold(IR::JNZ(j)) =~= seq![OpCode::RB]);
    assert(expand(instrs) + seq![OpCode::RB] =~= expand(instrs).push(OpCode::RB));
    lemma_expand_same(mid, after);
    let k1 = kinds(after);
    assert(k1 =~= k0.push(OpCode::RB));
    assert(paired(k1, j as int, n));
    assert forall|a: int| 0 <= a < after.len() implies match #[trigger] after[a] {
        IR::JNZ(t) => matched(k1, t as int, a),
        IR::JIZ(t) => matched(k1, a, t as int) || (t == 0 && exists|u: int|
            0 <= u < stack2.len() && stack2[u] == a),
        _ => true,
    } by {
        if a < n && a != j {
            assert forall|u: int| 0 <= u < stack.len() && stack[u] == a implies 0 <= u
                < stack2.len() && stack2[u] == a by {
                assert(u != top);
            }
            lemma_targets_kept(instrs, stack, after, stack2, a);
        }
    }
    assert forall|a: int| 0 < a < after.len() implies !#[trigger] joins(after, a) by {
        if a < instrs.len() {
            assert(!joins(instrs, a));
        }
        assert(after[a].opcode() == mid[a].opcode());
        assert(after[a - 1].opcode() == mid[a - 1].opcode());
        if a < n {
            assert(mid[a] == instrs[a]);
        }
    }
    assert forall|a: int| 0 <= a < after.len() implies (#[trigger] after[a]).width() >= 1 by {
        if a < n && a != j {
            assert(after[a] == instrs[a]);
        }
    }
}

/// Compiling a symbol that is no bracket.

proof fn lemma_partial_plain(instrs: Seq<IR>, stack: Seq<usize>, op: OpCode)
    requires
        partial(instrs, stack),
        op != OpCode::LB,
        op != OpCode::RB,
        forall|a: int| 0 <= a < instrs.len() ==> instrs[a].width() < usize::MAX,
    ensures
        partial(appended(instrs, op), stack),
        expand(appended(instrs, op)) == expand(instrs).push(op),
        appended(instrs, op).len() <= instrs.len() + 1,
        forall|a: int|
            0 <= a < appended(instrs, op).len() ==> (#[trigger] appended(instrs, op)[a]).width()
                <= if a < instrs.len() {
                instrs[a].width() + 1
            } else {
                1
            },
{
    let after = appended(instrs, op);
    let n = instrs.len() as int;
    let k0 = kinds(instrs);
    lemma_expand_appended(instrs, op);
    if instrs.len() > 0 && op.folds() && instrs.last().opcode() == op {
        assert(kinds(after) =~= k0);
        assert forall|a: int| 0 <= a < after.len() implies match #[trigger] after[a] {
            IR::JNZ(t) => matched(kinds(after), t as int, a),
            IR::JIZ(t) => matched(kinds(after), a, t as int) || (t == 0 && exists|u: int|
                0 <= u < stack.len() && stack[u] == a),
            _ => true,
        } by {
            if a < n - 1 {
                lemma_targets_kept(instrs, stack, after, stack, a);
            }
        }
        assert forall|a: int| 0 < a < after.len() implies !#[trigger] joins(after, a) by {
        if a < instrs.len() {
            assert(!joins(instrs, a));
        }
            assert(after[a].opcode() == instrs[a].opcode());
            assert(after[a - 1].opcode() == instrs[a - 1].opcode());
        }
        assert forall|a: int| 0 <= a < after.len() implies 1 <= (#[trigger] after[a]).width()
            <= instrs[a].width() + 1 by {
            if a < n - 1 {
                assert(after[a] == instrs[a]);
            }
        }
    } else {
        lemma_push_plain(k0, stack, op);
        assert(kinds(after) =~= k0.push(op));
        assert forall|a: int| 0 <= a < after.len() implies match #[trigger] after[a] {
            IR::JNZ(t) => matched(kinds(after), t as int, a),
            IR::JIZ(t) => matched(kinds(after), a, t as int) || (t == 0 && exists|u: int|
                0 <= u < stack.len() && stack[u] == a),
            _ => true,
        } by {
            if a < n {
                lemma_targets_kept(instrs, stack, after, stack, a);
            }
        }
        assert forall|a: int| 0 < a < after.len() implies !#[trigger] joins(after, a) by {
        if a < instrs.len() {
            assert(!joins(instrs, a));
        }
            if a < n {
                assert(after[a] == instrs[a]);
                assert(after[a - 1] == instrs[a - 1]);
            }
        }
        assert forall|a: int| 0 <= a < after.len() implies 1 <= (#[trigger] after[a]).width()
            <= if a < instrs.len() {
            instrs[a].width() + 1
        } else {
            1
        } by {
            if a < n {
                assert(after[a] == instrs[a]);
            }
        }
    }
}

/// At the end of the source the instructions are what compiling gives.

proof fn lemma_partial_done(instrs: Seq<IR>, stack: Seq<usize>)
    requires
        partial(instrs, stack),
        instrs.len() <= usize::MAX,
    ensures
        !stray_close(expand(instrs)),
        (Program { instrs }).wf(),
        forall|src: Seq<u8>| expand(instrs) == ops(src) ==> (#[trigger] (Program {
            instrs,
        }).compiled_from(src)),
{
    let k = kinds(instrs);
    lemma_stray_expand(instrs);
    assert forall|a: int| 0 <= a < instrs.len() implies match #[trigger] instrs[a] {
        IR::JNZ(t) => matched(k, t as int, a),
        IR::JIZ(t) => matched(k, a, t as int) || (t == 0 && forall|b: int| !matched(k, a, b)),
        _ => true,
    } by {
        match instrs[a] {
            IR::JIZ(t) => {
                if !matched(k, a, t as int) {
                    let u = choose|u: int| 0 <= u < stack.len() && stack[u] == a;
                    assert forall|b: int| !matched(k, a, b) by {
                        lemma_pending_unpaired(k, stack, u, b);
                    }
                }
            },
            _ => {},
        }
    }
}

impl Program {
    /// Every branch points into the program.
    pub open spec fn wf(self) -> bool {
        &&& self.instrs.len() <= usize::MAX
        &&& forall|a: int|
            0 <= a < self.instrs.len() ==> match #[trigger] self.instrs[a] {
                IR::JIZ(t) => t < self.instrs.len(),
                IR::JNZ(t) => t < self.instrs.len(),
                _ => true,
            }
    }

    /// `self` is what compiling `src` gives. Written out, the instructions
    /// are the symbols of `src`; every count is at least one; no two
    /// neighbours could be one instruction; and each branch points at its
    /// partner, a loop-open without one at 0.
    pub open spec fn compiled_from(self, src: Seq<u8>) -> bool {
        &&& expand(self.instrs) == ops(src)
        &&& forall|a: int| 0 <= a < self.instrs.len() ==> (#[trigger] self.instrs[a]).width() >= 1
        &&& maximal(self.instrs)
        &&& forall|a: int|
            0 <= a < self.instrs.len() ==> match #[trigger] self.instrs[a] {
                IR::JNZ(t) => matched(kinds(self.instrs), t as int, a),
                IR::JIZ(t) => matched(kinds(self.instrs), a, t as int) || (t == 0 && forall|
                    b: int,
                | !matched(kinds(self.instrs), a, b)),
                _ => true,
            }
    }

    /// The tape that the next step of `s` needs can be addressed.
    pub open spec fn fits(self, s: State) -> bool {
        0 <= s.pc < self.instrs.len() ==> s.cursor + self.instrs[s.pc].reach() <= usize::MAX
    }

    /// One step of the machine: the state after it, and what it asks of the
    /// driver. `input` is the byte handed in for an input instruction.
    pub open spec fn step(self, s: State, input: Option<u8>) -> (State, Action) {
        if s.pc >= self.instrs.len() {
            (s, Action::Finished)
        } else {
            match self.instrs[s.pc] {
                IR::SHR(n) => (s.right(n as int).goto(s.pc + 1), Action::Continue),
                IR::SHL(n) => if s.cursor < n {
                    (s, Action::LeftBoundary)
                } else {
                    (s.left(n as int).goto(s.pc + 1), Action::Continue)
                },
                IR::ADD(n) => (s.incr(n as int).goto(s.pc + 1), Action::Continue),
                IR::SUB(n) => (s.decr(n as int).goto(s.pc + 1), Action::Continue),
                IR::GETCHAR => (s.goto(s.pc + 1), Action::Output(s.cell())),
                IR::PUTCHAR => match input {
                    Some(b) => (s.store(b).goto(s.pc + 1), Action::Continue),
                    None => (s, Action::Input),
                },
                IR::JIZ(t) => if s.cell() == 0 {
                    (s.goto(t + 1), Action::Continue)
                } else {
                    (s.goto(s.pc + 1), Action::Continue)
                },
                IR::JNZ(t) => if s.cell() != 0 {
                    (s.goto(t + 1), Action::Continue)
                } else {
                    (s.goto(s.pc + 1), Action::Continue)
                },
            }
        }
    }

    /// Where the run `r` stands.
    pub open spec fn status(self, r: Run, input: Seq<u8>) -> Status {
        status_of(self.step(r.state, None).1, r.consumed < input.len())
    }

    /// The run after one more step. A run that is not `Running` stays as it
    /// is.
    pub open spec fn advance(self, r: Run, input: Seq<u8>) -> Run {
        let (s, act) = self.step(r.state, None);
        match act {
            Action::Continue => Run { state: s, ..r },
            Action::Output(b) => Run { state: s, output: r.output.push(b), ..r },
            Action::Input => match r.next_input(input) {
                Some(b) => Run {
                    state: self.step(r.state, Some(b)).0,
                    consumed: r.consumed + 1,
                    ..r
                },
                None => r,
            },
            Action::Finished => r,
            Action::LeftBoundary => r,
        }
    }

    /// The run after `n` steps from the start.
    pub open spec fn run_for(self, input: Seq<u8>, n: nat) -> Run
        decreases n,
    {
        if n == 0 {
            Run::start()
        } else {
            self.advance(self.run_for(input, (n - 1) as nat), input)
        }
    }

    /// A step keeps the cursor on the tape.
    pub proof fn lemma_step_wf(self, s: State, input: Option<u8>)
        requires
            self.wf(),
            s.wf(),
        ensures
            self.step(s, input).0.wf(),
    {
    }

    /// A step moves the cursor to the right by no more than the widest
    /// instruction does.
    pub proof fn lemma_step_reach(self, s: State, input: Option<u8>)
        requires
            s.wf(),
        ensures
            self.step(s, input).0.cursor <= s.cursor + widest(self.instrs),
    {
        if 0 <= s.pc < self.instrs.len() {
            lemma_widest(self.instrs, s.pc);
        }
    }

    /// After `n` steps the cursor is on the tape and no further to the right
    /// than `n` times the widest move.
    pub proof fn lemma_run_reach(self, input: Seq<u8>, n: nat)
        requires
            self.wf(),
        ensures
            self.run_for(input, n).state.wf(),
            self.run_for(input, n).state.cursor <= n * widest(self.instrs),
        decreases n,
    {
        if n > 0 {
            self.lemma_run_reach(input, (n - 1) as nat);
            let r = self.run_for(input, (n - 1) as nat);
            self.lemma_step_wf(r.state, None);
            self.lemma_step_wf(r.state, r.next_input(input));
            self.lemma_step_reach(r.state, None);
            self.lemma_step_reach(r.state, r.next_input(input));
            let w = widest(self.instrs);
            assert((n - 1) * w + w == n * w) by (nonlinear_arith);
        }
    }

    /// The run `r` after `n` more steps.
    pub open spec fn run_on(self, r: Run, input: Seq<u8>, n: nat) -> Run
        decreases n,
    {
        if n == 0 {
            r
        } else {
            self.advance(self.run_on(r, input, (n - 1) as nat), input)
        }
    }

    /// Steps can be taken in two parts.
    pub proof fn lemma_run_on_adds(self, r: Run, input: Seq<u8>, a: nat, b: nat)
        ensures
            self.run_on(r, input, a + b) == self.run_on(self.run_on(r, input, a), input, b),
        decreases b,
    {
        if b > 0 {
            self.lemma_run_on_adds(r, input, a, (b - 1) as nat);
        }
    }

    /// A run from the start can be taken up where it stands.
    pub proof fn lemma_run_for_adds(self, input: Seq<u8>, a: nat, b: nat)
        ensures
            self.run_for(input, a + b) == self.run_on(self.run_for(input, a), input, b),
        decreases b,
    {
        if b > 0 {
            self.lemma_run_for_adds(input, a, (b - 1) as nat);
        }
    }

    /// Where `limit` times the widest move is addressable, so is every cell
    /// that one of the first `limit` steps moves to.
    pub proof fn lemma_reach_fits(self, input: Seq<u8>, limit: nat)
        requires
            self.wf(),
            limit * widest(self.instrs) <= usize::MAX,
        ensures
            forall|k: nat| k < limit ==> self.fits(#[trigger] self.run_for(input, k).state),
    {
        let w = widest(self.instrs);
        assert forall|k: nat| k < limit implies self.fits(
            #[trigger] self.run_for(input, k).state,
        ) by {
            let s = self.run_for(input, k).state;
            self.lemma_run_reach(input, k);
            if 0 <= s.pc < self.instrs.len() {
                lemma_widest(self.instrs, s.pc);
            }
            assert(k * w + w <= limit * w) by (nonlinear_arith)
                requires
                    k < limit,
                    w >= 0,
            ;
        }
    }

    /// A run that has stopped stays where it is.
    pub proof fn lemma_stopped_stays(self, input: Seq<u8>, k: nat, n: nat)
        requires
            self.status(self.run_for(input, k), input) != Status::Running,
            k <= n,
        ensures
            self.run_for(input, n) == self.run_for(input, k),
        decreases n,
    {
        if k < n {
            self.lemma_stopped_stays(input, k, (n - 1) as nat);
        }
    }
}

/// Compiles one symbol that is no bracket into `instrs`.
fn append(instrs: &mut Vec<IR>, op: OpCode)
    requires
        op != OpCode::LB,
        op != OpCode::RB,
        forall|a: int| 0 <= a < old(instrs).len() ==> old(instrs)[a].width() < usize::MAX,
    ensures
        final(instrs)@ == appended(old(instrs)@, op),
{
    let n = instrs.len();
    if n > 0 {
        match instrs[n - 1].merge(op) {
            Some(ir) => {
                instrs.set(n - 1, ir);
                return ;
            },
            None => {},
        }
    }
    instrs.push(IR::first(op));
}

impl Code {
    /// Compiles a source buffer.
    ///
    /// Fails exactly when some `]` has no `[` before it left to close. A
    /// `[` that is never closed is accepted and keeps the target 0.
    pub fn from(data: Vec<u8>) -> (res: Result<Code, CompileError>)
        ensures
            res is Err <==> stray_close(ops(data@)),
            res matches Err(e) ==> e == CompileError::UnbalancedCloseBracket,
            res matches Ok(code) ==> code@.compiled_from(data@) && code@.wf(),
    {
        let mut instrs: Vec<IR> = Vec::new();
        let mut jstack: Vec<usize> = Vec::new();
        let mut p: usize = 0;
        proof {
            assert(data@.take(0) =~= Seq::<u8>::empty());
            lemma_partial_empty();
        }
        while p < data.len()
            invariant
                p <= data.len(),
                expand(instrs@) == ops(data@.take(p as int)),
                instrs.len() <= p,
                forall|a: int| 0 <= a < instrs.len() ==> (#[trigger] instrs[a]).width() <= p,
                partial(instrs@, jstack@),
            decreases data.len() - p,
        {
            let ghost before = instrs@;
            let ghost stack = jstack@;
            let n = instrs.len();
            proof {
                lemma_ops_step(data@, p as int);
            }
            match OpCode::parse(data[p]) {
                None => {},
                Some(OpCode::LB) => {
                    proof {
                        lemma_partial_open(before, stack);
                    }
                    instrs.push(IR::JIZ(0));
                    jstack.push(n);
                },
                Some(OpCode::RB) => {
                    match jstack.pop() {
                        None => {
                            proof {
                                lemma_partial_stray(before, stack);
                                lemma_ops_prefix(data@, p as int + 1);
                                lemma_stray_extends(expand(before).push(OpCode::RB), ops(data@));
                            }
                            return Err(CompileError::UnbalancedCloseBracket);
                        },
                        Some(j) => {
                            proof {
                                lemma_partial_close(before, stack);
                                assert(jstack@ =~= stack.drop_last());
                            }
                            instrs.push(IR::JNZ(j));
                            instrs.set(j, IR::JIZ(n));
                        },
                    }
                },
                Some(op) => {
                    proof {
                        lemma_partial_plain(before, stack, op);
                    }
                    append(&mut instrs, op);
                },
            }
            p += 1;
        }
        assert(data@.take(p as int) =~= data@);
        proof {
            lemma_partial_done(instrs@, jstack@);
        }
        Ok(Code { instrs })
    }

    /// The number of instructions.
    pub fn len(&self) -> (n: usize)
        ensures
            n == self@.instrs.len(),
    {
        self.instrs.len()
    }

    /// The instruction at position `i`.
    pub fn get(&self, i: usize) -> (ir: Option<IR>)
        ensures
            ir == if i < self@.instrs.len() {
                Some(self@.instrs[i as int])
            } else {
                None
            },
    {
        if i < self.instrs.len() {
            Some(self.instrs[i])
        } else {
            None
        }
    }

    /// The largest move to the right that any instruction makes.
    pub fn widest(&self) -> (w: usize)
        ensures
            w == widest(self@.instrs),
    {
        let mut w: usize = 0;
        let mut i: usize = 0;
        assert(self.instrs@.take(0) =~= Seq::<IR>::empty());
        while i < self.instrs.len()
            invariant
                i <= self.instrs.len(),
                w == widest(self.instrs@.take(i as int)),
            decreases self.instrs.len() - i,
        {
            assert(self.instrs@.take(i + 1).drop_last() =~= self.instrs@.take(i as int));
            match self.instrs[i] {
                IR::SHR(n) => {
                    if n > w {
                        w = n;
                    }
                },
                _ => {},
            }
            i += 1;
        }
        assert(self.instrs@.take(i as int) =~= self.instrs@);
        w
    }
}

/// The interpreter of the folded form.
pub struct Interpreter {}

impl Interpreter {
    /// Where a run of `code` stands whose machine is `m`; `more_input` says
    /// whether the input stream has a byte left.
    pub fn status(code: &Code, m: &Machine, more_input: bool) -> (st: Status)
        requires
            m@.wf(),
        ensures
            st == status_of(code@.step(m@, None).1, more_input),
    {
        let pc = m.pc();
        if pc >= code.instrs.len() {
            return Status::Finished;
        }
        match code.instrs[pc] {
            IR::SHL(n) => if m.cursor() < n {
                Status::LeftBoundary
            } else {
                Status::Running
            },
            IR::PUTCHAR => if more_input {
                Status::Running
            } else {
                Status::InputExhausted
            },
            _ => Status::Running,
        }
    }

    /// Whether the tape that the next step of `m` needs can be addressed.
    pub fn fits(code: &Code, m: &Machine) -> (r: bool)
        ensures
            r == code@.fits(m@),
    {
        proof {
            m.lemma_fits();
        }
        let pc = m.pc();
        if pc >= code.instrs.len() {
            return true;
        }
        match code.instrs[pc] {
            IR::SHR(n) => n <= usize::MAX - m.cursor(),
            _ => true,
        }
    }

    /// Executes the instruction at the program counter of `m`.
    ///
    /// Performs no I/O: the result says what the driver owes. On
    /// [`Action::Input`] the machine has not moved, and the driver repeats
    /// the step with the byte it read in `input`. Any other instruction
    /// ignores `input`.
    pub fn step(code: &Code, m: &mut Machine, input: Option<u8>) -> (act: Action)
        requires
            code@.wf(),
            old(m)@.wf(),
            code@.fits(old(m)@),
        ensures
            (final(m)@, act) == code@.step(old(m)@, input),
            final(m)@.wf(),
    {
        let pc = m.pc();
        if pc >= code.instrs.len() {
            return Action::Finished;
        }
        match code.instrs[pc] {
            IR::SHR(n) => {
                m.shift_right(n);
                m.goto(pc + 1);
                Action::Continue
            },
            IR::SHL(n) => {
                if m.cursor() < n {
                    return Action::LeftBoundary;
                }
                m.shift_left(n);
                m.goto(pc + 1);
                Action::Continue
            },
            IR::ADD(n) => {
                m.incr(n);
                m.goto(pc + 1);
                Action::Continue
            },
            IR::SUB(n) => {
                m.decr(n);
                m.goto(pc + 1);
                Action::Continue
            },
            IR::GETCHAR => {
                let b = m.cell();
                m.goto(pc + 1);
                Action::Output(b)
            },
            IR::PUTCHAR => match input {
                Some(b) => {
                    m.store(b);
                    m.goto(pc + 1);
                    Action::Continue
                },
                None => Action::Input,
            },
            IR::JIZ(t) => {
                if m.cell() == 0 {
                    m.goto(t + 1);
                } else {
                    m.goto(pc + 1);
                }
                Action::Continue
            },
            IR::JNZ(t) => {
                if m.cell() != 0 {
                    m.goto(t + 1);
                } else {
                    m.goto(pc + 1);
                }
                Action::Continue
            },
        }
    }

    /// Runs `code` from the start against `input`, for at most `limit`
    /// steps, and collects what it writes.
    ///
    /// Every cell that a step of the run moves to must be addressable. The
    /// cursor moves right by no more than [`widest`] cells in a step, so a
    /// `limit` whose product with it is addressable will do:
    /// [`Program::lemma_reach_fits`].
    pub fn run(code: Code, input: &Vec<u8>, limit: usize) -> (out: Outcome)
        requires
            code@.wf(),
            forall|k: nat| k < limit ==> code@.fits(#[trigger] code@.run_for(input@, k).state),
        ensures
            out.output@ == code@.run_for(input@, limit as nat).output,
            out.status == code@.status(code@.run_for(input@, limit as nat), input@),
    {
        let mut m = Machine::new();
        let mut output: Vec<u8> = Vec::new();
        let mut pos: usize = 0;
        let mut steps: usize = 0;
        while steps < limit
            invariant
                steps <= limit,
                pos <= input.len(),
                code@.wf(),
                forall|k: nat|
                    k < limit ==> code@.fits(#[trigger] code@.run_for(input@, k).state),
                m@.wf(),
                code@.run_for(input@, steps as nat) == (Run {
                    state: m@,
                    consumed: pos as nat,
                    output: output@,
                }),
            decreases limit - steps,
        {
            let ghost r = code@.run_for(input@, steps as nat);
            let st = Self::status(&code, &m, pos < input.len());
            match st {
                Status::Running => {},
                _ => {
                    proof {
                        code@.lemma_stopped_stays(input@, steps as nat, limit as nat);
                    }
                    return Outcome { output, status: st };
                },
            }
            assert(code@.fits(r.state));
            let act = Self::step(&code, &mut m, None);
            match act {
                Action::Output(b) => {
                    output.push(b);
                },
                Action::Input => {
                    let b = input[pos];
                    let _ = Self::step(&code, &mut m, Some(b));
                    pos += 1;
                },
                _ => {},
            }
            steps += 1;
            assert(code@.run_for(input@, steps as nat) == code@.advance(r, input@));
        }
        let st = Self::status(&code, &m, pos < input.len());
        Outcome { output, status: st }
    }
}

} // verus!
