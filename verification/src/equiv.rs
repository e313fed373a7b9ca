//! The two forms of one program behave alike.
//!
//! The folded machine takes one step where the direct machine takes as many
//! as the instruction has repetitions. In between, the direct machine is
//! part of the way through that instruction. Neither writes nor reads in
//! between, so what the two have written and read agrees whenever the
//! direct machine stands in the instruction at which the folded one stands.
use crate::bf;
use crate::brackets::{balanced, lemma_open_has_close, matched, paired};
use crate::ir;
use crate::ir::{kinds, IR};
use crate::layout::{
    lemma_balanced_kinds, lemma_expand_at, lemma_matched_expand, lemma_origin_end,
    lemma_origin_monotone, origin,
};
use crate::machine::{Run, State, Status};
use crate::opcode::{ops, OpCode};
use vstd::prelude::*;

verus! {

/// `d` and `f` are the direct and the folded form of `src`, and `src` has
/// every loop closed.
pub open spec fn two_forms(d: bf::Program, f: ir::Program, src: Seq<u8>) -> bool {
    &&& balanced(ops(src))
    &&& d.wf()
    &&& d.compiled_from(src)
    &&& f.wf()
    &&& f.compiled_from(src)
}

/// The direct machine that has executed `k` symbols of the instruction at
/// which the folded machine `s` stands.
pub open spec fn partway(f: ir::Program, s: State, k: int) -> State {
    let at = origin(f.instrs, s.pc) + k;
    if k == 0 {
        s.goto(at)
    } else {
        match f.instrs[s.pc] {
            IR::SHR(_) => s.right(k).goto(at),
            IR::SHL(_) => s.left(k).goto(at),
            IR::ADD(_) => s.incr(k).goto(at),
            IR::SUB(_) => s.decr(k).goto(at),
            _ => s.goto(at),
        }
    }
}

/// The direct run `rd` stands `k` symbols into the instruction at which the
/// folded run `rf` stands, and the two have read and written the same.
pub open spec fn in_step(f: ir::Program, rd: Run, rf: Run, k: int) -> bool {
    &&& rf.state.wf()
    &&& rf.state.pc <= f.instrs.len()
    &&& 0 <= k
    &&& k > 0 ==> {
        &&& rf.state.pc < f.instrs.len()
        &&& k < f.instrs[rf.state.pc].width()
        &&& f.instrs[rf.state.pc] is SHL ==> k <= rf.state.cursor
    }
    &&& rd.state == partway(f, rf.state, k)
    &&& rd.consumed == rf.consumed
    &&& rd.output == rf.output
}

/// Each symbol of a folded instruction is the direct instruction at its
/// place.
pub proof fn lemma_symbol_agrees(
    d: bf::Program,
    f: ir::Program,
    src: Seq<u8>,
    a: int,
    k: int,
)
    requires
        two_forms(d, f, src),
        0 <= a < f.instrs.len(),
        0 <= k < f.instrs[a].width(),
    ensures
        0 <= origin(f.instrs, a) + k < d.instrs.len(),
        d.instrs[origin(f.instrs, a) + k] == f.instrs[a].opcode(),
        origin(f.instrs, a + 1) == origin(f.instrs, a) + f.instrs[a].width(),
        origin(f.instrs, a + 1) <= d.instrs.len(),
{
    lemma_expand_at(f.instrs, a, k);
    lemma_origin_end(f.instrs);
    lemma_origin_monotone(f.instrs, a + 1, f.instrs.len() as int);
}

/// Where a folded branch carries a target, the jump table of the direct
/// form holds the place of that target under the place of the branch.
pub proof fn lemma_branch_agrees(d: bf::Program, f: ir::Program, src: Seq<u8>, a: int)
    requires
        two_forms(d, f, src),
        0 <= a < f.instrs.len(),
        f.instrs[a] is JIZ || f.instrs[a] is JNZ,
    ensures
        ({
            let t: int = match f.instrs[a] {
                IR::JIZ(t) => t as int,
                IR::JNZ(t) => t as int,
                _ => 0,
            };
            let here = origin(f.instrs, a);
            &&& 0 <= t < f.instrs.len()
            &&& 0 <= here < d.instrs.len()
            &&& d.table.contains_key(here as usize)
            &&& d.table[here as usize] == origin(f.instrs, t)
            &&& origin(f.instrs, t + 1) == origin(f.instrs, t) + 1
        }),
{
    let ks = kinds(f.instrs);
    let here = origin(f.instrs, a);
    lemma_symbol_agrees(d, f, src, a, 0);
    match f.instrs[a] {
        IR::JIZ(t) => {
            lemma_balanced_kinds(f.instrs);
            lemma_open_has_close(ks, a);
            assert(matched(ks, a, t as int));
            lemma_matched_expand(f.instrs, a, t as int);
            let there = origin(f.instrs, t as int);
            lemma_symbol_agrees(d, f, src, t as int, 0);
            assert(paired(d.instrs, here as usize as int, there as usize as int));
            assert(d.table.contains_pair(here as usize, there as usize));
        },
        IR::JNZ(t) => {
            assert(matched(ks, t as int, a));
            lemma_matched_expand(f.instrs, t as int, a);
            let there = origin(f.instrs, t as int);
            lemma_symbol_agrees(d, f, src, t as int, 0);
            assert(paired(d.instrs, here as usize as int, there as usize as int));
            assert(d.table.contains_pair(here as usize, there as usize));
        },
        _ => {},
    }
}

/// Where the direct run has stopped, the folded run has stopped for the
/// same reason.
pub proof fn lemma_direct_stopped(
    d: bf::Program,
    f: ir::Program,
    src: Seq<u8>,
    input: Seq<u8>,
    rd: Run,
    rf: Run,
    k: int,
)
    requires
        two_forms(d, f, src),
        in_step(f, rd, rf, k),
        d.status(rd, input) != Status::Running,
    ensures
        f.status(rf, input) == d.status(rd, input),
{
    let a = rf.state.pc;
    lemma_origin_end(f.instrs);
    if a < f.instrs.len() {
        lemma_symbol_agrees(d, f, src, a, k);
    }
}

/// What the step of the direct run needs to know of the two forms at the
/// instruction `a`, `k` symbols into it.
spec fn placed(d: bf::Program, f: ir::Program, a: int, k: int) -> bool {
    let here = origin(f.instrs, a);
    &&& 0 <= a < f.instrs.len()
    &&& 0 <= k < f.instrs[a].width()
    &&& 0 <= here + k < d.instrs.len()
    &&& d.instrs[here + k] == f.instrs[a].opcode()
    &&& origin(f.instrs, a + 1) == here + f.instrs[a].width()
    &&& match f.instrs[a] {
        IR::JIZ(t) => d.table[here as usize] == origin(f.instrs, t as int) && origin(
            f.instrs,
            t + 1,
        ) == origin(f.instrs, t as int) + 1 && t < f.instrs.len(),
        IR::JNZ(t) => d.table[here as usize] == origin(f.instrs, t as int) && origin(
            f.instrs,
            t + 1,
        ) == origin(f.instrs, t as int) + 1 && t < f.instrs.len(),
        _ => true,
    }
}

/// The direct step inside or at the end of a move to the right.

proof fn lemma_step_shr(d: bf::Program, f: ir::Program, input: Seq<u8>, rd: Run, rf: Run, k: int)
    requires
        in_step(f, rd, rf, k),
        placed(d, f, rf.state.pc, k),
        d.status(rd, input) == Status::Running,
        f.instrs[rf.state.pc] is SHR,
    ensures
        k + 1 < f.instrs[rf.state.pc].width() ==> in_step(f, d.advance(rd, input), rf, k + 1),
        k + 1 >= f.instrs[rf.state.pc].width() ==> f.status(rf, input) == Status::Running
            && in_step(f, d.advance(rd, input), f.advance(rf, input), 0),
{
    let s = rf.state;
    let w = f.instrs[s.pc].width() as int;
    let here = origin(f.instrs, s.pc);
    let sd = rd.state;
    assert(sd.pc == here + k);
    let sd2 = d.step(sd, None).0;
    assert(d.advance(rd, input) == Run { state: sd2, ..rd });
    assert(d.instrs[sd.pc] == OpCode::SHR);
    assert(sd2 == sd.right(1).goto(sd.pc + 1));
    assert(sd2.tape =~= s.right(k + 1).tape);
    if k + 1 >= w {
        let sf2 = f.step(s, None).0;
        assert(f.advance(rf, input) == Run { state: sf2, ..rf });
        assert(sd2 == partway(f, sf2, 0));
    } else {
        assert(sd2 == partway(f, s, k + 1));
    }
}

/// The direct step inside or at the end of a move to the left.

proof fn lemma_step_shl(d: bf::Program, f: ir::Program, input: Seq<u8>, rd: Run, rf: Run, k: int)
    requires
        in_step(f, rd, rf, k),
        placed(d, f, rf.state.pc, k),
        d.status(rd, input) == Status::Running,
        f.instrs[rf.state.pc] is SHL,
    ensures
        k + 1 < f.instrs[rf.state.pc].width() ==> in_step(f, d.advance(rd, input), rf, k + 1),
        k + 1 >= f.instrs[rf.state.pc].width() ==> f.status(rf, input) == Status::Running
            && in_step(f, d.advance(rd, input), f.advance(rf, input), 0),
{
    let s = rf.state;
    let w = f.instrs[s.pc].width() as int;
    let here = origin(f.instrs, s.pc);
    let sd = rd.state;
    assert(sd.pc == here + k);
    let sd2 = d.step(sd, None).0;
    assert(d.advance(rd, input) == Run { state: sd2, ..rd });
    assert(d.instrs[sd.pc] == OpCode::SHL);
    assert(sd.cursor == s.cursor - k);
    assert(sd2 == sd.left(1).goto(sd.pc + 1));
    if k + 1 >= w {
        let sf2 = f.step(s, None).0;
        assert(f.advance(rf, input) == Run { state: sf2, ..rf });
        assert(sd2 == partway(f, sf2, 0));
    } else {
        assert(sd2 == partway(f, s, k + 1));
    }
}

/// The direct step inside or at the end of an addition.

proof fn lemma_step_add(d: bf::Program, f: ir::Program, input: Seq<u8>, rd: Run, rf: Run, k: int)
    requires
        in_step(f, rd, rf, k),
        placed(d, f, rf.state.pc, k),
        d.status(rd, input) == Status::Running,
        f.instrs[rf.state.pc] is ADD,
    ensures
        k + 1 < f.instrs[rf.state.pc].width() ==> in_step(f, d.advance(rd, input), rf, k + 1),
        k + 1 >= f.instrs[rf.state.pc].width() ==> f.status(rf, input) == Status::Running
            && in_step(f, d.advance(rd, input), f.advance(rf, input), 0),
{
    let s = rf.state;
    let w = f.instrs[s.pc].width() as int;
    let here = origin(f.instrs, s.pc);
    let sd = rd.state;
    assert(sd.pc == here + k);
    let sd2 = d.step(sd, None).0;
    assert(d.advance(rd, input) == Run { state: sd2, ..rd });
    assert(d.instrs[sd.pc] == OpCode::ADD);
    assert(sd2 == sd.incr(1).goto(sd.pc + 1));
    assert(sd2.tape =~= s.incr(k + 1).tape);
    if k + 1 >= w {
        let sf2 = f.step(s, None).0;
        assert(f.advance(rf, input) == Run { state: sf2, ..rf });
        assert(sd2 == partway(f, sf2, 0));
    } else {
        assert(sd2 == partway(f, s, k + 1));
    }
}

/// The direct step inside or at the end of a subtraction.

proof fn lemma_step_sub(d: bf::Program, f: ir::Program, input: Seq<u8>, rd: Run, rf: Run, k: int)
    requires
        in_step(f, rd, rf, k),
        placed(d, f, rf.state.pc, k),
        d.status(rd, input) == Status::Running,
        f.instrs[rf.state.pc] is SUB,
    ensures
        k + 1 < f.instrs[rf.state.pc].width() ==> in_step(f, d.advance(rd, input), rf, k + 1),
        k + 1 >= f.instrs[rf.state.pc].width() ==> f.status(rf, input) == Status::Running
            && in_step(f, d.advance(rd, input), f.advance(rf, input), 0),
{
    let s = rf.state;
    let w = f.instrs[s.pc].width() as int;
    let here = origin(f.instrs, s.pc);
    let sd = rd.state;
    assert(sd.pc == here + k);
    let sd2 = d.step(sd, None).0;
    assert(d.advance(rd, input) == Run { state: sd2, ..rd });
    assert(d.instrs[sd.pc] == OpCode::SUB);
    assert(sd2 == sd.decr(1).goto(sd.pc + 1));
    assert(sd2.tape =~= s.decr(k + 1).tape);
    if k + 1 >= w {
        let sf2 = f.step(s, None).0;
        assert(f.advance(rf, input) == Run { state: sf2, ..rf });
        assert(sd2 == partway(f, sf2, 0));
    } else {
        assert(sd2 == partway(f, s, k + 1));
    }
}

/// The direct step that writes or reads: the folded run takes the same.

proof fn lemma_step_io(d: bf::Program, f: ir::Program, input: Seq<u8>, rd: Run, rf: Run, k: int)
    requires
        in_step(f, rd, rf, k),
        placed(d, f, rf.state.pc, k),
        d.status(rd, input) == Status::Running,
        f.instrs[rf.state.pc] is GETCHAR || f.instrs[rf.state.pc] is PUTCHAR,
    ensures
        k + 1 < f.instrs[rf.state.pc].width() ==> in_step(f, d.advance(rd, input), rf, k + 1),
        k + 1 >= f.instrs[rf.state.pc].width() ==> f.status(rf, input) == Status::Running
            && in_step(f, d.advance(rd, input), f.advance(rf, input), 0),
{
    let s = rf.state;
    let rd2 = d.advance(rd, input);
    let rf2 = f.advance(rf, input);
    assert(k == 0);
    assert(rd.state == s.goto(origin(f.instrs, s.pc)));
    assert(rd2.state == partway(f, rf2.state, 0));
}

/// The direct step at a bracket: the folded run branches alike.

proof fn lemma_step_branch(d: bf::Program, f: ir::Program, input: Seq<u8>, rd: Run, rf: Run, k: int)
    requires
        in_step(f, rd, rf, k),
        placed(d, f, rf.state.pc, k),
        d.status(rd, input) == Status::Running,
        f.instrs[rf.state.pc] is JIZ || f.instrs[rf.state.pc] is JNZ,
    ensures
        k + 1 < f.instrs[rf.state.pc].width() ==> in_step(f, d.advance(rd, input), rf, k + 1),
        k + 1 >= f.instrs[rf.state.pc].width() ==> f.status(rf, input) == Status::Running
            && in_step(f, d.advance(rd, input), f.advance(rf, input), 0),
{
    let s = rf.state;
    let rd2 = d.advance(rd, input);
    let rf2 = f.advance(rf, input);
    assert(k == 0);
    assert(rd.state == s.goto(origin(f.instrs, s.pc)));
    assert(rd2.state == partway(f, rf2.state, 0));
}

/// The direct step at any instruction.

proof fn lemma_step_placed(d: bf::Program, f: ir::Program, input: Seq<u8>, rd: Run, rf: Run, k: int)
    requires
        in_step(f, rd, rf, k),
        placed(d, f, rf.state.pc, k),
        d.status(rd, input) == Status::Running,
    ensures
        k + 1 < f.instrs[rf.state.pc].width() ==> in_step(f, d.advance(rd, input), rf, k + 1),
        k + 1 >= f.instrs[rf.state.pc].width() ==> f.status(rf, input) == Status::Running
            && in_step(f, d.advance(rd, input), f.advance(rf, input), 0),
{
    match f.instrs[rf.state.pc] {
        IR::SHR(_) => lemma_step_shr(d, f, input, rd, rf, k),
        IR::SHL(_) => lemma_step_shl(d, f, input, rd, rf, k),
        IR::ADD(_) => lemma_step_add(d, f, input, rd, rf, k),
        IR::SUB(_) => lemma_step_sub(d, f, input, rd, rf, k),
        IR::GETCHAR => lemma_step_io(d, f, input, rd, rf, k),
        IR::PUTCHAR => lemma_step_io(d, f, input, rd, rf, k),
        IR::JIZ(_) => lemma_step_branch(d, f, input, rd, rf, k),
        IR::JNZ(_) => lemma_step_branch(d, f, input, rd, rf, k),
    }
}

/// One step of the direct run either stays inside the folded instruction
/// or completes it, and then the folded run takes its step.
pub proof fn lemma_direct_step(
    d: bf::Program,
    f: ir::Program,
    src: Seq<u8>,
    input: Seq<u8>,
    rd: Run,
    rf: Run,
    k: int,
)
    requires
        two_forms(d, f, src),
        in_step(f, rd, rf, k),
        d.status(rd, input) == Status::Running,
    ensures
        rf.state.pc < f.instrs.len(),
        k + 1 < f.instrs[rf.state.pc].width() ==> in_step(f, d.advance(rd, input), rf, k + 1),
        k + 1 >= f.instrs[rf.state.pc].width() ==> f.status(rf, input) == Status::Running
            && in_step(f, d.advance(rd, input), f.advance(rf, input), 0),
{
    let a = rf.state.pc;
    lemma_origin_end(f.instrs);
    assert(a < f.instrs.len());
    lemma_symbol_agrees(d, f, src, a, k);
    if f.instrs[a] is JIZ || f.instrs[a] is JNZ {
        lemma_branch_agrees(d, f, src, a);
    }
    assert(placed(d, f, a, k));
    lemma_step_placed(d, f, input, rd, rf, k);
}

/// A run that is not running does not move.
proof fn lemma_direct_rests(d: bf::Program, input: Seq<u8>, n: nat)
    requires
        d.status(d.run_for(input, n), input) != Status::Running,
    ensures
        d.run_for(input, n + 1) == d.run_for(input, n),
{
    d.lemma_stopped_stays(input, n, n + 1);
}

/// Follows the direct run for `n` steps and says where the folded run
/// stands meanwhile: after how many steps, and how many symbols the direct
/// run is into the next one.
proof fn lemma_follow(d: bf::Program, f: ir::Program, src: Seq<u8>, input: Seq<u8>, n: nat) -> (mk:
    (nat, int))
    requires
        two_forms(d, f, src),
    ensures
        mk.0 <= n,
        in_step(f, d.run_for(input, n), f.run_for(input, mk.0), mk.1),
    decreases n,
{
    if n == 0 {
        (0, 0)
    } else {
        let before = (n - 1) as nat;
        let (m, k) = lemma_follow(d, f, src, input, before);
        let rd = d.run_for(input, before);
        let rf = f.run_for(input, m);
        if d.status(rd, input) == Status::Running {
            lemma_direct_step(d, f, src, input, rd, rf, k);
            if k + 1 < f.instrs[rf.state.pc].width() {
                (m, k + 1)
            } else {
                ((m + 1) as nat, 0)
            }
        } else {
            lemma_direct_rests(d, input, before);
            (m, k)
        }
    }
}

/// Lets the direct run finish the instruction that the folded run is about
/// to execute.
proof fn lemma_catch_up(
    d: bf::Program,
    f: ir::Program,
    src: Seq<u8>,
    input: Seq<u8>,
    n: nat,
    m: nat,
    k: int,
) -> (n2: nat)
    requires
        two_forms(d, f, src),
        in_step(f, d.run_for(input, n), f.run_for(input, m), k),
        f.status(f.run_for(input, m), input) == Status::Running,
    ensures
        n2 > n,
        in_step(f, d.run_for(input, n2), f.run_for(input, m + 1), 0),
    decreases f.instrs[f.run_for(input, m).state.pc].width() - k,
{
    let rd = d.run_for(input, n);
    let rf = f.run_for(input, m);
    if d.status(rd, input) != Status::Running {
        lemma_direct_stopped(d, f, src, input, rd, rf, k);
    }
    lemma_direct_step(d, f, src, input, rd, rf, k);
    if k + 1 < f.instrs[rf.state.pc].width() {
        lemma_catch_up(d, f, src, input, n + 1, m, k + 1)
    } else {
        n + 1
    }
}

/// Follows the folded run for `m` steps and says after how many steps the
/// direct run stands at the same instruction.
proof fn lemma_lead(d: bf::Program, f: ir::Program, src: Seq<u8>, input: Seq<u8>, m: nat) -> (n:
    nat)
    requires
        two_forms(d, f, src),
    ensures
        in_step(f, d.run_for(input, n), f.run_for(input, m), 0),
    decreases m,
{
    if m == 0 {
        0
    } else {
        let before = (m - 1) as nat;
        let n0 = lemma_lead(d, f, src, input, before);
        if f.status(f.run_for(input, before), input) == Status::Running {
            lemma_catch_up(d, f, src, input, n0, before, 0)
        } else {
            f.lemma_stopped_stays(input, before, m);
            n0
        }
    }
}

/// Where the folded run has stopped, lets the direct run go on until it
/// stops too.
proof fn lemma_settle(
    d: bf::Program,
    f: ir::Program,
    src: Seq<u8>,
    input: Seq<u8>,
    n: nat,
    m: nat,
    k: int,
) -> (n2: nat)
    requires
        two_forms(d, f, src),
        in_step(f, d.run_for(input, n), f.run_for(input, m), k),
        f.status(f.run_for(input, m), input) != Status::Running,
    ensures
        n2 >= n,
        d.status(d.run_for(input, n2), input) == f.status(f.run_for(input, m), input),
        d.run_for(input, n2).output == f.run_for(input, m).output,
        d.run_for(input, n2).consumed == f.run_for(input, m).consumed,
        d.run_for(input, n2).state.tape == f.run_for(input, m).state.tape,
        f.status(f.run_for(input, m), input) != Status::LeftBoundary ==> d.run_for(
            input,
            n2,
        ).state.cursor == f.run_for(input, m).state.cursor,
    decreases f.instrs[f.run_for(input, m).state.pc].width() - k,
{
    let rd = d.run_for(input, n);
    let rf = f.run_for(input, m);
    if d.status(rd, input) != Status::Running {
        lemma_direct_stopped(d, f, src, input, rd, rf, k);
        lemma_origin_end(f.instrs);
        if rf.state.pc < f.instrs.len() {
            lemma_symbol_agrees(d, f, src, rf.state.pc, k);
        }
        n
    } else {
        lemma_direct_step(d, f, src, input, rd, rf, k);
        lemma_settle(d, f, src, input, n + 1, m, k + 1)
    }
}

/// Whatever the direct form has written and read after `n` steps, the
/// folded form of the same balanced source has written and read after some
/// `m <= n` steps. If the direct run has stopped, the folded run has
/// stopped for the same reason.
pub proof fn lemma_folded_follows(
    d: bf::Program,
    f: ir::Program,
    src: Seq<u8>,
    input: Seq<u8>,
    n: nat,
) -> (m: nat)
    requires
        two_forms(d, f, src),
    ensures
        m <= n,
        f.run_for(input, m).output == d.run_for(input, n).output,
        f.run_for(input, m).consumed == d.run_for(input, n).consumed,
        d.status(d.run_for(input, n), input) != Status::Running ==> f.status(
            f.run_for(input, m),
            input,
        ) == d.status(d.run_for(input, n), input),
{
    let (m, k) = lemma_follow(d, f, src, input, n);
    if d.status(d.run_for(input, n), input) != Status::Running {
        lemma_direct_stopped(d, f, src, input, d.run_for(input, n), f.run_for(input, m), k);
    }
    m
}

/// Whatever the folded form has written and read after `m` steps, the
/// direct form of the same balanced source has written and read after some
/// `n` steps, and its tape is then the same. Its cursor is the same too,
/// unless the folded run stands at the left boundary: there the folded
/// machine does not move at all, and the direct one moves as far as it can.
/// If the folded run has stopped, the direct run has stopped for the same
/// reason.
pub proof fn lemma_direct_follows(
    d: bf::Program,
    f: ir::Program,
    src: Seq<u8>,
    input: Seq<u8>,
    m: nat,
) -> (n: nat)
    requires
        two_forms(d, f, src),
    ensures
        d.run_for(input, n).output == f.run_for(input, m).output,
        d.run_for(input, n).consumed == f.run_for(input, m).consumed,
        d.run_for(input, n).state.tape == f.run_for(input, m).state.tape,
        f.status(f.run_for(input, m), input) != Status::LeftBoundary ==> d.run_for(
            input,
            n,
        ).state.cursor == f.run_for(input, m).state.cursor,
        f.status(f.run_for(input, m), input) != Status::Running ==> d.status(
            d.run_for(input, n),
            input,
        ) == f.status(f.run_for(input, m), input),
{
    let n0 = lemma_lead(d, f, src, input, m);
    if f.status(f.run_for(input, m), input) != Status::Running {
        lemma_settle(d, f, src, input, n0, m, 0)
    } else {
        n0
    }
}

/// Where the direct form stops within `n` steps, the folded form of the
/// same balanced source stops within `n` steps too, for the same reason
/// and with the same output.
pub proof fn lemma_folded_no_slower(
    d: bf::Program,
    f: ir::Program,
    src: Seq<u8>,
    input: Seq<u8>,
    n: nat,
)
    requires
        two_forms(d, f, src),
        d.status(d.run_for(input, n), input) != Status::Running,
    ensures
        f.run_for(input, n).output == d.run_for(input, n).output,
        f.status(f.run_for(input, n), input) == d.status(d.run_for(input, n), input),
{
    let m = lemma_folded_follows(d, f, src, input, n);
    f.lemma_stopped_stays(input, m, n);
}

/// The two forms of a balanced source, each run on the same input until it
/// stops, have written the same bytes and stopped for the same reason.
pub proof fn lemma_same_outcome(
    d: bf::Program,
    f: ir::Program,
    src: Seq<u8>,
    input: Seq<u8>,
    n: nat,
    m: nat,
)
    requires
        two_forms(d, f, src),
        d.status(d.run_for(input, n), input) != Status::Running,
        f.status(f.run_for(input, m), input) != Status::Running,
    ensures
        d.run_for(input, n).output == f.run_for(input, m).output,
        d.status(d.run_for(input, n), input) == f.status(f.run_for(input, m), input),
{
    let m2 = lemma_folded_follows(d, f, src, input, n);
    if m2 <= m {
        f.lemma_stopped_stays(input, m2, m);
    } else {
        f.lemma_stopped_stays(input, m, m2);
    }
}

} // verus!
