//! What holds of every run, whatever the program.
use crate::bf;
use crate::brackets::{
    balanced, lemma_matched_unique, lemma_open_has_close, lemma_tight_loop, matched, paired,
};
use crate::ir;
use crate::ir::{expand, joins, kinds, maximal, IR};
use crate::layout::{
    lemma_balanced_kinds, lemma_expand_at, lemma_origin_end, lemma_origin_monotone, origin,
};
use crate::machine::{wrap, Run, State, Status};
use crate::opcode::{ops, OpCode};
use vstd::prelude::*;

verus! {

/// A tape of `n` zero cells.
pub open spec fn zeros(n: nat) -> Seq<u8> {
    Seq::new(n, |i: int| 0u8)
}

/// `after` is `before` grown on demand: it is no shorter, it holds what
/// `before` held everywhere but at `cursor`, and what it holds beyond is
/// zero.
pub open spec fn grown_from(before: Seq<u8>, cursor: int, after: Seq<u8>) -> bool {
    &&& before.len() <= after.len()
    &&& forall|i: int| 0 <= i < before.len() && i != cursor ==> after[i] == before[i]
    &&& forall|i: int| before.len() <= i < after.len() ==> after[i] == 0
}

/// Adding wraps around at 256: 256 more is no more, and two additions are
/// one.
pub proof fn lemma_incr_wraps(s: State, a: int, b: int)
    requires
        s.wf(),
    ensures
        s.incr(256) == s,
        s.incr(a).incr(b) == s.incr(a + b),
        s.incr(a).cell() == wrap(s.cell() + a),
{
    assert(s.incr(256).tape =~= s.tape);
    assert(s.incr(a).incr(b).tape =~= s.incr(a + b).tape);
}

/// Subtracting wraps around at 256 and undoes adding.
pub proof fn lemma_decr_wraps(s: State, a: int, b: int)
    requires
        s.wf(),
    ensures
        s.decr(256) == s,
        s.decr(a).decr(b) == s.decr(a + b),
        s.incr(a).decr(a) == s,
        s.decr(a).cell() == wrap(s.cell() - a),
{
    assert(s.decr(256).tape =~= s.tape);
    assert(s.decr(a).decr(b).tape =~= s.decr(a + b).tape);
    assert(s.incr(a).decr(a).tape =~= s.tape);
}

/// A step of the direct form grows the tape on demand and never shrinks
/// it: afterwards the tape is as long as it was, or just long enough for
/// the cursor.
pub proof fn lemma_direct_step_tape(d: bf::Program, s: State, input: Option<u8>)
    requires
        s.wf(),
    ensures
        d.step(s, input).0.wf(),
        grown_from(s.tape, s.cursor, d.step(s, input).0.tape),
        d.step(s, input).0.tape.len() == s.tape.len() || d.step(s, input).0.tape.len()
            == d.step(s, input).0.cursor + 1,
{
}

/// A step of the folded form grows the tape on demand and never shrinks
/// it: afterwards the tape is as long as it was, or just long enough for
/// the cursor.
pub proof fn lemma_folded_step_tape(f: ir::Program, s: State, input: Option<u8>)
    requires
        s.wf(),
    ensures
        f.step(s, input).0.wf(),
        grown_from(s.tape, s.cursor, f.step(s, input).0.tape),
        f.step(s, input).0.tape.len() == s.tape.len() || f.step(s, input).0.tape.len()
            == f.step(s, input).0.cursor + 1,
{
}

/// In a run of the direct form the cursor is always on the tape, and the
/// tape, what was read and what was written only grow.
pub proof fn lemma_direct_run_grows(d: bf::Program, input: Seq<u8>, a: nat, b: nat)
    requires
        a <= b,
    ensures
        d.run_for(input, a).state.wf(),
        d.run_for(input, a).state.tape.len() <= d.run_for(input, b).state.tape.len(),
        d.run_for(input, a).consumed <= d.run_for(input, b).consumed <= input.len(),
        d.run_for(input, a).output.is_prefix_of(d.run_for(input, b).output),
    decreases b,
{
    if b == 0 {
    } else if a == b {
        lemma_direct_run_grows(d, input, (a - 1) as nat, (a - 1) as nat);
        let r = d.run_for(input, (a - 1) as nat);
        lemma_direct_step_tape(d, r.state, None);
        lemma_direct_step_tape(d, r.state, r.next_input(input));
    } else {
        lemma_direct_run_grows(d, input, a, (b - 1) as nat);
        lemma_direct_run_grows(d, input, (b - 1) as nat, (b - 1) as nat);
        let r = d.run_for(input, (b - 1) as nat);
        lemma_direct_step_tape(d, r.state, None);
        lemma_direct_step_tape(d, r.state, r.next_input(input));
    }
}

/// In a run of the folded form the cursor is always on the tape, and the
/// tape, what was read and what was written only grow.
pub proof fn lemma_folded_run_grows(f: ir::Program, input: Seq<u8>, a: nat, b: nat)
    requires
        a <= b,
    ensures
        f.run_for(input, a).state.wf(),
        f.run_for(input, a).state.tape.len() <= f.run_for(input, b).state.tape.len(),
        f.run_for(input, a).consumed <= f.run_for(input, b).consumed <= input.len(),
        f.run_for(input, a).output.is_prefix_of(f.run_for(input, b).output),
    decreases b,
{
    if b == 0 {
    } else if a == b {
        lemma_folded_run_grows(f, input, (a - 1) as nat, (a - 1) as nat);
        let r = f.run_for(input, (a - 1) as nat);
        lemma_folded_step_tape(f, r.state, None);
        lemma_folded_step_tape(f, r.state, r.next_input(input));
    } else {
        lemma_folded_run_grows(f, input, a, (b - 1) as nat);
        lemma_folded_run_grows(f, input, (b - 1) as nat, (b - 1) as nat);
        let r = f.run_for(input, (b - 1) as nat);
        lemma_folded_step_tape(f, r.state, None);
        lemma_folded_step_tape(f, r.state, r.next_input(input));
    }
}

/// A direct program that begins with `n` moves to the right stands, after
/// `n` steps, on cell `n` of a tape of `n + 1` zero cells.
pub proof fn lemma_direct_moves_right(d: bf::Program, input: Seq<u8>, n: nat)
    requires
        n <= d.instrs.len(),
        forall|i: int| 0 <= i < n ==> d.instrs[i] == OpCode::SHR,
    ensures
        d.run_for(input, n) == (Run {
            state: State { pc: n as int, cursor: n as int, tape: zeros(n + 1) },
            consumed: 0,
            output: Seq::empty(),
        }),
    decreases n,
{
    if n == 0 {
        assert(zeros(1) =~= seq![0u8]);
    } else {
        lemma_direct_moves_right(d, input, (n - 1) as nat);
        let r = d.run_for(input, (n - 1) as nat);
        assert(d.instrs[n - 1] == OpCode::SHR);
        assert(r.state.right(1).tape =~= zeros(n + 1));
    }
}

/// A folded program that begins with a move of `n` cells to the right
/// stands, after one step, on cell `n` of a tape of `n + 1` zero cells.
pub proof fn lemma_folded_moves_right(f: ir::Program, input: Seq<u8>, n: usize)
    requires
        f.instrs.len() > 0,
        f.instrs[0] == IR::SHR(n),
    ensures
        f.run_for(input, 1) == (Run {
            state: State { pc: 1, cursor: n as int, tape: zeros((n + 1) as nat) },
            consumed: 0,
            output: Seq::empty(),
        }),
{
    assert(f.run_for(input, 0) == Run::start());
    assert(State::initial().right(n as int).tape =~= zeros((n + 1) as nat));
}

/// The folded form of a source that begins with a symbol begins with an
/// instruction that repeats that symbol.
pub proof fn lemma_first_instruction(f: ir::Program, src: Seq<u8>)
    requires
        f.compiled_from(src),
        ops(src).len() > 0,
    ensures
        f.instrs.len() > 0,
        f.instrs[0].opcode() == ops(src)[0],
        f.instrs[0].width() >= 1,
{
    lemma_expand_at(f.instrs, 0, 0);
}

/// The compiled forms of a source without symbols hold no instruction.
pub proof fn lemma_empty_source(d: bf::Program, f: ir::Program, src: Seq<u8>)
    requires
        d.compiled_from(src),
        f.compiled_from(src),
        ops(src).len() == 0,
    ensures
        d.instrs.len() == 0,
        f.instrs.len() == 0,
{
    lemma_origin_end(f.instrs);
    if f.instrs.len() > 0 {
        lemma_origin_monotone(f.instrs, 1, f.instrs.len() as int);
        assert(origin(f.instrs, 1) == origin(f.instrs, 0) + f.instrs[0].width());
    }
}

/// A program without instructions stops at once: it is finished before its
/// first step, and reads and writes nothing.
pub proof fn lemma_empty_run(d: bf::Program, f: ir::Program, input: Seq<u8>, n: nat)
    requires
        d.instrs.len() == 0,
        f.instrs.len() == 0,
    ensures
        d.run_for(input, n) == Run::start(),
        f.run_for(input, n) == Run::start(),
        d.status(Run::start(), input) == Status::Finished,
        f.status(Run::start(), input) == Status::Finished,
{
    assert(d.run_for(input, 0) == Run::start());
    assert(f.run_for(input, 0) == Run::start());
    d.lemma_stopped_stays(input, 0, n);
    f.lemma_stopped_stays(input, 0, n);
}

/// A source whose first symbol is `<` stops at the left boundary before
/// its first step, in both forms, whatever follows: it reads and writes
/// nothing.
pub proof fn lemma_leading_left(
    d: bf::Program,
    f: ir::Program,
    src: Seq<u8>,
    input: Seq<u8>,
    n: nat,
)
    requires
        d.compiled_from(src),
        f.compiled_from(src),
        ops(src).len() > 0,
        ops(src)[0] == OpCode::SHL,
    ensures
        d.run_for(input, n) == Run::start(),
        f.run_for(input, n) == Run::start(),
        d.status(Run::start(), input) == Status::LeftBoundary,
        f.status(Run::start(), input) == Status::LeftBoundary,
{
    lemma_first_instruction(f, src);
    assert(d.run_for(input, 0) == Run::start());
    assert(f.run_for(input, 0) == Run::start());
    d.lemma_stopped_stays(input, 0, n);
    f.lemma_stopped_stays(input, 0, n);
}

/// What instructions stand for ends with what the last of them repeats.
proof fn lemma_expand_last(x: Seq<IR>)
    requires
        x.len() > 0,
        x.last().width() >= 1,
    ensures
        expand(x).len() >= x.last().width(),
        expand(x).len() == expand(x.drop_last()).len() + x.last().width(),
        forall|i: int|
            expand(x).len() - x.last().width() <= i < expand(x).len() ==> expand(x)[i]
                == x.last().opcode(),
        forall|i: int|
            0 <= i < expand(x).len() - x.last().width() ==> expand(x)[i] == expand(
                x.drop_last(),
            )[i],
{
}

/// Symbols can be folded in one way only: two foldings of the same
/// symbols, neither with a count of zero or with neighbours that could be
/// one instruction, repeat the same operations the same number of times.
pub proof fn lemma_folding_unique(x: Seq<IR>, y: Seq<IR>)
    requires
        expand(x) == expand(y),
        forall|a: int| 0 <= a < x.len() ==> (#[trigger] x[a]).width() >= 1,
        forall|a: int| 0 <= a < y.len() ==> (#[trigger] y[a]).width() >= 1,
        maximal(x),
        maximal(y),
    ensures
        x.len() == y.len(),
        forall|a: int|
            0 <= a < x.len() ==> (#[trigger] x[a]).opcode() == y[a].opcode() && x[a].width()
                == y[a].width(),
    decreases x.len() + y.len(),
{
    if x.len() == 0 {
        if y.len() > 0 {
            lemma_expand_last(y);
        }
    } else if y.len() == 0 {
        lemma_expand_last(x);
    } else {
        let e = expand(x);
        let x0 = x.drop_last();
        let y0 = y.drop_last();
        let wx = x.last().width() as int;
        let wy = y.last().width() as int;
        lemma_expand_last(x);
        lemma_expand_last(y);
        assert(e[e.len() - 1] == x.last().opcode());
        assert(e[e.len() - 1] == y.last().opcode());
        if wx < wy {
            assert(x0.len() > 0);
            lemma_expand_last(x0);
            assert(expand(x0)[expand(x0).len() - 1] == x0.last().opcode());
            assert(e[e.len() - wx - 1] == y.last().opcode());
            assert(joins(x, x.len() - 1));
        }
        if wy < wx {
            assert(y0.len() > 0);
            lemma_expand_last(y0);
            assert(expand(y0)[expand(y0).len() - 1] == y0.last().opcode());
            assert(e[e.len() - wy - 1] == x.last().opcode());
            assert(joins(y, y.len() - 1));
        }
        assert(wx == wy);
        assert forall|i: int| 0 <= i < expand(x0).len() implies expand(x0)[i] == expand(y0)[i] by {
            assert(e[i] == expand(x0)[i]);
            assert(expand(y)[i] == expand(y0)[i]);
        }
        assert(expand(x0) =~= expand(y0));
        assert forall|a: int| 0 < a < x0.len() implies !#[trigger] joins(x0, a) by {
            assert(!joins(x, a));
        }
        assert forall|a: int| 0 < a < y0.len() implies !#[trigger] joins(y0, a) by {
            assert(!joins(y, a));
        }
        lemma_folding_unique(x0, y0);
        assert forall|a: int| 0 <= a < x.len() implies (#[trigger] x[a]).opcode() == y[a].opcode()
            && x[a].width() == y[a].width() by {
            if a < x0.len() {
                assert(x0[a] == x[a]);
                assert(y0[a] == y[a]);
            }
        }
    }
}

/// A source has one direct form.
pub proof fn lemma_direct_form_unique(d1: bf::Program, d2: bf::Program, src: Seq<u8>)
    requires
        d1.compiled_from(src),
        d2.compiled_from(src),
    ensures
        d1 == d2,
{
    assert forall|i: usize|
        #![trigger d1.table.dom().contains(i)]
        #![trigger d2.table.dom().contains(i)]
        d1.table.dom().contains(i) == d2.table.dom().contains(i) && (d1.table.dom().contains(i)
            ==> d1.table[i] == d2.table[i]) by {
        if d1.table.contains_key(i) {
            assert(d1.table.contains_pair(i, d1.table[i]));
            assert(paired(d1.instrs, i as int, d1.table[i] as int));
            assert(d2.table.contains_pair(i, d1.table[i]));
        }
        if d2.table.contains_key(i) {
            assert(d2.table.contains_pair(i, d2.table[i]));
            assert(paired(d2.instrs, i as int, d2.table[i] as int));
            assert(d1.table.contains_pair(i, d2.table[i]));
        }
    }
    assert(d1.table.dom() =~= d2.table.dom());
    assert(d1.table =~= d2.table);
}

/// A source has one folded form.
pub proof fn lemma_folded_form_unique(f1: ir::Program, f2: ir::Program, src: Seq<u8>)
    requires
        f1.compiled_from(src),
        f2.compiled_from(src),
        f1.wf(),
        f2.wf(),
    ensures
        f1 == f2,
{
    let x = f1.instrs;
    let y = f2.instrs;
    lemma_folding_unique(x, y);
    let ks = kinds(x);
    assert(kinds(y) =~= ks);
    assert forall|a: int| 0 <= a < x.len() implies x[a] == y[a] by {
        assert(x[a].opcode() == y[a].opcode() && x[a].width() == y[a].width());
        match x[a] {
            IR::JIZ(t1) => {
                let t2 = y[a]->JIZ_0;
                if matched(ks, a, t1 as int) && matched(ks, a, t2 as int) {
                    lemma_matched_unique(ks, a, t1 as int, a, t2 as int);
                }
            },
            IR::JNZ(t1) => {
                let t2 = y[a]->JNZ_0;
                lemma_matched_unique(ks, t1 as int, a, t2 as int, a);
            },
            _ => {},
        }
    }
    assert(x =~= y);
}

/// The jump table holds each loop under both of its ends: the entry of a
/// loop-open is the loop-close behind it, and the entry of that loop-close
/// is the loop-open.
pub proof fn lemma_table_mutual(d: bf::Program, src: Seq<u8>, i: usize)
    requires
        d.compiled_from(src),
        d.table.contains_key(i),
    ensures
        d.table.contains_key(d.table[i]),
        d.table[d.table[i]] == i,
        d.table[i] < d.instrs.len(),
        i < d.table[i] ==> d.instrs[i as int] == OpCode::LB && d.instrs[d.table[i] as int]
            == OpCode::RB,
        i >= d.table[i] ==> i > d.table[i] && d.instrs[i as int] == OpCode::RB
            && d.instrs[d.table[i] as int] == OpCode::LB,
{
    let j = d.table[i];
    assert(d.table.contains_pair(i, j));
    assert(paired(d.instrs, i as int, j as int));
    assert(paired(d.instrs, j as int, i as int));
    assert(d.table.contains_pair(j, i));
}

/// The two branches of a loop point at each other: a loop-close at its
/// loop-open before it, and that loop-open at the loop-close. A loop-open
/// that is never closed points at 0 and no loop-close points at it; in a
/// balanced source there is none.
pub proof fn lemma_branches_mutual(f: ir::Program, src: Seq<u8>, a: int)
    requires
        f.compiled_from(src),
        f.wf(),
        0 <= a < f.instrs.len(),
    ensures
        f.instrs[a] matches IR::JNZ(t) ==> t < a && f.instrs[t as int] == IR::JIZ(a as usize),
        f.instrs[a] matches IR::JIZ(t) ==> (a < t < f.instrs.len() && f.instrs[t as int]
            == IR::JNZ(a as usize)) || (t == 0 && !balanced(ops(src)) && forall|b: int|
            0 <= b < f.instrs.len() ==> f.instrs[b] != IR::JNZ(a as usize)),
{
    let ks = kinds(f.instrs);
    match f.instrs[a] {
        IR::JNZ(t) => {
            assert(matched(ks, t as int, a));
            assert(f.instrs[t as int].opcode() == OpCode::LB);
            let t2 = f.instrs[t as int]->JIZ_0;
            if matched(ks, t as int, t2 as int) {
                lemma_matched_unique(ks, t as int, a, t as int, t2 as int);
            }
        },
        IR::JIZ(t) => {
            if matched(ks, a, t as int) {
                assert(f.instrs[t as int].opcode() == OpCode::RB);
                let a2 = f.instrs[t as int]->JNZ_0;
                assert(matched(ks, a2 as int, t as int));
                lemma_matched_unique(ks, a, t as int, a2 as int, t as int);
            } else {
                if balanced(ops(src)) {
                    lemma_balanced_kinds(f.instrs);
                    lemma_open_has_close(ks, a);
                }
                assert forall|b: int| 0 <= b < f.instrs.len() implies f.instrs[b] != IR::JNZ(
                    a as usize,
                ) by {
                    if f.instrs[b] == IR::JNZ(a as usize) {
                        assert(matched(ks, a, b));
                    }
                }
            }
        },
        _ => {},
    }
}

/// The body of `[-]` in the direct form, from a cell that holds `c`.

proof fn lemma_direct_clear_body(d: bf::Program, input: Seq<u8>, r: Run, p: int, c: nat)
    requires
        0 <= p,
        p + 2 < d.instrs.len() <= usize::MAX,
        d.instrs[p + 1] == OpCode::SUB,
        d.instrs[p + 2] == OpCode::RB,
        d.table[(p + 2) as usize] == p,
        r.state.wf(),
        r.state.pc == p + 1,
        r.state.cell() == c,
        c >= 1,
    ensures
        d.run_on(r, input, 2 * c) == (Run { state: r.state.store(0).goto(p + 3), ..r }),
    decreases c,
{
    let r1 = d.advance(r, input);
    let r2 = d.advance(r1, input);
    assert(r1 == Run { state: r.state.decr(1).goto(p + 2), ..r });
    assert(r1.state.cell() == c - 1);
    assert(d.run_on(r, input, 1) == r1) by {
        assert(d.run_on(r, input, 0) == r);
    }
    assert(d.run_on(r, input, 2) == r2);
    if c == 1 {
        assert(r2.state.tape =~= r.state.store(0).tape);
    } else {
        assert(r2 == Run { state: r1.state.goto(p + 1), ..r });
        lemma_direct_clear_body(d, input, r2, p, (c - 1) as nat);
        d.lemma_run_on_adds(r, input, 2, (2 * (c - 1)) as nat);
        assert(r2.state.store(0).tape =~= r.state.store(0).tape);
    }
}

/// The loop `[-]` of the direct form, entered on a cell that is not zero,
/// counts the cell down to zero and leaves: after one step and two more
/// for each unit in the cell the machine stands behind the loop, the cell
/// is zero, and nothing else has changed, read or written.
pub proof fn lemma_direct_clear_loop(
    d: bf::Program,
    src: Seq<u8>,
    input: Seq<u8>,
    r: Run,
    p: int,
)
    requires
        d.compiled_from(src),
        d.wf(),
        0 <= p,
        p + 2 < d.instrs.len(),
        d.instrs[p] == OpCode::LB,
        d.instrs[p + 1] == OpCode::SUB,
        d.instrs[p + 2] == OpCode::RB,
        r.state.wf(),
        r.state.pc == p,
        r.state.cell() != 0,
    ensures
        d.run_on(r, input, (1 + 2 * r.state.cell()) as nat) == (Run {
            state: r.state.store(0).goto(p + 3),
            ..r
        }),
{
    let c = r.state.cell() as nat;
    lemma_tight_loop(d.instrs, p);
    assert(paired(d.instrs, (p + 2) as usize as int, p as usize as int));
    assert(d.table.contains_pair((p + 2) as usize, p as usize));
    let r1 = d.advance(r, input);
    assert(r1 == Run { state: r.state.goto(p + 1), ..r });
    assert(d.run_on(r, input, 1) == r1) by {
        assert(d.run_on(r, input, 0) == r);
    }
    lemma_direct_clear_body(d, input, r1, p, c);
    d.lemma_run_on_adds(r, input, 1, 2 * c);
}

/// The body of `[-]` in the folded form, from a cell that holds `c`.

proof fn lemma_folded_clear_body(f: ir::Program, input: Seq<u8>, r: Run, a: int, c: nat)
    requires
        0 <= a,
        a + 2 < f.instrs.len(),
        f.instrs[a + 1] == IR::SUB(1),
        f.instrs[a + 2] == IR::JNZ(a as usize),
        a <= usize::MAX,
        r.state.wf(),
        r.state.pc == a + 1,
        r.state.cell() == c,
        c >= 1,
    ensures
        f.run_on(r, input, 2 * c) == (Run { state: r.state.store(0).goto(a + 3), ..r }),
    decreases c,
{
    let r1 = f.advance(r, input);
    let r2 = f.advance(r1, input);
    assert(r1 == Run { state: r.state.decr(1).goto(a + 2), ..r });
    assert(r1.state.cell() == c - 1);
    assert(f.run_on(r, input, 1) == r1) by {
        assert(f.run_on(r, input, 0) == r);
    }
    assert(f.run_on(r, input, 2) == r2);
    if c == 1 {
        assert(r2.state.tape =~= r.state.store(0).tape);
    } else {
        assert(r2 == Run { state: r1.state.goto(a + 1), ..r });
        lemma_folded_clear_body(f, input, r2, a, (c - 1) as nat);
        f.lemma_run_on_adds(r, input, 2, (2 * (c - 1)) as nat);
        assert(r2.state.store(0).tape =~= r.state.store(0).tape);
    }
}

/// The loop `[-]` of the folded form, entered on a cell that is not zero,
/// counts the cell down to zero and leaves: after one step and two more
/// for each unit in the cell the machine stands behind the loop, the cell
/// is zero, and nothing else has changed, read or written.
pub proof fn lemma_folded_clear_loop(
    f: ir::Program,
    src: Seq<u8>,
    input: Seq<u8>,
    r: Run,
    a: int,
)
    requires
        f.compiled_from(src),
        f.wf(),
        0 <= a,
        a + 2 < f.instrs.len(),
        f.instrs[a] is JIZ,
        f.instrs[a + 1] == IR::SUB(1),
        f.instrs[a + 2] is JNZ,
        r.state.wf(),
        r.state.pc == a,
        r.state.cell() != 0,
    ensures
        f.run_on(r, input, (1 + 2 * r.state.cell()) as nat) == (Run {
            state: r.state.store(0).goto(a + 3),
            ..r
        }),
{
    let c = r.state.cell() as nat;
    let ks = kinds(f.instrs);
    lemma_tight_loop(ks, a);
    let u = f.instrs[a + 2]->JNZ_0;
    assert(matched(ks, u as int, a + 2));
    lemma_matched_unique(ks, a, a + 2, u as int, a + 2);
    let r1 = f.advance(r, input);
    assert(r1 == Run { state: r.state.goto(a + 1), ..r });
    assert(f.run_on(r, input, 1) == r1) by {
        assert(f.run_on(r, input, 0) == r);
    }
    lemma_folded_clear_body(f, input, r1, a, c);
    f.lemma_run_on_adds(r, input, 1, 2 * c);
}

} // verus!
