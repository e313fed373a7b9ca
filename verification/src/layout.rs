//! Where each folded instruction lies among the symbols it stands for.
//!
//! Folding changes positions but not structure: the nesting depth at an
//! instruction is the depth at the symbol where the instruction begins.
use crate::brackets::{balanced, delta, depth, matched, stray_close};
use crate::ir::{expand, kinds, IR};
use crate::opcode::OpCode;
use vstd::prelude::*;

verus! {

/// The position, among the symbols written out, at which instruction `a`
/// begins.
pub open spec fn origin(instrs: Seq<IR>, a: int) -> int
    decreases a,
{
    if a <= 0 {
        0
    } else {
        origin(instrs, a - 1) + instrs[a - 1].width()
    }
}

/// Symbol `q` is the `k`-th of instruction `a`, or the position just behind
/// its last.
pub open spec fn lies_in(instrs: Seq<IR>, q: int, a: int, k: int) -> bool {
    &&& 0 <= a < instrs.len()
    &&& 0 <= k <= instrs[a].width()
    &&& q == origin(instrs, a) + k
}

/// Where an instruction begins depends only on the instructions before it.
pub proof fn lemma_origin_agrees(x: Seq<IR>, y: Seq<IR>, a: int)
    requires
        0 <= a <= x.len(),
        a <= y.len(),
        forall|i: int| 0 <= i < a ==> x[i] == y[i],
    ensures
        origin(x, a) == origin(y, a),
    decreases a,
{
    if a > 0 {
        lemma_origin_agrees(x, y, a - 1);
    }
}

/// Later instructions begin later.
pub proof fn lemma_origin_monotone(instrs: Seq<IR>, a: int, b: int)
    requires
        0 <= a <= b,
    ensures
        0 <= origin(instrs, a) <= origin(instrs, b),
    decreases b,
{
    if a < b {
        lemma_origin_monotone(instrs, a, b - 1);
    } else if a > 0 {
        lemma_origin_monotone(instrs, a - 1, a - 1);
    }
}

/// The instructions end where the symbols end.
pub proof fn lemma_origin_end(instrs: Seq<IR>)
    ensures
        origin(instrs, instrs.len() as int) == expand(instrs).len(),
    decreases instrs.len(),
{
    if instrs.len() > 0 {
        let rest = instrs.drop_last();
        lemma_origin_end(rest);
        lemma_origin_agrees(instrs, rest, rest.len() as int);
    }
}

/// Each symbol of an instruction is the operation that the instruction
/// repeats.
pub proof fn lemma_expand_at(instrs: Seq<IR>, a: int, k: int)
    requires
        0 <= a < instrs.len(),
        0 <= k < instrs[a].width(),
    ensures
        0 <= origin(instrs, a) + k < expand(instrs).len(),
        expand(instrs)[origin(instrs, a) + k] == instrs[a].opcode(),
    decreases instrs.len(),
{
    let rest = instrs.drop_last();
    lemma_origin_end(rest);
    lemma_origin_monotone(instrs, 0, a);
    if a == instrs.len() - 1 {
        lemma_origin_agrees(instrs, rest, a);
    } else {
        lemma_expand_at(rest, a, k);
        lemma_origin_agrees(instrs, rest, a);
    }
}

/// The depth inside an instruction is the depth at the instruction; behind
/// its last symbol it is the depth at the next.
pub proof fn lemma_depth_at(instrs: Seq<IR>, a: int, k: int)
    requires
        0 <= a < instrs.len(),
        0 <= k <= instrs[a].width(),
    ensures
        depth(expand(instrs), origin(instrs, a) + k) == if k == instrs[a].width() {
            depth(kinds(instrs), a + 1)
        } else {
            depth(kinds(instrs), a)
        },
    decreases a, k,
{
    let e = expand(instrs);
    let o = origin(instrs, a);
    assert(depth(kinds(instrs), a + 1) == depth(kinds(instrs), a) + delta(instrs[a].opcode()));
    lemma_origin_monotone(instrs, 0, a);
    if k == 0 {
        if a > 0 {
            lemma_depth_at(instrs, a - 1, instrs[a - 1].width() as int);
        }
    } else {
        lemma_depth_at(instrs, a, k - 1);
        lemma_expand_at(instrs, a, k - 1);
        assert(depth(e, o + k) == depth(e, o + k - 1) + delta(e[o + k - 1]));
    }
}

/// Looks from instruction `a` on for the instruction in which `q` lies.

proof fn lemma_locate_from(instrs: Seq<IR>, q: int, a: int)
    requires
        0 <= a < instrs.len(),
        origin(instrs, a) <= q <= origin(instrs, instrs.len() as int),
    ensures
        exists|b: int, k: int| lies_in(instrs, q, b, k),
    decreases instrs.len() - a,
{
    if q <= origin(instrs, a) + instrs[a].width() {
        assert(lies_in(instrs, q, a, q - origin(instrs, a)));
    } else {
        assert(origin(instrs, a + 1) == origin(instrs, a) + instrs[a].width());
        lemma_locate_from(instrs, q, a + 1);
    }
}

/// Every position among the symbols lies in some instruction.
pub proof fn lemma_locate(instrs: Seq<IR>, q: int)
    requires
        0 <= q <= expand(instrs).len(),
        instrs.len() > 0,
    ensures
        exists|a: int, k: int| lies_in(instrs, q, a, k),
{
    lemma_origin_end(instrs);
    lemma_locate_from(instrs, q, 0);
}

/// Folding neither makes nor hides a stray loop-close.
pub proof fn lemma_stray_expand(instrs: Seq<IR>)
    ensures
        stray_close(kinds(instrs)) <==> stray_close(expand(instrs)),
{
    let ks = kinds(instrs);
    let e = expand(instrs);
    lemma_origin_end(instrs);
    if stray_close(ks) {
        let k = choose|k: int| 0 <= k <= ks.len() && #[trigger] depth(ks, k) < 0;
        assert(k > 0);
        lemma_depth_at(instrs, k - 1, instrs[k - 1].width() as int);
        lemma_origin_monotone(instrs, k, instrs.len() as int);
        lemma_origin_monotone(instrs, 0, k);
        assert(origin(instrs, k) == origin(instrs, k - 1) + instrs[k - 1].width());
        assert(depth(e, origin(instrs, k)) < 0);
    }
    if stray_close(e) {
        let q = choose|q: int| 0 <= q <= e.len() && #[trigger] depth(e, q) < 0;
        if instrs.len() == 0 {
            assert(q == 0);
        } else {
            lemma_locate(instrs, q);
            let (a, k) = choose|a: int, k: int| lies_in(instrs, q, a, k);
            lemma_depth_at(instrs, a, k);
            if k == instrs[a].width() {
                assert(depth(ks, a + 1) < 0);
            } else {
                assert(depth(ks, a) < 0);
            }
        }
    }
}

/// The loops of the instructions are the loops of the symbols they stand
/// for.
pub proof fn lemma_matched_expand(instrs: Seq<IR>, a: int, b: int)
    requires
        matched(kinds(instrs), a, b),
    ensures
        matched(expand(instrs), origin(instrs, a), origin(instrs, b)),
{
    let ks = kinds(instrs);
    let e = expand(instrs);
    let oa = origin(instrs, a);
    let ob = origin(instrs, b);
    assert(instrs[a].opcode() == OpCode::LB);
    assert(instrs[b].opcode() == OpCode::RB);
    assert(instrs[a].width() == 1);
    assert(instrs[b].width() == 1);
    lemma_expand_at(instrs, a, 0);
    lemma_expand_at(instrs, b, 0);
    lemma_depth_at(instrs, a, 0);
    lemma_depth_at(instrs, b, 1);
    lemma_origin_monotone(instrs, a + 1, b);
    assert(origin(instrs, a + 1) == oa + 1);
    assert(origin(instrs, b + 1) == ob + 1);
    assert forall|t: int| oa < t <= ob implies #[trigger] depth(e, t) > depth(e, oa) by {
        lemma_locate(instrs, t);
        let (c, k) = choose|c: int, k: int| lies_in(instrs, t, c, k);
        lemma_depth_at(instrs, c, k);
        assert(origin(instrs, c + 1) == origin(instrs, c) + instrs[c].width());
        if k == instrs[c].width() {
            if c + 1 <= a {
                lemma_origin_monotone(instrs, c + 1, a);
            }
            if c + 1 > b {
                lemma_origin_monotone(instrs, b + 1, c + 1);
            }
            assert(depth(ks, c + 1) > depth(ks, a));
        } else {
            if c < a {
                lemma_origin_monotone(instrs, c + 1, a);
            }
            if c > b {
                lemma_origin_monotone(instrs, b + 1, c);
            }
            assert(depth(ks, c) > depth(ks, a));
        }
    }
}

/// Folding keeps a balanced program balanced.
pub proof fn lemma_balanced_kinds(instrs: Seq<IR>)
    requires
        balanced(expand(instrs)),
    ensures
        balanced(kinds(instrs)),
{
    lemma_stray_expand(instrs);
    lemma_origin_end(instrs);
    if instrs.len() > 0 {
        let last = instrs.len() - 1;
        lemma_depth_at(instrs, last, instrs[last].width() as int);
        assert(origin(instrs, last + 1) == origin(instrs, last) + instrs[last].width());
    }
}

} // verus!
