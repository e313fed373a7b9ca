//! Which loop-open belongs to which loop-close.
//!
//! Nesting is described by the depth of each position: the number of loops
//! opened and not yet closed before it. A loop-open and a later loop-close
//! are matched when the close returns to the depth at which the open stood
//! and nothing in between falls back to it.
use crate::opcode::OpCode;
use vstd::prelude::*;

verus! {

/// What an operation does to the nesting depth.
pub open spec fn delta(op: OpCode) -> int {
    match op {
        OpCode::LB => 1,
        OpCode::RB => -1,
        _ => 0,
    }
}

/// The nesting depth after the first `k` operations of `s`.
pub open spec fn depth(s: Seq<OpCode>, k: int) -> int
    decreases k,
{
    if k <= 0 {
        0
    } else {
        depth(s, k - 1) + delta(s[k - 1])
    }
}

/// Some loop-close of `s` has no loop-open before it to close.
pub open spec fn stray_close(s: Seq<OpCode>) -> bool {
    exists|k: int| 0 <= k <= s.len() && #[trigger] depth(s, k) < 0
}

/// Every loop-close has its loop-open and every loop-open its loop-close.
pub open spec fn balanced(s: Seq<OpCode>) -> bool {
    !stray_close(s) && depth(s, s.len() as int) == 0
}

/// The loop-open at `i` and the loop-close at `j` belong together.
pub open spec fn matched(s: Seq<OpCode>, i: int, j: int) -> bool {
    &&& 0 <= i < j < s.len()
    &&& s[i] == OpCode::LB
    &&& s[j] == OpCode::RB
    &&& depth(s, j + 1) == depth(s, i)
    &&& forall|t: int| i < t <= j ==> #[trigger] depth(s, t) > depth(s, i)
}

/// `i` and `j` are the two ends of one loop, in either order.
pub open spec fn paired(s: Seq<OpCode>, i: int, j: int) -> bool {
    matched(s, i, j) || matched(s, j, i)
}

/// `stack` lists, innermost last, the loop-opens of `s` that no loop-close
/// has closed yet.
pub open spec fn pending(s: Seq<OpCode>, stack: Seq<usize>) -> bool {
    &&& stack.len() == depth(s, s.len() as int)
    &&& forall|t: int|
        0 <= t < stack.len() ==> {
            &&& (#[trigger] stack[t]) < s.len()
            &&& s[stack[t] as int] == OpCode::LB
            &&& depth(s, stack[t] as int) == t
            &&& forall|p: int| stack[t] < p <= s.len() ==> #[trigger] depth(s, p) > t
        }
}

/// The depth of a position depends only on the operations before it.
pub proof fn lemma_depth_agrees(a: Seq<OpCode>, b: Seq<OpCode>, k: int)
    requires
        0 <= k <= a.len(),
        k <= b.len(),
        forall|i: int| 0 <= i < k ==> a[i] == b[i],
    ensures
        depth(a, k) == depth(b, k),
    decreases k,
{
    if k > 0 {
        lemma_depth_agrees(a, b, k - 1);
    }
}

/// Appending an operation leaves every earlier depth as it was.
pub proof fn lemma_depth_push(s: Seq<OpCode>, op: OpCode)
    ensures
        forall|k: int| 0 <= k <= s.len() ==> #[trigger] depth(s.push(op), k) == depth(s, k),
        depth(s.push(op), s.len() as int + 1) == depth(s, s.len() as int) + delta(op),
{
    let s2 = s.push(op);
    assert forall|k: int| 0 <= k <= s.len() implies #[trigger] depth(s2, k) == depth(s, k) by {
        lemma_depth_agrees(s2, s, k);
    }
    assert(s2[s.len() as int] == op);
    assert(depth(s2, s.len() as int) == depth(s, s.len() as int));
    assert(depth(s2, s.len() as int + 1) == depth(s2, s.len() as int) + delta(s2[s.len() as int]));
}

/// Appending an operation neither makes nor breaks a pair among the
/// operations that were there.
pub proof fn lemma_matched_push(s: Seq<OpCode>, op: OpCode, i: int, j: int)
    requires
        j < s.len(),
    ensures
        matched(s.push(op), i, j) <==> matched(s, i, j),
{
    lemma_depth_push(s, op);
    let s2 = s.push(op);
    if 0 <= i < j {
        assert(s2[i] == s[i] && s2[j] == s[j]);
        if matched(s2, i, j) {
            assert forall|t: int| i < t <= j implies #[trigger] depth(s, t) > depth(s, i) by {
                assert(depth(s2, t) > depth(s2, i));
            }
        }
        if matched(s, i, j) {
            assert forall|t: int| i < t <= j implies #[trigger] depth(s2, t) > depth(s2, i) by {
                assert(depth(s, t) > depth(s, i));
            }
        }
    }
}

/// A loop-open that is still pending has no partner.
pub proof fn lemma_pending_unpaired(s: Seq<OpCode>, stack: Seq<usize>, t: int, j: int)
    requires
        pending(s, stack),
        0 <= t < stack.len(),
    ensures
        !paired(s, stack[t] as int, j),
{
    let i = stack[t] as int;
    if matched(s, i, j) {
        assert(depth(s, j + 1) > t);
    }
}

/// An operation that is no bracket changes nothing about the brackets.
pub proof fn lemma_push_plain(s: Seq<OpCode>, stack: Seq<usize>, op: OpCode)
    requires
        pending(s, stack),
        !stray_close(s),
        op != OpCode::LB,
        op != OpCode::RB,
    ensures
        pending(s.push(op), stack),
        !stray_close(s.push(op)),
        forall|i: int, j: int| #[trigger] paired(s.push(op), i, j) <==> paired(s, i, j),
{
    lemma_depth_push(s, op);
    let s2 = s.push(op);
    assert forall|k: int| 0 <= k <= s2.len() implies #[trigger] depth(s2, k) >= 0 by {
        if k <= s.len() {
            assert(depth(s, k) >= 0);
        }
    }
    assert forall|t: int| 0 <= t < stack.len() implies {
        &&& (#[trigger] stack[t]) < s2.len()
        &&& s2[stack[t] as int] == OpCode::LB
        &&& depth(s2, stack[t] as int) == t
        &&& forall|p: int| stack[t] < p <= s2.len() ==> #[trigger] depth(s2, p) > t
    } by {
        assert forall|p: int| stack[t] < p <= s2.len() implies #[trigger] depth(s2, p) > t by {
            if p <= s.len() {
                assert(depth(s, p) > t);
            } else {
                assert(depth(s, s.len() as int) > t);
            }
        }
    }
    assert forall|i: int, j: int| #[trigger] paired(s2, i, j) <==> paired(s, i, j) by {
        if j < s.len() {
            lemma_matched_push(s, op, i, j);
        }
        if i < s.len() {
            lemma_matched_push(s, op, j, i);
        }
    }
}

/// A loop-open becomes the innermost pending one.
pub proof fn lemma_push_open(s: Seq<OpCode>, stack: Seq<usize>)
    requires
        pending(s, stack),
        !stray_close(s),
        s.len() <= usize::MAX,
    ensures
        pending(s.push(OpCode::LB), stack.push(s.len() as usize)),
        !stray_close(s.push(OpCode::LB)),
        forall|i: int, j: int| #[trigger] paired(s.push(OpCode::LB), i, j) <==> paired(s, i, j),
{
    let op = OpCode::LB;
    lemma_depth_push(s, op);
    let s2 = s.push(op);
    let stack2 = stack.push(s.len() as usize);
    assert forall|k: int| 0 <= k <= s2.len() implies #[trigger] depth(s2, k) >= 0 by {
        if k <= s.len() {
            assert(depth(s, k) >= 0);
        } else {
            assert(depth(s, s.len() as int) >= 0);
        }
    }
    assert forall|t: int| 0 <= t < stack2.len() implies {
        &&& (#[trigger] stack2[t]) < s2.len()
        &&& s2[stack2[t] as int] == OpCode::LB
        &&& depth(s2, stack2[t] as int) == t
        &&& forall|p: int| stack2[t] < p <= s2.len() ==> #[trigger] depth(s2, p) > t
    } by {
        if t < stack.len() {
            assert(stack2[t] == stack[t]);
            assert forall|p: int| stack2[t] < p <= s2.len() implies #[trigger] depth(s2, p)
                > t by {
                if p <= s.len() {
                    assert(depth(s, p) > t);
                }
            }
        }
    }
    assert forall|i: int, j: int| #[trigger] paired(s2, i, j) <==> paired(s, i, j) by {
        if j < s.len() {
            lemma_matched_push(s, op, i, j);
        }
        if i < s.len() {
            lemma_matched_push(s, op, j, i);
        }
    }
}

/// A loop-close pairs with the innermost pending loop-open and with no
/// other.
pub proof fn lemma_push_close(s: Seq<OpCode>, stack: Seq<usize>)
    requires
        pending(s, stack),
        !stray_close(s),
        stack.len() > 0,
    ensures
        pending(s.push(OpCode::RB), stack.drop_last()),
        !stray_close(s.push(OpCode::RB)),
        forall|i: int, j: int| #[trigger]
            paired(s.push(OpCode::RB), i, j) <==> (paired(s, i, j) || (i == stack.last() && j
                == s.len()) || (i == s.len() && j == stack.last())),
{
    let op = OpCode::RB;
    lemma_depth_push(s, op);
    let s2 = s.push(op);
    let stack2 = stack.drop_last();
    let n = s.len() as int;
    let top = stack.len() - 1;
    let o = stack[top] as int;
    assert forall|k: int| 0 <= k <= s2.len() implies #[trigger] depth(s2, k) >= 0 by {
        if k <= s.len() {
            assert(depth(s, k) >= 0);
        }
    }
    assert forall|t: int| 0 <= t < stack2.len() implies {
        &&& (#[trigger] stack2[t]) < s2.len()
        &&& s2[stack2[t] as int] == OpCode::LB
        &&& depth(s2, stack2[t] as int) == t
        &&& forall|p: int| stack2[t] < p <= s2.len() ==> #[trigger] depth(s2, p) > t
    } by {
        assert(stack2[t] == stack[t]);
        assert forall|p: int| stack2[t] < p <= s2.len() implies #[trigger] depth(s2, p) > t by {
            if p <= s.len() {
                assert(depth(s, p) > t);
            }
        }
    }
    assert(matched(s2, o, n)) by {
        assert(s2[o] == s[o]);
        assert forall|t: int| o < t <= n implies #[trigger] depth(s2, t) > depth(s2, o) by {
            assert(depth(s, t) > top);
        }
    }
    assert forall|i: int, j: int| #[trigger]
        paired(s2, i, j) <==> (paired(s, i, j) || (i == o && j == n) || (i == n && j == o)) by {
        if j < n {
            lemma_matched_push(s, op, i, j);
        }
        if i < n {
            lemma_matched_push(s, op, j, i);
        }
        if matched(s2, i, n) && i != o {
            assert(s2[i] == s[i]);
            if i < o {
                assert(depth(s2, o) > depth(s2, i));
            } else {
                assert(depth(s, i) > top);
            }
        }
        if matched(s2, j, n) && j != o {
            assert(s2[j] == s[j]);
            if j < o {
                assert(depth(s2, o) > depth(s2, j));
            } else {
                assert(depth(s, j) > top);
            }
        }
    }
}

/// A loop-close that finds nothing pending is a stray one.
pub proof fn lemma_push_stray(s: Seq<OpCode>, stack: Seq<usize>)
    requires
        pending(s, stack),
        stack.len() == 0,
    ensures
        stray_close(s.push(OpCode::RB)),
{
    lemma_depth_push(s, OpCode::RB);
    assert(depth(s.push(OpCode::RB), s.len() as int + 1) < 0);
}

/// What is stray in a prefix is stray in the whole.
pub proof fn lemma_stray_extends(a: Seq<OpCode>, b: Seq<OpCode>)
    requires
        a.len() <= b.len(),
        forall|i: int| 0 <= i < a.len() ==> a[i] == b[i],
        stray_close(a),
    ensures
        stray_close(b),
{
    let k = choose|k: int| 0 <= k <= a.len() && #[trigger] depth(a, k) < 0;
    lemma_depth_agrees(a, b, k);
}

/// One loop-close has one loop-open, and one loop-open one loop-close.
pub proof fn lemma_matched_unique(s: Seq<OpCode>, i: int, j: int, i2: int, j2: int)
    requires
        matched(s, i, j),
        matched(s, i2, j2),
    ensures
        i == i2 <==> j == j2,
{
    if i == i2 && j < j2 {
        assert(depth(s, j + 1) > depth(s, i2));
    }
    if i == i2 && j2 < j {
        assert(depth(s, j2 + 1) > depth(s, i));
    }
    if j == j2 && i < i2 {
        assert(depth(s, i2) > depth(s, i));
    }
    if j == j2 && i2 < i {
        assert(depth(s, i) > depth(s, i2));
    }
}

/// Looks forward from `k` for the loop-close of the loop-open at `i`.

proof fn lemma_seek_close(s: Seq<OpCode>, i: int, k: int)
    requires
        0 <= i < k <= s.len(),
        s[i] == OpCode::LB,
        forall|t: int| i < t <= k ==> #[trigger] depth(s, t) > depth(s, i),
        depth(s, s.len() as int) <= depth(s, i),
    ensures
        exists|j: int| matched(s, i, j),
    decreases s.len() - k,
{
    assert(depth(s, k) > depth(s, i));
    assert(k < s.len());
    assert(depth(s, k + 1) == depth(s, k) + delta(s[k]));
    if depth(s, k + 1) == depth(s, i) {
        assert(matched(s, i, k));
    } else {
        assert forall|t: int| i < t <= k + 1 implies #[trigger] depth(s, t) > depth(s, i) by {
            if t <= k {
                assert(depth(s, t) > depth(s, i));
            }
        }
        lemma_seek_close(s, i, k + 1);
    }
}

/// Looks backward from `k` for the loop-open of the loop-close at `j`.

proof fn lemma_seek_open(s: Seq<OpCode>, j: int, k: int)
    requires
        0 <= k <= j < s.len(),
        s[j] == OpCode::RB,
        depth(s, j + 1) >= 0,
        depth(s, k) >= depth(s, j + 1),
        forall|t: int| k < t <= j ==> #[trigger] depth(s, t) > depth(s, j + 1),
    ensures
        exists|i: int| matched(s, i, j),
    decreases k,
{
    assert(depth(s, j + 1) == depth(s, j) + delta(s[j]));
    if depth(s, k) == depth(s, j + 1) {
        assert(k < j);
        assert(depth(s, k + 1) > depth(s, j + 1));
        assert(depth(s, k + 1) == depth(s, k) + delta(s[k]));
        assert(matched(s, k, j));
    } else {
        assert(k > 0);
        assert(depth(s, k) == depth(s, k - 1) + delta(s[k - 1]));
        assert forall|t: int| k - 1 < t <= j implies #[trigger] depth(s, t) > depth(s, j + 1) by {
            if t > k {
                assert(depth(s, t) > depth(s, j + 1));
            }
        }
        lemma_seek_open(s, j, k - 1);
    }
}

/// Where every loop is closed, each loop-open has its loop-close.
pub proof fn lemma_open_has_close(s: Seq<OpCode>, i: int)
    requires
        balanced(s),
        0 <= i < s.len(),
        s[i] == OpCode::LB,
    ensures
        exists|j: int| matched(s, i, j),
{
    assert(depth(s, i) >= 0);
    assert(depth(s, i + 1) == depth(s, i) + delta(s[i]));
    lemma_seek_close(s, i, i + 1);
}

/// Where no loop-close is stray, each loop-close has its loop-open.
pub proof fn lemma_close_has_open(s: Seq<OpCode>, j: int)
    requires
        !stray_close(s),
        0 <= j < s.len(),
        s[j] == OpCode::RB,
    ensures
        exists|i: int| matched(s, i, j),
{
    assert(depth(s, j + 1) >= 0);
    assert(depth(s, j + 1) == depth(s, j) + delta(s[j]));
    lemma_seek_open(s, j, j);
}

/// A loop with one operation in it that is no bracket: its two ends belong
/// together.
pub proof fn lemma_tight_loop(s: Seq<OpCode>, p: int)
    requires
        0 <= p,
        p + 2 < s.len(),
        s[p] == OpCode::LB,
        delta(s[p + 1]) == 0,
        s[p + 2] == OpCode::RB,
    ensures
        matched(s, p, p + 2),
{
    assert(depth(s, p + 1) == depth(s, p) + delta(s[p]));
    assert(depth(s, p + 2) == depth(s, p + 1) + delta(s[p + 1]));
    assert(depth(s, p + 3) == depth(s, p + 2) + delta(s[p + 2]));
    assert forall|t: int| p < t <= p + 2 implies #[trigger] depth(s, t) > depth(s, p) by {
        if t == p + 1 {
        } else {
            assert(t == p + 2);
        }
    }
}

} // verus!
