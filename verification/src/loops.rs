//! The loops of a program text: how many are open at a position, whether they
//! are paired, and which loop-close belongs to which loop-open.
use crate::brainfuck::BfRawInstruction;
use vstd::prelude::*;

verus! {

/// What one instruction adds to the number of open loops.
pub open spec fn depth_change(inst: BfRawInstruction) -> int {
    match inst {
        BfRawInstruction::StartLoop => 1,
        BfRawInstruction::EndLoop => -1,
        _ => 0,
    }
}

/// The number of loops that are open after the first `i` instructions of `s`:
/// the loop-opens among them less the loop-closes.
pub open spec fn depth(s: Seq<BfRawInstruction>, i: int) -> int
    decreases i,
{
    if i <= 0 {
        0
    } else {
        depth(s, i - 1) + depth_change(s[i - 1])
    }
}

/// Every loop-close of `s` has a loop-open before it that no other has closed, and
/// no loop stays open at the end.
pub open spec fn balanced(s: Seq<BfRawInstruction>) -> bool {
    &&& depth(s, s.len() as int) == 0
    &&& forall|i: int| 0 <= i <= s.len() ==> depth(s, i) >= 0
}

/// The first position from `from` on after which `d` loops are open, or the
/// length of `s` where there is none. This is the scan with a counter of the
/// open loops.
pub open spec fn find_close(s: Seq<BfRawInstruction>, from: int, d: int) -> int
    decreases s.len() - from,
{
    if from >= s.len() {
        s.len() as int
    } else if depth(s, from + 1) == d {
        from
    } else {
        find_close(s, from + 1, d)
    }
}

/// The last position up to `upto` before which `d` loops are open, or 0 where
/// there is none.
pub open spec fn find_open(s: Seq<BfRawInstruction>, upto: int, d: int) -> int
    decreases upto,
{
    if upto <= 0 {
        0
    } else if depth(s, upto) == d {
        upto
    } else {
        find_open(s, upto - 1, d)
    }
}

/// The position of the loop-close that ends the loop opened at `p`: the first
/// one after `p` that brings the number of open loops back to what it was before `p`.
pub open spec fn close_of(s: Seq<BfRawInstruction>, p: int) -> int {
    find_close(s, p + 1, depth(s, p))
}

/// The position of the loop-open that begins the loop closed at `q`: the last
/// one before `q` with as many loops open before it as after `q`.
pub open spec fn open_of(s: Seq<BfRawInstruction>, q: int) -> int {
    find_open(s, q - 1, depth(s, q + 1))
}

/// `find_close` returns a position from `from` on, and no earlier position
/// brings the depth to `d`.
pub proof fn lemma_find_close_first(s: Seq<BfRawInstruction>, from: int, d: int)
    requires
        0 <= from <= s.len(),
    ensures
        from <= find_close(s, from, d) <= s.len(),
        find_close(s, from, d) < s.len() ==> depth(s, find_close(s, from, d) + 1) == d,
        forall|y: int| from < y <= find_close(s, from, d) ==> depth(s, y) != d,
    decreases s.len() - from,
{
    if from < s.len() && depth(s, from + 1) != d {
        lemma_find_close_first(s, from + 1, d);
    }
}

/// `find_close` returns `q` where `q` is the first position that brings the depth to `d`.
pub proof fn lemma_find_close_is(s: Seq<BfRawInstruction>, from: int, d: int, q: int)
    requires
        0 <= from <= q < s.len(),
        depth(s, q + 1) == d,
        forall|y: int| from < y <= q ==> depth(s, y) != d,
    ensures
        find_close(s, from, d) == q,
    decreases q - from,
{
    if from < q {
        lemma_find_close_is(s, from + 1, d, q);
    }
}

/// `find_open` returns `p` where `p` is the last position before which the depth is `d`.
pub proof fn lemma_find_open_is(s: Seq<BfRawInstruction>, upto: int, d: int, p: int)
    requires
        0 <= p <= upto,
        depth(s, p) == d,
        forall|x: int| p < x <= upto ==> depth(s, x) != d,
    ensures
        find_open(s, upto, d) == p,
    decreases upto - p,
{
    if p < upto {
        lemma_find_open_is(s, upto - 1, d, p);
    }
}

/// Where the depth is above `d` at `from` and not above it at the end, some
/// position from `from` on brings it to `d`.
pub proof fn lemma_find_close_exists(s: Seq<BfRawInstruction>, from: int, d: int)
    requires
        0 <= from <= s.len(),
        depth(s, from) > d,
        depth(s, s.len() as int) <= d,
    ensures
        find_close(s, from, d) < s.len(),
    decreases s.len() - from,
{
    if from < s.len() && depth(s, from + 1) != d {
        lemma_find_close_exists(s, from + 1, d);
    }
}

/// The depth after `i` instructions is between `-i` and `i`.
pub proof fn lemma_depth_bound(s: Seq<BfRawInstruction>, i: int)
    requires
        0 <= i,
    ensures
        -i <= depth(s, i) <= i,
    decreases i,
{
    if i > 0 {
        lemma_depth_bound(s, i - 1);
    }
}

/// Where the depth is above `d` at `a` and differs from `d` up to `b`, it stays
/// above `d` up to `b`.
pub proof fn lemma_stays_above(s: Seq<BfRawInstruction>, a: int, b: int, d: int)
    requires
        0 <= a <= b,
        depth(s, a) > d,
        forall|y: int| a < y <= b ==> depth(s, y) != d,
    ensures
        forall|y: int| a <= y <= b ==> depth(s, y) > d,
    decreases b - a,
{
    if a < b {
        lemma_stays_above(s, a, b - 1, d);
        assert(depth(s, b) == depth(s, b - 1) + depth_change(s[b - 1]));
    }
}

/// The loop-close that `close_of` finds for a loop-open is its partner: it is a
/// loop-close behind the loop-open, the loop stays open in between, and `open_of`
/// leads back from it to the loop-open.
pub proof fn lemma_close_of_is_partner(s: Seq<BfRawInstruction>, p: int)
    requires
        0 <= p < s.len(),
        s[p] == BfRawInstruction::StartLoop,
        close_of(s, p) < s.len(),
    ensures
        p < close_of(s, p),
        s[close_of(s, p)] == BfRawInstruction::EndLoop,
        open_of(s, close_of(s, p)) == p,
        depth(s, close_of(s, p) + 1) == depth(s, p),
        forall|m: int| p < m <= close_of(s, p) ==> depth(s, m) > depth(s, p),
{
    let d = depth(s, p);
    let q = close_of(s, p);
    lemma_find_close_first(s, p + 1, d);
    assert(depth(s, p + 1) == d + 1);
    lemma_stays_above(s, p + 1, q, d);
    assert(depth(s, q + 1) == depth(s, q) + depth_change(s[q]));
    lemma_find_open_is(s, q - 1, d, p);
}

/// `find_open` returns a position between 0 and `upto`.
pub proof fn lemma_find_open_bounds(s: Seq<BfRawInstruction>, upto: int, d: int)
    ensures
        0 <= find_open(s, upto, d),
        find_open(s, upto, d) <= upto || find_open(s, upto, d) == 0,
    decreases upto,
{
    if upto > 0 && depth(s, upto) != d {
        lemma_find_open_bounds(s, upto - 1, d);
    }
}

/// In a text with paired loops every loop-open has its loop-close.
pub proof fn lemma_balanced_has_close(s: Seq<BfRawInstruction>, p: int)
    requires
        balanced(s),
        0 <= p < s.len(),
        s[p] == BfRawInstruction::StartLoop,
    ensures
        p < close_of(s, p) < s.len(),
{
    assert(depth(s, p + 1) == depth(s, p) + 1);
    lemma_find_close_exists(s, p + 1, depth(s, p));
    lemma_find_close_first(s, p + 1, depth(s, p));
}

/// The depth of a reversed text is the depth that the text loses over its tail.
pub proof fn lemma_depth_reverse(w: Seq<BfRawInstruction>, i: int)
    requires
        0 <= i <= w.len(),
    ensures
        depth(w.reverse(), i) == depth(w, w.len() as int) - depth(w, w.len() - i),
    decreases i,
{
    if i > 0 {
        lemma_depth_reverse(w, i - 1);
        assert(w.reverse()[i - 1] == w[w.len() - i]);
        assert(depth(w, w.len() - i + 1) == depth(w, w.len() - i) + depth_change(w[w.len() - i]));
    }
}

/// Where the depth is above `d` at `b` and differs from `d` back to `a`, it
/// stays above `d` back to `a`.
pub proof fn lemma_stays_above_back(s: Seq<BfRawInstruction>, a: int, b: int, d: int)
    requires
        0 <= a <= b,
        depth(s, b) > d,
        forall|y: int| a <= y < b ==> depth(s, y) != d,
    ensures
        forall|y: int| a <= y <= b ==> depth(s, y) > d,
    decreases b - a,
{
    if a < b {
        assert(depth(s, b) == depth(s, b - 1) + depth_change(s[b - 1]));
        lemma_stays_above_back(s, a, b - 1, d);
    }
}

/// `find_open` returns a position up to `upto`, and no later position up to
/// `upto` has the depth `d` before it.
pub proof fn lemma_find_open_last(s: Seq<BfRawInstruction>, upto: int, d: int)
    requires
        0 <= upto,
    ensures
        0 <= find_open(s, upto, d) <= upto,
        find_open(s, upto, d) > 0 ==> depth(s, find_open(s, upto, d)) == d,
        forall|y: int| find_open(s, upto, d) < y <= upto ==> depth(s, y) != d,
    decreases upto,
{
    if upto > 0 && depth(s, upto) != d {
        lemma_find_open_last(s, upto - 1, d);
    }
}

/// The loop-open that `open_of` finds for a loop-close of a text with paired
/// loops is its partner: it is a loop-open before the loop-close, and `close_of`
/// leads from it to the loop-close.
pub proof fn lemma_open_of_is_partner(s: Seq<BfRawInstruction>, q: int)
    requires
        balanced(s),
        0 <= q < s.len(),
        s[q] == BfRawInstruction::EndLoop,
    ensures
        0 <= open_of(s, q) < q,
        s[open_of(s, q)] == BfRawInstruction::StartLoop,
        close_of(s, open_of(s, q)) == q,
{
    let d = depth(s, q + 1);
    let p = open_of(s, q);
    assert(depth(s, q + 1) == depth(s, q) - 1);
    assert(depth(s, 0) == 0);
    lemma_find_open_last(s, q - 1, d);
    lemma_stays_above_back(s, p + 1, q, d);
    if p == 0 && depth(s, p) != d {
        lemma_stays_above_back(s, 0, q, d);
    }
    assert(depth(s, p + 1) == depth(s, p) + depth_change(s[p]));
    lemma_find_close_is(s, p + 1, d, q);
}

/// The depth within a part of a text is the depth of the text less the
/// depth at which the part begins.
pub proof fn lemma_depth_of_part(s: Seq<BfRawInstruction>, from: int, to: int, t: int)
    requires
        0 <= from <= to <= s.len(),
        0 <= t <= to - from,
    ensures
        depth(s.subrange(from, to), t) == depth(s, from + t) - depth(s, from),
    decreases t,
{
    if t > 0 {
        lemma_depth_of_part(s, from, to, t - 1);
        assert(s.subrange(from, to)[t - 1] == s[from + t - 1]);
        assert(depth(s, from + t) == depth(s, from + t - 1) + depth_change(s[from + t - 1]));
    }
}

/// A text that begins with an instruction other than a loop instruction has
/// paired loops exactly if the rest of it has.
pub proof fn lemma_balanced_after_plain(s: Seq<BfRawInstruction>)
    requires
        s.len() > 0,
        depth_change(s[0]) == 0,
    ensures
        balanced(s) == balanced(s.subrange(1, s.len() as int)),
{
    let rest = s.subrange(1, s.len() as int);
    assert(depth(s, 1) == depth(s, 0) + depth_change(s[0]));
    assert(depth(s, 0) == 0);
    assert forall|t: int| 0 <= t <= rest.len() implies depth(rest, t) == depth(s, t + 1) by {
        lemma_depth_of_part(s, 1, s.len() as int, t);
    }
    if balanced(s) {
        assert(balanced(rest));
    }
    if balanced(rest) {
        assert forall|i: int| 0 <= i <= s.len() implies depth(s, i) >= 0 by {
            if i > 0 {
                assert(depth(rest, i - 1) == depth(s, i));
            }
        }
        assert(depth(rest, rest.len() as int) == depth(s, s.len() as int));
        assert(balanced(s));
    }
}

/// A text with paired loops that begins with a loop falls into the loop,
/// whose body has paired loops, and a text with paired loops behind it.
pub proof fn lemma_balanced_loop_parts(s: Seq<BfRawInstruction>)
    requires
        balanced(s),
        s.len() > 0,
        s[0] == BfRawInstruction::StartLoop,
    ensures
        0 < close_of(s, 0) < s.len(),
        s[close_of(s, 0)] == BfRawInstruction::EndLoop,
        balanced(s.subrange(1, close_of(s, 0))),
        balanced(s.subrange(close_of(s, 0) + 1, s.len() as int)),
{
    let q = close_of(s, 0);
    lemma_balanced_has_close(s, 0);
    lemma_close_of_is_partner(s, 0);
    assert(depth(s, 0) == 0);
    assert(depth(s, 1) == 1);
    assert(depth(s, q + 1) == depth(s, q) + depth_change(s[q]));
    let inner = s.subrange(1, q);
    let behind = s.subrange(q + 1, s.len() as int);
    assert forall|t: int| 0 <= t <= inner.len() implies depth(inner, t) == depth(s, t + 1) - 1 by {
        lemma_depth_of_part(s, 1, q, t);
    }
    assert forall|t: int| 0 <= t <= behind.len() implies depth(behind, t) == depth(
        s,
        q + 1 + t,
    ) by {
        lemma_depth_of_part(s, q + 1, s.len() as int, t);
    }
    assert(depth(inner, inner.len() as int) == depth(s, q) - 1);
    assert(depth(behind, behind.len() as int) == depth(s, s.len() as int));
    assert(balanced(inner));
    assert(balanced(behind));
}

/// A loop around a text with paired loops and a text with paired loops
/// behind it make a text with paired loops, whose first loop-open has the
/// loop-close right behind the body as its partner.
pub proof fn lemma_balanced_of_loop_parts(
    inner: Seq<BfRawInstruction>,
    behind: Seq<BfRawInstruction>,
)
    requires
        balanced(inner),
        balanced(behind),
    ensures
        ({
            let s = seq![BfRawInstruction::StartLoop] + inner + seq![BfRawInstruction::EndLoop]
                + behind;
            &&& balanced(s)
            &&& s.len() == inner.len() + behind.len() + 2
            &&& close_of(s, 0) == inner.len() + 1
            &&& s.subrange(1, inner.len() as int + 1) == inner
            &&& s.subrange(inner.len() as int + 2, s.len() as int) == behind
        }),
{
    let s = seq![BfRawInstruction::StartLoop] + inner + seq![BfRawInstruction::EndLoop] + behind;
    let q: int = inner.len() as int + 1;
    assert(s.subrange(1, q) =~= inner);
    assert(s.subrange(q + 1, s.len() as int) =~= behind);
    assert(depth(s, 0) == 0);
    assert(depth(s, 1) == depth(s, 0) + depth_change(s[0]));
    assert forall|t: int| 0 <= t <= inner.len() implies depth(s, t + 1) == depth(inner, t) + 1 by {
        lemma_depth_of_part(s, 1, q, t);
    }
    assert(depth(s, q + 1) == depth(s, q) + depth_change(s[q]));
    assert(depth(s, q) == depth(inner, inner.len() as int) + 1);
    assert forall|t: int| 0 <= t <= behind.len() implies depth(s, q + 1 + t) == depth(
        behind,
        t,
    ) by {
        lemma_depth_of_part(s, q + 1, s.len() as int, t);
    }
    assert forall|i: int| 0 <= i <= s.len() implies depth(s, i) >= 0 by {
        if 1 <= i <= q {
            assert(depth(s, i) == depth(inner, i - 1) + 1);
        } else if i > q {
            assert(depth(s, i) == depth(behind, i - q - 1));
        }
    }
    assert(depth(s, s.len() as int) == depth(behind, behind.len() as int));
    assert forall|y: int| 1 < y <= q implies depth(s, y) != 0 by {
        assert(depth(s, y) == depth(inner, y - 1) + 1);
    }
    lemma_find_close_is(s, 1, 0, q);
}

} // verus!
