//! The enumeration of the program texts by successor mutation: the text that
//! was handed out last is changed in place into the next text with paired
//! loops, without trying the texts in between.
use crate::arith::{compose, lemma_power_positive, power};
use crate::bf_index::{lemma_alphabet_loops_last, loops_last};
use crate::bounded::{
    alphabet_items, alphabet_new, alphabet_push, alphabet_slice, source_items, source_new,
    source_push,
};
use crate::brainfuck::{alphabet, candidate, programs_from, BF_MAX_LEN, BfRawInstruction, BfSource};
use crate::def::Generator;
use crate::exactly_once::{
    letter_codes, lemma_candidate_of_index, lemma_index_of_candidate, text_index, written_in,
};
use crate::loops::{balanced, depth, depth_change};
use arrayvec::ArrayVec;
use vstd::prelude::*;

verus! {

/// Between two numbers composed of as many digits, the one with the greater
/// digit at the highest place where they differ is the greater.
pub proof fn lemma_compose_order(u: Seq<int>, v: Seq<int>, b: nat, top: int)
    requires
        b >= 1,
        u.len() == v.len(),
        0 <= top < u.len(),
        forall|t: int| 0 <= t < u.len() ==> 0 <= #[trigger] u[t] < b,
        forall|t: int| 0 <= t < v.len() ==> 0 <= #[trigger] v[t] < b,
        forall|t: int| top < t < u.len() ==> u[t] == v[t],
        u[top] < v[top],
    ensures
        compose(u, b) < compose(v, b),
    decreases u.len(),
{
    let u1 = u.skip(1);
    let v1 = v.skip(1);
    assert forall|t: int| 0 <= t < u1.len() implies 0 <= #[trigger] u1[t] < b by {
        assert(u1[t] == u[t + 1]);
    }
    assert forall|t: int| 0 <= t < v1.len() implies 0 <= #[trigger] v1[t] < b by {
        assert(v1[t] == v[t + 1]);
    }
    if top == 0 {
        assert(u1 =~= v1) by {
            assert forall|t: int| 0 <= t < u1.len() implies u1[t] == v1[t] by {
                assert(u1[t] == u[t + 1] && v1[t] == v[t + 1]);
            }
        }
    } else {
        assert forall|t: int| top - 1 < t < u1.len() implies u1[t] == v1[t] by {
            assert(u1[t] == u[t + 1] && v1[t] == v[t + 1]);
        }
        assert(u1[top - 1] == u[top] && v1[top - 1] == v[top]);
        lemma_compose_order(u1, v1, b, top - 1);
        let cu = compose(u1, b);
        let cv = compose(v1, b);
        assert(b * cu + b <= b * cv) by (nonlinear_arith)
            requires
                cu + 1 <= cv,
                b >= 1,
        ;
    }
}

/// The first position at which two texts differ, from `from` on, or their
/// length where they are the same from there on.
pub open spec fn first_difference(
    x: Seq<BfRawInstruction>,
    z: Seq<BfRawInstruction>,
    from: int,
) -> int
    decreases x.len() - from,
{
    if from >= x.len() || x[from] != z[from] {
        from
    } else {
        first_difference(x, z, from + 1)
    }
}

/// Up to their first difference two texts are the same, and two texts of the
/// same length without a difference are the same text.
pub proof fn lemma_first_difference(
    x: Seq<BfRawInstruction>,
    z: Seq<BfRawInstruction>,
    from: int,
)
    requires
        x.len() == z.len(),
        0 <= from <= x.len(),
    ensures
        from <= first_difference(x, z, from) <= x.len(),
        forall|t: int| from <= t < first_difference(x, z, from) ==> x[t] == z[t],
        first_difference(x, z, from) < x.len() ==> x[first_difference(x, z, from)]
            != z[first_difference(x, z, from)],
    decreases x.len() - from,
{
    if from < x.len() && x[from] == z[from] {
        lemma_first_difference(x, z, from + 1);
    }
}

/// Between two texts of the same length over the alphabet, the one with the
/// later instruction at the first position where they differ has the greater number.
pub proof fn lemma_text_order(
    a: Seq<BfRawInstruction>,
    x: Seq<BfRawInstruction>,
    z: Seq<BfRawInstruction>,
    j: int,
)
    requires
        a.len() >= 1,
        written_in(a, x),
        written_in(a, z),
        x.len() == z.len(),
        0 <= j < x.len(),
        forall|t: int| 0 <= t < j ==> x[t] == z[t],
        a.index_of(x[j]) < a.index_of(z[j]),
    ensures
        text_index(a, x) < text_index(a, z),
{
    let u = letter_codes(a, x);
    let v = letter_codes(a, z);
    let len = x.len() as int;
    assert forall|t: int| 0 <= t < len implies 0 <= #[trigger] u[t] < a.len() by {
        assert(a.contains(x[len - 1 - t]));
    }
    assert forall|t: int| 0 <= t < len implies 0 <= #[trigger] v[t] < a.len() by {
        assert(a.contains(z[len - 1 - t]));
    }
    lemma_compose_order(u, v, a.len(), len - 1 - j);
}

/// In a text with paired loops no more loops are open at a position than
/// instructions are left to close them.
pub proof fn lemma_depth_fits_rest(s: Seq<BfRawInstruction>, m: int)
    requires
        balanced(s),
        0 <= m <= s.len(),
    ensures
        0 <= depth(s, m) <= s.len() - m,
    decreases s.len() - m,
{
    if m < s.len() {
        lemma_depth_fits_rest(s, m + 1);
        assert(depth(s, m + 1) == depth(s, m) + depth_change(s[m]));
    }
}

/// Two texts that are the same up to a position have the same depth there.
pub proof fn lemma_depth_of_same_prefix(x: Seq<BfRawInstruction>, z: Seq<BfRawInstruction>, m: int)
    requires
        0 <= m <= x.len(),
        m <= z.len(),
        forall|t: int| 0 <= t < m ==> x[t] == z[t],
    ensures
        depth(x, m) == depth(z, m),
    decreases m,
{
    if m > 0 {
        lemma_depth_of_same_prefix(x, z, m - 1);
    }
}

/// Before a tail of loop-closes that ends a text with paired loops, as many
/// loops are open as instructions are left.
pub proof fn lemma_depth_of_closing_tail(s: Seq<BfRawInstruction>, from: int, m: int)
    requires
        balanced(s),
        0 <= from <= m <= s.len(),
        forall|t: int| from <= t < s.len() ==> s[t] == BfRawInstruction::EndLoop,
    ensures
        depth(s, m) == s.len() - m,
    decreases s.len() - m,
{
    if m < s.len() {
        lemma_depth_of_closing_tail(s, from, m + 1);
        assert(depth(s, m + 1) == depth(s, m) + depth_change(s[m]));
    }
}

/// Whether the instruction `c` can stand at the position `j` behind the first
/// `j` instructions of `x` in a text with paired loops of the same length:
/// it leaves no loop-close without its loop-open, and no more loops open
/// than the rest of the text can close.
pub open spec fn can_stand(x: Seq<BfRawInstruction>, j: int, c: BfRawInstruction) -> bool {
    0 <= depth(x, j) + depth_change(c) <= x.len() - 1 - j
}

/// No later instruction than the one of `x` can stand at any position from `i` on.
pub open spec fn no_later_from(a: Seq<BfRawInstruction>, x: Seq<BfRawInstruction>, i: int) -> bool {
    forall|j: int, c: int|
        i <= j < x.len() && a.index_of(x[j]) < c < a.len() ==> !#[trigger] can_stand(x, j, a[c])
}

/// The text `y` is `x` up to the position `i`, then the earliest instruction
/// behind that of `x` that can stand there, then the first instruction of
/// the alphabet as often as the open loops allow, and loop-closes to the end.
pub open spec fn is_successor_at(
    a: Seq<BfRawInstruction>,
    x: Seq<BfRawInstruction>,
    y: Seq<BfRawInstruction>,
    i: int,
) -> bool {
    &&& x.len() == y.len()
    &&& 0 <= i < x.len()
    &&& forall|t: int| 0 <= t < i ==> x[t] == y[t]
    &&& a.index_of(x[i]) < a.index_of(y[i])
    &&& can_stand(x, i, y[i])
    &&& forall|c: int|
        a.index_of(x[i]) < c < a.index_of(y[i]) ==> !#[trigger] can_stand(x, i, a[c])
    &&& forall|t: int|
        i < t < y.len() ==> y[t] == if t < y.len() - depth(y, i + 1) {
            a[0]
        } else {
            BfRawInstruction::EndLoop
        }
}

/// A text with paired loops that comes behind `x` differs from `x` first at
/// a position where its instruction is later and can stand.
pub proof fn lemma_later_text_differs(
    a: Seq<BfRawInstruction>,
    x: Seq<BfRawInstruction>,
    z: Seq<BfRawInstruction>,
)
    requires
        a.len() >= 1,
        a.no_duplicates(),
        written_in(a, x),
        written_in(a, z),
        balanced(z),
        x.len() == z.len(),
        text_index(a, x) < text_index(a, z),
    ensures
        ({
            let j = first_difference(x, z, 0);
            &&& 0 <= j < x.len()
            &&& forall|t: int| 0 <= t < j ==> x[t] == z[t]
            &&& a.index_of(x[j]) < a.index_of(z[j])
            &&& can_stand(x, j, z[j])
        }),
{
    let j = first_difference(x, z, 0);
    lemma_first_difference(x, z, 0);
    if j >= x.len() {
        assert(x =~= z);
    }
    assert(a.contains(x[j]) && a.contains(z[j]));
    if a.index_of(z[j]) < a.index_of(x[j]) {
        lemma_text_order(a, z, x, j);
    }
    lemma_depth_of_same_prefix(x, z, j);
    lemma_depth_fits_rest(z, j + 1);
    assert(depth(z, j + 1) == depth(z, j) + depth_change(z[j]));
}

/// Where no later instruction can stand at any position of `x`, no text with
/// paired loops of the same length comes behind `x`.
pub proof fn lemma_no_later_text(
    a: Seq<BfRawInstruction>,
    x: Seq<BfRawInstruction>,
    z: Seq<BfRawInstruction>,
)
    requires
        a.len() >= 1,
        a.no_duplicates(),
        written_in(a, x),
        written_in(a, z),
        balanced(z),
        x.len() == z.len(),
        no_later_from(a, x, 0),
    ensures
        text_index(a, z) <= text_index(a, x),
{
    if text_index(a, x) < text_index(a, z) {
        lemma_later_text_differs(a, x, z);
        let j = first_difference(x, z, 0);
        assert(a.contains(z[j]));
        assert(z[j] == a[a.index_of(z[j])]);
    }
}

/// Between a text and its successor there is no text with paired loops: one
/// that comes behind `x` is `y` or comes behind `y`.
pub proof fn lemma_no_text_between(
    a: Seq<BfRawInstruction>,
    x: Seq<BfRawInstruction>,
    y: Seq<BfRawInstruction>,
    i: int,
    z: Seq<BfRawInstruction>,
)
    requires
        loops_last(a),
        a.len() >= 3,
        written_in(a, x),
        written_in(a, y),
        written_in(a, z),
        balanced(y),
        balanced(z),
        x.len() == z.len(),
        is_successor_at(a, x, y, i),
        no_later_from(a, x, i + 1),
        text_index(a, x) < text_index(a, z),
    ensures
        text_index(a, y) <= text_index(a, z),
{
    lemma_later_text_differs(a, x, z);
    let j = first_difference(x, z, 0);
    assert(a.contains(z[j]) && a.contains(x[j]) && a.contains(y[i]));
    assert(z[j] == a[a.index_of(z[j])]);
    if j < i {
        lemma_text_order(a, y, z, j);
    } else if j == i {
        if a.index_of(y[i]) < a.index_of(z[i]) {
            lemma_text_order(a, y, z, i);
        } else {
            assert(a.index_of(y[i]) == a.index_of(z[i]));
            assert(y[i] == z[i]);
            let j2 = first_difference(y, z, 0);
            lemma_first_difference(y, z, 0);
            if j2 >= y.len() {
                assert(y =~= z);
            } else {
                assert(j2 > i) by {
                    if j2 <= i {
                        if j2 < i {
                            assert(x[j2] == z[j2]);
                        }
                    }
                }
                assert(a.contains(y[j2]) && a.contains(z[j2]));
                let tail = y.len() - depth(y, i + 1);
                if j2 < tail {
                    assert(y[j2] == a[0]);
                    assert(a.index_of(y[j2]) == 0);
                    assert(a.index_of(z[j2]) != 0);
                    lemma_text_order(a, y, z, j2);
                } else {
                    lemma_depth_fits_rest(y, i + 1);
                    lemma_depth_of_closing_tail(y, tail, j2);
                    lemma_depth_of_same_prefix(y, z, j2);
                    lemma_depth_fits_rest(z, j2 + 1);
                    assert(depth(z, j2 + 1) == depth(z, j2) + depth_change(z[j2]));
                    assert(y[j2] == BfRawInstruction::EndLoop);
                }
            }
        }
    }
}

/// Numbers whose texts have no paired loops add nothing to the enumeration.
pub proof fn lemma_skip_unpaired(
    a: Seq<BfRawInstruction>,
    max_len: nat,
    len: nat,
    low: nat,
    high: nat,
)
    requires
        low <= high <= power(a.len(), len),
        forall|idx: nat| low <= idx < high ==> !balanced(#[trigger] candidate(a, len, idx)),
    ensures
        programs_from(a, max_len, len, low) == programs_from(a, max_len, len, high),
    decreases high - low,
{
    if low < high && len <= max_len {
        assert(!balanced(candidate(a, len, low)));
        lemma_skip_unpaired(a, max_len, len, low + 1, high);
    }
}

/// The text of the first instruction of the alphabet repeated has the number 0.
pub proof fn lemma_index_of_first_text(a: Seq<BfRawInstruction>, x: Seq<BfRawInstruction>)
    requires
        a.len() >= 1,
        a.no_duplicates(),
        forall|t: int| 0 <= t < x.len() ==> x[t] == a[0],
    ensures
        text_index(a, x) == 0,
    decreases x.len(),
{
    let u = letter_codes(a, x);
    lemma_zeros_compose(u, a.len());
}

/// A number composed of zeros is zero.
pub proof fn lemma_zeros_compose(u: Seq<int>, b: nat)
    requires
        forall|t: int| 0 <= t < u.len() ==> u[t] == 0,
    ensures
        compose(u, b) == 0,
    decreases u.len(),
{
    if u.len() > 0 {
        assert forall|t: int| 0 <= t < u.skip(1).len() implies u.skip(1)[t] == 0 by {
            assert(u.skip(1)[t] == u[t + 1]);
        }
        lemma_zeros_compose(u.skip(1), b);
        assert(b * 0 == 0);
    }
}

/// The text whose instructions stand at the places `digits` of the alphabet `a`.
pub open spec fn text_of(a: Seq<BfRawInstruction>, digits: Seq<usize>) -> Seq<BfRawInstruction> {
    Seq::new(digits.len(), |i: int| a[digits[i] as int])
}

/// What the instruction at the place `c` of an alphabet of `k` instructions
/// adds to the number of open loops.
pub open spec fn change_at(c: int, k: int) -> int {
    if c == k - 2 {
        1
    } else if c == k - 1 {
        -1
    } else {
        0
    }
}

/// The instructions of an alphabet that ends with the loop instructions
/// change the number of open loops as their places say.
pub proof fn lemma_change_at(a: Seq<BfRawInstruction>, c: int)
    requires
        loops_last(a),
        0 <= c < a.len(),
    ensures
        depth_change(a[c]) == change_at(c, a.len() as int),
        a.index_of(a[c]) == c,
        a.contains(a[c]),
{
}

/// The depths along the completion of a text: behind the position `i` the
/// first instruction of the alphabet stands as long as more instructions are
/// left than loops are open, and loop-closes stand from there to the end.
pub proof fn lemma_completion_depths(
    a: Seq<BfRawInstruction>,
    y: Seq<BfRawInstruction>,
    i: int,
    m: int,
)
    requires
        loops_last(a),
        a.len() >= 3,
        0 <= i < y.len(),
        0 <= depth(y, i + 1) <= y.len() - 1 - i,
        forall|t: int|
            i < t < y.len() ==> y[t] == if t < y.len() - depth(y, i + 1) {
                a[0]
            } else {
                BfRawInstruction::EndLoop
            },
        i + 1 <= m <= y.len(),
    ensures
        depth(y, m) == if m <= y.len() - depth(y, i + 1) {
            depth(y, i + 1)
        } else {
            y.len() - m
        },
    decreases m,
{
    if m > i + 1 {
        lemma_completion_depths(a, y, i, m - 1);
        lemma_change_at(a, 0);
        assert(depth(y, m) == depth(y, m - 1) + depth_change(y[m - 1]));
    }
}

/// A text of the first instruction of the alphabet repeated has paired loops.
pub proof fn lemma_first_text_balanced(a: Seq<BfRawInstruction>, y: Seq<BfRawInstruction>, m: int)
    requires
        loops_last(a),
        a.len() >= 3,
        forall|t: int| 0 <= t < y.len() ==> y[t] == a[0],
        0 <= m <= y.len(),
    ensures
        depth(y, m) == 0,
    decreases m,
{
    if m > 0 {
        lemma_first_text_balanced(a, y, m - 1);
        lemma_change_at(a, 0);
    }
}

/// Enumerates the texts with paired loops by successor mutation.
pub struct BfSuccessorGenerator {
    instructions: ArrayVec<BfRawInstruction, 7>,
    max_len: usize,
    // the places in the alphabet of the instructions of the text that was handed out last
    digits: Vec<usize>,
}

impl BfSuccessorGenerator {
    /// The alphabet that the texts are written in.
    pub closed spec fn letters(&self) -> Seq<BfRawInstruction> {
        alphabet_items(self.instructions)
    }

    /// The text that was handed out last; the empty text before the first.
    pub closed spec fn current(&self) -> Seq<BfRawInstruction> {
        text_of(alphabet_items(self.instructions), self.digits@)
    }

    /// A generator of the texts of the lengths 1 to `max_len`.
    pub fn new(max_len: usize, has_minus: bool, has_print: bool) -> (g: Self)
        requires
            max_len <= BF_MAX_LEN,
        ensures
            g.wf(),
            g.letters() == alphabet(has_minus, has_print),
            g.remaining() == programs_from(alphabet(has_minus, has_print), max_len as nat, 1, 0),
    {
        let mut instructions = alphabet_new();
        alphabet_push(&mut instructions, BfRawInstruction::Plus);
        if has_minus {
            alphabet_push(&mut instructions, BfRawInstruction::Minus);
        }
        if has_print {
            alphabet_push(&mut instructions, BfRawInstruction::Print);
        }
        alphabet_push(&mut instructions, BfRawInstruction::Left);
        alphabet_push(&mut instructions, BfRawInstruction::Right);
        alphabet_push(&mut instructions, BfRawInstruction::StartLoop);
        alphabet_push(&mut instructions, BfRawInstruction::EndLoop);
        assert(alphabet_items(instructions) =~= alphabet(has_minus, has_print));
        let g = BfSuccessorGenerator { instructions, max_len, digits: Vec::new() };
        proof {
            let a = alphabet(has_minus, has_print);
            lemma_alphabet_loops_last(has_minus, has_print);
            assert(depth(g.current(), 0) == 0);
            assert(letter_codes(a, g.current()) =~= Seq::<int>::empty());
            assert(power(a.len(), 0) == 1);
            assert(programs_from(a, max_len as nat, 0, 1) == programs_from(a, max_len as nat, 1, 0));
        }
        g
    }

    /// Whether the instruction at the place `c` of an alphabet of `k`
    /// instructions can stand where `before` loops are open and `room`
    /// instructions are to follow.
    fn fits_at(before: usize, c: usize, k: usize, room: usize) -> (b: bool)
        requires
            k >= 3,
            c < k,
            before <= 28,
        ensures
            b == (0 <= before + change_at(c as int, k as int) <= room),
    {
        if c == k - 2 {
            before + 1 <= room
        } else if c == k - 1 {
            before >= 1 && before - 1 <= room
        } else {
            before <= room
        }
    }

    /// The text that was handed out last, as a program text.
    fn source(&self) -> (program: BfSource)
        requires
            self.wf(),
        ensures
            program@ == self.current(),
    {
        let letters = alphabet_slice(&self.instructions);
        let mut items = source_new();
        let mut t: usize = 0;
        while t < self.digits.len()
            invariant
                self.wf(),
                letters@ == self.letters(),
                t <= self.digits@.len() <= 28,
                source_items(items).len() == t,
                forall|j: int| 0 <= j < t ==> source_items(items)[j] == self.current()[j],
            decreases self.digits@.len() - t,
        {
            source_push(&mut items, letters[self.digits[t]]);
            t += 1;
        }
        assert(source_items(items) =~= self.current());
        BfSource(items)
    }
}

impl Generator<BfSource> for BfSuccessorGenerator {
    closed spec fn wf(&self) -> bool {
        let a = alphabet_items(self.instructions);
        &&& loops_last(a)
        &&& 3 <= a.len() <= 7
        &&& self.max_len <= 28
        &&& self.digits@.len() <= self.max_len
        &&& forall|i: int| 0 <= i < self.digits@.len() ==> #[trigger] self.digits@[i] < a.len()
        &&& balanced(text_of(a, self.digits@))
    }

    closed spec fn remaining(&self) -> Seq<(Seq<BfRawInstruction>, usize)> {
        let a = alphabet_items(self.instructions);
        programs_from(
            a,
            self.max_len as nat,
            self.digits@.len(),
            (text_index(a, text_of(a, self.digits@)) + 1) as nat,
        )
    }

    fn next(&mut self) -> (r: Option<(BfSource, usize)>) {
        let letters = alphabet_slice(&self.instructions);
        let k = letters.len();
        let len = self.digits.len();
        let ghost a = self.letters();
        let ghost x = self.current();
        let ghost max = self.max_len as nat;
        proof {
            assert forall|j: int| 0 <= j < x.len() implies a.contains(#[trigger] x[j]) by {
                lemma_change_at(a, self.digits@[j] as int);
            }
            lemma_candidate_of_index(a, x);
        }
        let mut i: usize = len;
        let mut open: usize = 0;
        while i > 0
            invariant
                self.wf(),
                self.instructions == old(self).instructions,
                self.max_len == old(self).max_len,
                self.digits@ == old(self).digits@,
                a == self.letters(),
                x == self.current(),
                max == self.max_len,
                k == a.len(),
                len == x.len(),
                len <= self.max_len,
                written_in(a, x),
                0 <= text_index(a, x),
                i <= len,
                open == depth(x, i as int),
                no_later_from(a, x, i as int),
            decreases i,
        {
            i -= 1;
            let d = self.digits[i];
            proof {
                lemma_change_at(a, d as int);
                lemma_depth_fits_rest(x, i as int);
                lemma_depth_fits_rest(x, i + 1);
                assert(depth(x, i + 1) == depth(x, i as int) + depth_change(x[i as int]));
            }
            let before = if d == k - 2 {
                open - 1
            } else if d == k - 1 {
                open + 1
            } else {
                open
            };
            let room = len - 1 - i;
            let mut c = d + 1;
            while c < k && !Self::fits_at(before, c, k, room)
                invariant
                    loops_last(a),
                    k == a.len(),
                    3 <= k,
                    d < c <= k,
                    before <= 28,
                    before == depth(x, i as int),
                    room == x.len() - 1 - i,
                    forall|e: int| d < e < c ==> !#[trigger] can_stand(x, i as int, a[e]),
                decreases k - c,
            {
                proof {
                    lemma_change_at(a, c as int);
                }
                c += 1;
            }
            if c < k {
                proof {
                    lemma_change_at(a, c as int);
                }
                let after = if c == k - 2 {
                    before + 1
                } else if c == k - 1 {
                    before - 1
                } else {
                    before
                };
                self.digits.set(i, c);
                let mut t = i + 1;
                while t < len
                    invariant
                        self.instructions == old(self).instructions,
                        self.max_len == old(self).max_len,
                        self.digits@.len() == len,
                        old(self).digits@.len() == len,
                        len <= self.max_len,
                        k == a.len(),
                        3 <= k,
                        i < t <= len,
                        after <= len - 1 - i,
                        forall|j: int| 0 <= j < i ==> self.digits@[j] == old(self).digits@[j],
                        self.digits@[i as int] == c,
                        forall|j: int|
                            i < j < t ==> self.digits@[j] == if j < len - after {
                                0usize
                            } else {
                                (k - 1) as usize
                            },
                    decreases len - t,
                {
                    let digit = if t < len - after {
                        0
                    } else {
                        k - 1
                    };
                    self.digits.set(t, digit);
                    t += 1;
                }
                proof {
                    let y = text_of(a, self.digits@);
                    assert forall|j: int| 0 <= j < y.len() implies a.contains(#[trigger] y[j]) by {
                        lemma_change_at(a, self.digits@[j] as int);
                    }
                    lemma_depth_of_same_prefix(x, y, i as int);
                    assert(depth(y, i + 1) == depth(y, i as int) + depth_change(y[i as int]));
                    assert(depth(y, i + 1) == after);
                    lemma_change_at(a, 0);
                    lemma_change_at(a, k - 1);
                    assert forall|m: int| 0 <= m <= y.len() implies depth(y, m) >= 0 by {
                        if m <= i {
                            lemma_depth_of_same_prefix(x, y, m);
                            lemma_depth_fits_rest(x, m);
                        } else {
                            lemma_completion_depths(a, y, i as int, m);
                        }
                    }
                    lemma_completion_depths(a, y, i as int, y.len() as int);
                    assert(balanced(y));
                    assert(is_successor_at(a, x, y, i as int));
                    assert(y.len() == len);
                    assert(written_in(a, y));
                    lemma_text_order(a, x, y, i as int);
                    lemma_candidate_of_index(a, y);
                    let lo = (text_index(a, x) + 1) as nat;
                    let hi = text_index(a, y) as nat;
                    assert(lo <= hi < power(a.len(), len as nat));
                    assert(candidate(a, len as nat, hi) == y);
                    assert(len <= max);
                    assert forall|idx: nat| lo <= idx < hi implies !balanced(
                        #[trigger] candidate(a, len as nat, idx),
                    ) by {
                        let z = candidate(a, len as nat, idx);
                        lemma_index_of_candidate(a, len as nat, idx);
                        if balanced(z) {
                            lemma_no_text_between(a, x, y, i as int, z);
                        }
                    }
                    lemma_skip_unpaired(a, max, len as nat, lo, hi);
                    let rest = programs_from(a, max, len as nat, hi + 1);
                    assert(programs_from(a, max, len as nat, hi) == seq![(y, 1usize)] + rest);
                    assert((seq![(y, 1usize)] + rest).skip(1) =~= rest);
                }
                let program = self.source();
                return Some((program, 1));
            }
            proof {
                assert forall|j: int, e: int|
                    i <= j < x.len() && a.index_of(x[j]) < e < a.len() implies !#[trigger] can_stand(
                    x,
                    j,
                    a[e],
                ) by {
                    if j == i {
                    }
                }
            }
            open = before;
        }
        proof {
            let lo = (text_index(a, x) + 1) as nat;
            let hi = power(a.len(), len as nat);
            assert forall|idx: nat| lo <= idx < hi implies !balanced(
                #[trigger] candidate(a, len as nat, idx),
            ) by {
                let z = candidate(a, len as nat, idx);
                lemma_index_of_candidate(a, len as nat, idx);
                if balanced(z) {
                    lemma_no_later_text(a, x, z);
                }
            }
            lemma_skip_unpaired(a, max, len as nat, lo, hi);
            assert(programs_from(a, max, len as nat, hi) == programs_from(
                a,
                max,
                (len + 1) as nat,
                0,
            ));
        }
        if len >= self.max_len {
            return None;
        }
        let mut t: usize = 0;
        while t < len
            invariant
                self.instructions == old(self).instructions,
                self.max_len == old(self).max_len,
                self.digits@.len() == len,
                t <= len,
                forall|j: int| 0 <= j < t ==> self.digits@[j] == 0,
            decreases len - t,
        {
            self.digits.set(t, 0);
            t += 1;
        }
        self.digits.push(0);
        proof {
            let y = text_of(a, self.digits@);
            lemma_change_at(a, 0);
            assert forall|m: int| 0 <= m <= y.len() implies depth(y, m) == 0 by {
                lemma_first_text_balanced(a, y, m);
            }
            assert(balanced(y));
            assert forall|j: int| 0 <= j < y.len() implies a.contains(#[trigger] y[j]) by {
            }
            lemma_index_of_first_text(a, y);
            lemma_candidate_of_index(a, y);
            lemma_power_positive(a.len(), (len + 1) as nat);
            let rest = programs_from(a, max, (len + 1) as nat, 1);
            assert(programs_from(a, max, (len + 1) as nat, 0) == seq![(y, 1usize)] + rest);
            assert((seq![(y, 1usize)] + rest).skip(1) =~= rest);
        }
        let program = self.source();
        Some((program, 1))
    }
}

} // verus!
