//! The enumeration of the program texts by index decomposition: the texts of
//! each length are counted in advance, and the text with a given number is
//! built from the number without going through the texts before it.
use crate::arith::{comes_from, lemma_div_mod_join, lemma_div_mod_split};
use crate::bounded::{
    alphabet_items, alphabet_new, alphabet_push, alphabet_slice, source_items, source_new,
    source_push,
};
use crate::brainfuck::{alphabet, BF_MAX_LEN, BfRawInstruction, BfSource};
use crate::def::Generator;
use crate::exactly_once::written_in;
use crate::loops::{
    balanced, close_of, depth, depth_change, lemma_balanced_after_plain, lemma_balanced_loop_parts,
    lemma_balanced_of_loop_parts,
};
use arrayvec::ArrayVec;
use vstd::prelude::*;

verus! {

/// The number of the texts with paired loops of the length `len`, over an
/// alphabet with `plain` instructions besides the two loop instructions: a
/// text is empty, or a plain instruction and a text, or a loop around a text
/// and a text behind it.
pub open spec fn text_count(plain: nat, len: nat) -> nat
    decreases len, len + 1,
{
    if len == 0 {
        1
    } else {
        plain * text_count(plain, (len - 1) as nat) + loop_count(plain, len, (len - 1) as nat)
    }
}

/// The number of the texts of the length `len` that begin with a loop whose
/// body is shorter than `upto`.
pub open spec fn loop_count(plain: nat, len: nat, upto: nat) -> nat
    decreases len, upto,
{
    if upto == 0 || upto + 1 > len {
        0
    } else {
        loop_count(plain, len, (upto - 1) as nat) + text_count(plain, (upto - 1) as nat)
            * text_count(plain, (len - 1 - upto) as nat)
    }
}

/// The length of the body of the first loop of the text with the number `r`
/// among the texts of the length `len` that begin with a loop: the least
/// length from `k` on that `r` falls under.
pub open spec fn find_split(plain: nat, len: nat, r: nat, k: nat) -> nat
    decreases len - k,
{
    if k + 2 >= len || r < loop_count(plain, len, k + 1) {
        k
    } else {
        find_split(plain, len, r, k + 1)
    }
}

/// An alphabet whose last two instructions are the loop-open and the
/// loop-close, with no instruction twice.
pub open spec fn loops_last(a: Seq<BfRawInstruction>) -> bool {
    &&& a.len() >= 2
    &&& a.no_duplicates()
    &&& a[a.len() - 2] == BfRawInstruction::StartLoop
    &&& a[a.len() - 1] == BfRawInstruction::EndLoop
}

/// The text of the length `len` with the number `idx` in the enumeration by
/// index decomposition. The numbers below `plain * text_count(plain, len - 1)`
/// belong to the texts that begin with a plain instruction; the others
/// belong to the texts that begin with a loop, in the order of the lengths
/// of its body.
pub open spec fn nth_text(a: Seq<BfRawInstruction>, len: nat, idx: nat) -> Seq<BfRawInstruction>
    decreases len,
{
    let plain = (a.len() - 2) as nat;
    if len == 0 {
        Seq::empty()
    } else {
        let shorter = text_count(plain, (len - 1) as nat);
        if idx < plain * shorter {
            seq![a[idx as int / shorter as int]] + nth_text(
                a,
                (len - 1) as nat,
                (idx as int % shorter as int) as nat,
            )
        } else {
            let r = (idx - plain * shorter) as nat;
            let k = find_split(plain, len, r, 0);
            if k + 2 > len {
                Seq::empty()
            } else {
                let within = r - loop_count(plain, len, k);
                let behind = text_count(plain, (len - 2 - k) as nat);
                seq![BfRawInstruction::StartLoop] + nth_text(a, k, (within / behind as int) as nat)
                    + seq![BfRawInstruction::EndLoop] + nth_text(
                    a,
                    (len - 2 - k) as nat,
                    (within % behind as int) as nat,
                )
            }
        }
    }
}

/// The texts of the length `len` from number `idx` on, then all those of
/// the greater lengths up to `max_len`, each with the weight 1, in the
/// order of the enumeration by index decomposition.
pub open spec fn index_texts_from(a: Seq<BfRawInstruction>, max_len: nat, len: nat, idx: nat) -> Seq<
    (Seq<BfRawInstruction>, usize),
>
    decreases max_len + 1 - len, text_count((a.len() - 2) as nat, len) - idx,
{
    if len > max_len {
        Seq::empty()
    } else if idx >= text_count((a.len() - 2) as nat, len) {
        index_texts_from(a, max_len, len + 1, 0)
    } else {
        seq![(nth_text(a, len, idx), 1usize)] + index_texts_from(a, max_len, len, idx + 1)
    }
}

/// Every count is at least 1 where the alphabet has a plain instruction.
pub proof fn lemma_text_count_positive(plain: nat, len: nat)
    requires
        plain >= 1,
    ensures
        text_count(plain, len) >= 1,
    decreases len,
{
    if len > 0 {
        lemma_text_count_positive(plain, (len - 1) as nat);
        let c = text_count(plain, (len - 1) as nat);
        assert(plain * c >= 1) by (nonlinear_arith)
            requires
                plain >= 1,
                c >= 1,
        ;
    }
}

/// The number of the texts that begin with a loop does not fall as longer
/// bodies are admitted.
pub proof fn lemma_loop_count_grows(plain: nat, len: nat, upto1: nat, upto2: nat)
    requires
        upto1 <= upto2,
        upto2 + 1 <= len,
    ensures
        loop_count(plain, len, upto1) <= loop_count(plain, len, upto2),
    decreases upto2,
{
    if upto1 < upto2 {
        lemma_loop_count_grows(plain, len, upto1, (upto2 - 1) as nat);
        let c1 = text_count(plain, (upto2 - 1) as nat);
        let c2 = text_count(plain, (len - 1 - upto2) as nat);
        assert(c1 * c2 >= 0) by (nonlinear_arith)
            requires
                c1 >= 0,
                c2 >= 0,
        ;
    }
}

/// `find_split` finds the length of the body under which the number falls.
pub proof fn lemma_find_split(plain: nat, len: nat, r: nat, k: nat)
    requires
        len >= 2,
        k + 2 <= len,
        loop_count(plain, len, k) <= r < loop_count(plain, len, (len - 1) as nat),
    ensures
        k <= find_split(plain, len, r, k),
        find_split(plain, len, r, k) + 2 <= len,
        loop_count(plain, len, find_split(plain, len, r, k)) <= r < loop_count(
            plain,
            len,
            find_split(plain, len, r, k) + 1,
        ),
    decreases len - k,
{
    if k + 2 >= len || r < loop_count(plain, len, k + 1) {
    } else {
        lemma_find_split(plain, len, r, k + 1);
    }
}

/// `find_split` returns the length `k` where the number falls under it and
/// under no shorter one.
pub proof fn lemma_find_split_is(plain: nat, len: nat, r: nat, from: nat, k: nat)
    requires
        from <= k,
        k + 2 <= len,
        loop_count(plain, len, k) <= r < loop_count(plain, len, k + 1),
    ensures
        find_split(plain, len, r, from) == k,
    decreases k - from,
{
    if from < k {
        lemma_loop_count_grows(plain, len, from + 1, k);
        lemma_find_split_is(plain, len, r, from + 1, k);
    }
}

/// The number of a text with paired loops in the enumeration by index
/// decomposition of the texts of its length.
pub open spec fn text_rank(a: Seq<BfRawInstruction>, x: Seq<BfRawInstruction>) -> int
    decreases x.len(),
{
    let plain = (a.len() - 2) as nat;
    let len = x.len();
    if len == 0 {
        0
    } else if x[0] == BfRawInstruction::StartLoop {
        let q = close_of(x, 0);
        if 0 < q < len {
            plain * text_count(plain, (len - 1) as nat) + loop_count(plain, len, (q - 1) as nat)
                + text_rank(a, x.subrange(1, q)) * text_count(plain, (len - 1 - q) as nat)
                + text_rank(a, x.subrange(q + 1, len as int))
        } else {
            0
        }
    } else {
        a.index_of(x[0]) * text_count(plain, (len - 1) as nat) + text_rank(
            a,
            x.subrange(1, len as int),
        )
    }
}

/// The text with a number has its length, paired loops and only
/// instructions of the alphabet, and its number is that number.
pub proof fn lemma_rank_of_nth(a: Seq<BfRawInstruction>, len: nat, idx: nat)
    requires
        loops_last(a),
        a.len() >= 3,
        idx < text_count((a.len() - 2) as nat, len),
    ensures
        nth_text(a, len, idx).len() == len,
        balanced(nth_text(a, len, idx)),
        written_in(a, nth_text(a, len, idx)),
        text_rank(a, nth_text(a, len, idx)) == idx,
    decreases len,
{
    let plain = (a.len() - 2) as nat;
    let x = nth_text(a, len, idx);
    if len == 0 {
        assert(depth(x, 0) == 0);
    } else {
        let shorter = text_count(plain, (len - 1) as nat);
        lemma_text_count_positive(plain, (len - 1) as nat);
        if idx < plain * shorter {
            lemma_div_mod_split(idx as int, shorter as int, plain as int);
            let i = idx as int / shorter as int;
            let low = (idx as int % shorter as int) as nat;
            let rest = nth_text(a, (len - 1) as nat, low);
            lemma_rank_of_nth(a, (len - 1) as nat, low);
            assert(x == seq![a[i]] + rest);
            assert(x.subrange(1, x.len() as int) =~= rest);
            assert(x[0] == a[i]);
            lemma_balanced_after_plain(x);
            assert forall|j: int| 0 <= j < x.len() implies a.contains(#[trigger] x[j]) by {
                if j > 0 {
                    assert(x[j] == rest[j - 1]);
                }
            }
        } else {
            let r = (idx - plain * shorter) as nat;
            lemma_find_split(plain, len, r, 0);
            let k = find_split(plain, len, r, 0);
            let within = r - loop_count(plain, len, k);
            let behind_count = text_count(plain, (len - 2 - k) as nat);
            lemma_text_count_positive(plain, (len - 2 - k) as nat);
            assert(loop_count(plain, len, k + 1) == loop_count(plain, len, k) + text_count(
                plain,
                k,
            ) * behind_count);
            lemma_div_mod_split(within, behind_count as int, text_count(plain, k) as int);
            let i1 = (within / behind_count as int) as nat;
            let i2 = (within % behind_count as int) as nat;
            let inner = nth_text(a, k, i1);
            let behind = nth_text(a, (len - 2 - k) as nat, i2);
            lemma_rank_of_nth(a, k, i1);
            lemma_rank_of_nth(a, (len - 2 - k) as nat, i2);
            lemma_balanced_of_loop_parts(inner, behind);
            assert(x == seq![BfRawInstruction::StartLoop] + inner + seq![
                BfRawInstruction::EndLoop,
            ] + behind);
            assert forall|j: int| 0 <= j < x.len() implies a.contains(#[trigger] x[j]) by {
                if j == 0 {
                    assert(x[j] == a[a.len() - 2]);
                } else if j <= k {
                    assert(x[j] == inner[j - 1]);
                } else if j == k + 1 {
                    assert(x[j] == a[a.len() - 1]);
                } else {
                    assert(x[j] == behind[j - k - 2]);
                }
            }
            assert(x[0] == BfRawInstruction::StartLoop);
            assert(i1 * behind_count + i2 == within) by (nonlinear_arith)
                requires
                    within == (within / behind_count as int) * behind_count + within
                        % behind_count as int,
                    i1 == within / behind_count as int,
                    i2 == within % behind_count as int,
            ;
        }
    }
}

/// A text with paired loops over the alphabet has a number below the count
/// of its length, and is the text with that number.
pub proof fn lemma_nth_of_rank(a: Seq<BfRawInstruction>, x: Seq<BfRawInstruction>)
    requires
        loops_last(a),
        a.len() >= 3,
        balanced(x),
        written_in(a, x),
    ensures
        0 <= text_rank(a, x) < text_count((a.len() - 2) as nat, x.len()),
        nth_text(a, x.len(), text_rank(a, x) as nat) == x,
    decreases x.len(),
{
    let plain = (a.len() - 2) as nat;
    let len = x.len();
    if len == 0 {
        assert(nth_text(a, 0, 0) =~= x);
    } else {
        let shorter = text_count(plain, (len - 1) as nat);
        lemma_text_count_positive(plain, (len - 1) as nat);
        assert(a.contains(x[0]));
        assert(depth(x, 1) == depth(x, 0) + depth_change(x[0]));
        assert(depth(x, 0) == 0);
        if x[0] == BfRawInstruction::StartLoop {
            lemma_balanced_loop_parts(x);
            let q = close_of(x, 0);
            let k = (q - 1) as nat;
            let inner = x.subrange(1, q);
            let behind = x.subrange(q + 1, len as int);
            let behind_count = text_count(plain, (len - 2 - k) as nat);
            lemma_text_count_positive(plain, (len - 2 - k) as nat);
            assert forall|j: int| 0 <= j < inner.len() implies a.contains(#[trigger] inner[j]) by {
                assert(inner[j] == x[j + 1]);
            }
            assert forall|j: int| 0 <= j < behind.len() implies a.contains(
                #[trigger] behind[j],
            ) by {
                assert(behind[j] == x[j + q + 1]);
            }
            lemma_nth_of_rank(a, inner);
            lemma_nth_of_rank(a, behind);
            let i1 = text_rank(a, inner);
            let i2 = text_rank(a, behind);
            let within = i1 * behind_count + i2;
            assert(0 <= within < text_count(plain, k) * behind_count) by (nonlinear_arith)
                requires
                    0 <= i1 < text_count(plain, k),
                    0 <= i2 < behind_count,
                    within == i1 * behind_count + i2,
            ;
            assert(loop_count(plain, len, k + 1) == loop_count(plain, len, k) + text_count(
                plain,
                k,
            ) * behind_count);
            lemma_loop_count_grows(plain, len, k + 1, (len - 1) as nat);
            let r = (loop_count(plain, len, k) + within) as nat;
            lemma_find_split_is(plain, len, r, 0, k);
            lemma_div_mod_join(i1, i2, behind_count as int);
            let idx = text_rank(a, x) as nat;
            assert(idx == plain * shorter + r);
            assert(plain * shorter >= 0) by (nonlinear_arith)
                requires
                    plain >= 0,
                    shorter >= 0,
            ;
            assert(nth_text(a, len, idx) =~= x);
        } else if x[0] == BfRawInstruction::EndLoop {
            assert(depth(x, 1) < 0);
        } else {
            let i = a.index_of(x[0]);
            assert(0 <= i < a.len() && a[i] == x[0]);
            assert(i < plain);
            let rest = x.subrange(1, len as int);
            lemma_balanced_after_plain(x);
            assert forall|j: int| 0 <= j < rest.len() implies a.contains(#[trigger] rest[j]) by {
                assert(rest[j] == x[j + 1]);
            }
            lemma_nth_of_rank(a, rest);
            let low = text_rank(a, rest);
            lemma_div_mod_join(i, low, shorter as int);
            assert(i * shorter + low < plain * shorter) by (nonlinear_arith)
                requires
                    0 <= i < plain,
                    0 <= low < shorter,
            ;
            assert(0 <= i * shorter) by (nonlinear_arith)
                requires
                    0 <= i,
                    0 <= shorter,
            ;
            lemma_loop_count_grows(plain, len, 0, (len - 1) as nat);
            assert(nth_text(a, len, text_rank(a, x) as nat) =~= x);
        }
    }
}

/// How often the enumeration by index decomposition holds an entry: once
/// where it is a text with paired loops that is written in the alphabet, of
/// a length and a number in the range, with the weight 1, and else not at all.
pub proof fn lemma_index_texts_count(
    a: Seq<BfRawInstruction>,
    max_len: nat,
    len: nat,
    idx: nat,
    x: Seq<BfRawInstruction>,
    weight: usize,
)
    requires
        loops_last(a),
        a.len() >= 3,
    ensures
        index_texts_from(a, max_len, len, idx).to_multiset().count((x, weight)) == (if weight == 1
            && balanced(x) && written_in(a, x) && comes_from(
            max_len,
            len,
            idx,
            x.len(),
            text_rank(a, x),
        ) {
            1nat
        } else {
            0nat
        }),
    decreases max_len + 1 - len, text_count((a.len() - 2) as nat, len) - idx,
{
    let all = index_texts_from(a, max_len, len, idx);
    let entry = (x, weight);
    if balanced(x) && written_in(a, x) {
        lemma_nth_of_rank(a, x);
    }
    if len > max_len {
        all.to_multiset_ensures();
        assert(all.len() == 0);
        assert(all.to_multiset().len() == 0);
        assert(all.to_multiset().count(entry) == 0);
    } else if idx >= text_count((a.len() - 2) as nat, len) {
        lemma_index_texts_count(a, max_len, len + 1, 0, x, weight);
    } else {
        lemma_index_texts_count(a, max_len, len, idx + 1, x, weight);
        lemma_rank_of_nth(a, len, idx);
        let e = (nth_text(a, len, idx), 1usize);
        let rest = index_texts_from(a, max_len, len, idx + 1);
        vstd::seq_lib::lemma_multiset_commutative(seq![e], rest);
        seq![e].to_multiset_ensures();
        Seq::<(Seq<BfRawInstruction>, usize)>::empty().to_multiset_ensures();
        assert(seq![e] =~= Seq::<(Seq<BfRawInstruction>, usize)>::empty().push(e));
        assert(seq![e].to_multiset().count(entry) == if entry == e {
            1nat
        } else {
            0nat
        });
    }
}

/// The alphabet of a machine ends with the two loop instructions.
pub proof fn lemma_alphabet_loops_last(has_minus: bool, has_print: bool)
    ensures
        loops_last(alphabet(has_minus, has_print)),
        alphabet(has_minus, has_print).len() >= 5,
{
}

/// The enumeration from a number on begins with the texts of that length
/// that are left: behind the first of them, which are as many as numbers are
/// left, it goes on as the enumeration of the next length does.
pub proof fn lemma_index_texts_at(
    a: Seq<BfRawInstruction>,
    max_len: nat,
    len: nat,
    idx: nat,
    i: int,
)
    requires
        len <= max_len,
        idx <= text_count((a.len() - 2) as nat, len),
        0 <= i,
    ensures
        index_texts_from(a, max_len, len, idx).len() == text_count((a.len() - 2) as nat, len) - idx
            + index_texts_from(a, max_len, len + 1, 0).len(),
        i < text_count((a.len() - 2) as nat, len) - idx ==> index_texts_from(
            a,
            max_len,
            len,
            idx,
        )[i] == (nth_text(a, len, (idx + i) as nat), 1usize),
        text_count((a.len() - 2) as nat, len) - idx <= i < index_texts_from(
            a,
            max_len,
            len,
            idx,
        ).len() ==> index_texts_from(a, max_len, len, idx)[i] == index_texts_from(
            a,
            max_len,
            len + 1,
            0,
        )[i - (text_count((a.len() - 2) as nat, len) - idx)],
    decreases text_count((a.len() - 2) as nat, len) - idx,
{
    if idx < text_count((a.len() - 2) as nat, len) {
        if i > 0 {
            lemma_index_texts_at(a, max_len, len, idx + 1, i - 1);
        } else {
            lemma_index_texts_at(a, max_len, len, idx + 1, 0);
        }
    }
}

/// Enumerates the texts with paired loops by index decomposition.
pub struct BfIndexGenerator {
    instructions: ArrayVec<BfRawInstruction, 7>,
    // counts[l] is the number of the texts of the length l
    counts: Vec<usize>,
    max_len: usize,
    len: usize,
    idx: usize,
}

impl BfIndexGenerator {
    /// The alphabet that the texts are written in.
    pub closed spec fn letters(&self) -> Seq<BfRawInstruction> {
        alphabet_items(self.instructions)
    }

    /// The number of the instructions of the alphabet besides the two loop instructions.
    pub closed spec fn plain(&self) -> nat {
        (alphabet_items(self.instructions).len() - 2) as nat
    }

    /// Whether the texts of every length up to `max_len`, over an alphabet
    /// with `plain` instructions besides the loop instructions, can be
    /// counted and held on this machine.
    pub open spec fn fits(plain: nat, max_len: usize) -> bool {
        &&& max_len <= BF_MAX_LEN
        &&& forall|l: nat| l <= max_len ==> #[trigger] text_count(plain, l) <= usize::MAX
    }

    /// A generator of the texts of the lengths 1 to `max_len`, or `None`
    /// where their counts do not fit.
    pub fn new(max_len: usize, has_minus: bool, has_print: bool) -> (g: Option<Self>)
        ensures
            g is Some == Self::fits((alphabet(has_minus, has_print).len() - 2) as nat, max_len),
            g matches Some(generator) ==> {
                &&& generator.wf()
                &&& generator.letters() == alphabet(has_minus, has_print)
                &&& generator.remaining() == index_texts_from(
                    alphabet(has_minus, has_print),
                    max_len as nat,
                    1,
                    0,
                )
                &&& generator.all() == generator.remaining()
            },
    {
        if max_len > BF_MAX_LEN {
            return None;
        }
        let mut instructions = alphabet_new();
        alphabet_push(&mut instructions, BfRawInstruction::Plus);
        if has_minus {
            alphabet_push(&mut instructions, BfRawInstruction::Minus);
        }
        if has_print {
            alphabet_push(&mut instructions, BfRawInstruction::Print);
        }
        alphabet_push(&mut instructions, BfRawInstruction::Left);
        alphabet_push(&mut instructions, BfRawInstruction::Right);
        alphabet_push(&mut instructions, BfRawInstruction::StartLoop);
        alphabet_push(&mut instructions, BfRawInstruction::EndLoop);
        assert(alphabet_items(instructions) =~= alphabet(has_minus, has_print));
        let plain: usize = alphabet_slice(&instructions).len() - 2;
        let mut counts: Vec<usize> = Vec::new();
        counts.push(1);
        let mut l: usize = 1;
        while l <= max_len
            invariant
                max_len <= 28,
                1 <= l <= max_len + 1,
                plain >= 1,
                plain == alphabet(has_minus, has_print).len() - 2,
                alphabet_items(instructions) == alphabet(has_minus, has_print),
                counts@.len() == l,
                forall|j: int| 0 <= j < l ==> counts@[j] == text_count(plain as nat, j as nat),
            decreases max_len + 1 - l,
        {
            let ghost p = plain as nat;
            let ghost shorter = text_count(p, (l - 1) as nat);
            let ghost whole = text_count(p, l as nat);
            proof {
                lemma_loop_count_grows(p, l as nat, 0, (l - 1) as nat);
                assert(plain * counts@[l - 1] == p * shorter);
            }
            let mut count = match plain.checked_mul(counts[l - 1]) {
                Some(product) => product,
                None => {
                    assert(text_count(p, l as nat) > usize::MAX);
                    return None;
                },
            };
            let mut k: usize = 0;
            while k + 2 <= l
                invariant
                    1 <= l <= max_len <= 28,
                    p == plain,
                    plain == alphabet(has_minus, has_print).len() - 2,
                    alphabet_items(instructions) == alphabet(has_minus, has_print),
                    k + 1 <= l,
                    counts@.len() == l,
                    forall|j: int| 0 <= j < l ==> counts@[j] == text_count(p, j as nat),
                    count == p * text_count(p, (l - 1) as nat) + loop_count(p, l as nat, k as nat),
                decreases l - k,
            {
                proof {
                    lemma_loop_count_grows(p, l as nat, (k + 1) as nat, (l - 1) as nat);
                    assert(loop_count(p, l as nat, (k + 1) as nat) == loop_count(
                        p,
                        l as nat,
                        k as nat,
                    ) + text_count(p, k as nat) * text_count(p, (l - 2 - k) as nat));
                    assert(loop_count(p, l as nat, k as nat) >= 0);
                    assert(p * text_count(p, (l - 1) as nat) >= 0) by (nonlinear_arith);
                }
                let block = match counts[k].checked_mul(counts[l - 2 - k]) {
                    Some(product) => product,
                    None => {
                        assert(text_count(p, l as nat) > usize::MAX);
                        return None;
                    },
                };
                count = match count.checked_add(block) {
                    Some(sum) => sum,
                    None => {
                        assert(text_count(p, l as nat) > usize::MAX);
                        return None;
                    },
                };
                k += 1;
            }
            counts.push(count);
            l += 1;
        }
        let generator = BfIndexGenerator { instructions, counts, max_len, len: 1, idx: 0 };
        proof {
            lemma_alphabet_loops_last(has_minus, has_print);
            assert forall|n: nat| n <= max_len implies #[trigger] text_count(plain as nat, n)
                <= usize::MAX by {
                assert(counts@[n as int] == text_count(plain as nat, n));
            }
        }
        Some(generator)
    }

    /// The text with the number `index` in the whole enumeration, of which the
    /// first text has the number 0, or `None` where the enumeration has no
    /// text with that number. The texts before it are not gone through.
    pub fn nth(&self, index: usize) -> (r: Option<BfSource>)
        requires
            self.wf(),
        ensures
            r is Some == (index < self.all().len()),
            r matches Some(program) ==> program@ == self.all()[index as int].0,
    {
        let ghost a = self.letters();
        let ghost m = self.max_len as nat;
        let ghost p = self.plain();
        let mut len: usize = 1;
        let mut rest = index;
        while len <= self.max_len
            invariant
                self.wf(),
                a == self.letters(),
                m == self.max_len,
                p == self.plain(),
                1 <= len <= self.max_len + 1,
                (index < self.all().len()) == (rest < index_texts_from(a, m, len as nat, 0).len()),
                index < self.all().len() ==> self.all()[index as int] == index_texts_from(
                    a,
                    m,
                    len as nat,
                    0,
                )[rest as int],
            decreases self.max_len + 1 - len,
        {
            proof {
                lemma_index_texts_at(a, m, len as nat, 0, rest as int);
            }
            if rest < self.counts[len] {
                let mut program = BfSource(source_new());
                self.fill(len, rest, &mut program.0);
                assert(Seq::<BfRawInstruction>::empty() + nth_text(a, len as nat, rest as nat)
                    =~= nth_text(a, len as nat, rest as nat));
                return Some(program);
            }
            rest -= self.counts[len];
            len += 1;
        }
        None
    }

    /// The whole enumeration of this generator, from the first text on.
    pub closed spec fn all(&self) -> Seq<(Seq<BfRawInstruction>, usize)> {
        index_texts_from(alphabet_items(self.instructions), self.max_len as nat, 1, 0)
    }

    /// The number of the texts of the length `len` whose first loop has a
    /// body of the length `k`.
    fn block(&self, len: usize, k: usize) -> (n: usize)
        requires
            self.wf(),
            len <= self.max_len,
            k + 2 <= len,
        ensures
            n == text_count(self.plain(), k as nat) * text_count(
                self.plain(),
                (len - 2 - k) as nat,
            ),
            loop_count(self.plain(), len as nat, (k + 1) as nat) == loop_count(
                self.plain(),
                len as nat,
                k as nat,
            ) + n,
            loop_count(self.plain(), len as nat, (k + 1) as nat) <= loop_count(
                self.plain(),
                len as nat,
                (len - 1) as nat,
            ) <= text_count(self.plain(), len as nat),
    {
        proof {
            let p = self.plain();
            lemma_loop_count_grows(p, len as nat, (k + 1) as nat, (len - 1) as nat);
            lemma_loop_count_grows(p, len as nat, 0, k as nat);
            assert(p * text_count(p, (len - 1) as nat) >= 0) by (nonlinear_arith);
            assert(self.counts@[len as int] == text_count(p, len as nat));
        }
        self.counts[k] * self.counts[len - 2 - k]
    }

    /// Adds the text of the length `len` with the number `idx` to `program`.
    #[verifier::rlimit(60)]
    fn fill(&self, len: usize, idx: usize, program: &mut ArrayVec<BfRawInstruction, 28>)
        requires
            self.wf(),
            len <= self.max_len,
            idx < text_count(self.plain(), len as nat),
            source_items(*old(program)).len() + len <= 28,
        ensures
            source_items(*final(program)) == source_items(*old(program)) + nth_text(
                self.letters(),
                len as nat,
                idx as nat,
            ),
        decreases len,
    {
        let ghost a = self.letters();
        let ghost p = self.plain();
        let ghost before = source_items(*program);
        if len == 0 {
            assert(before + nth_text(a, 0, idx as nat) =~= before);
            return ;
        }
        let letters = alphabet_slice(&self.instructions);
        let plain = letters.len() - 2;
        let shorter = self.counts[len - 1];
        proof {
            lemma_text_count_positive(p, (len - 1) as nat);
            lemma_loop_count_grows(p, len as nat, 0, (len - 1) as nat);
            assert(self.counts@[len as int] == text_count(p, len as nat));
        }
        let with_plain = plain * shorter;
        if idx < with_plain {
            proof {
                lemma_div_mod_split(idx as int, shorter as int, plain as int);
                lemma_rank_of_nth(a, (len - 1) as nat, (idx % shorter) as nat);
            }
            source_push(program, letters[idx / shorter]);
            self.fill(len - 1, idx % shorter, program);
            assert(source_items(*program) =~= before + nth_text(a, len as nat, idx as nat));
        } else {
            let ghost r0 = (idx - with_plain) as nat;
            let mut r = idx - with_plain;
            let mut k: usize = 0;
            proof {
                lemma_find_split(p, len as nat, r0, 0);
            }
            while k + 2 < len && r >= self.block(len, k)
                invariant
                    self.wf(),
                    p == self.plain(),
                    2 <= len <= self.max_len,
                    k + 2 <= len,
                    r0 < loop_count(p, len as nat, (len - 1) as nat),
                    loop_count(p, len as nat, k as nat) <= r0,
                    r == r0 - loop_count(p, len as nat, k as nat),
                    find_split(p, len as nat, r0, k as nat) == find_split(p, len as nat, r0, 0),
                decreases len - k,
            {
                r -= self.block(len, k);
                k += 1;
            }
            let behind = self.counts[len - 2 - k];
            proof {
                assert(k == find_split(p, len as nat, r0, 0)) by {
                    if k + 2 < len {
                        let n = text_count(p, k as nat) * text_count(p, (len - 2 - k) as nat);
                        assert(loop_count(p, len as nat, (k + 1) as nat) == loop_count(
                            p,
                            len as nat,
                            k as nat,
                        ) + n);
                    }
                }
                assert(loop_count(p, len as nat, (k + 1) as nat) == loop_count(
                    p,
                    len as nat,
                    k as nat,
                ) + text_count(p, k as nat) * text_count(p, (len - 2 - k) as nat));
                lemma_text_count_positive(p, (len - 2 - k) as nat);
                lemma_div_mod_split(r as int, behind as int, text_count(p, k as nat) as int);
                lemma_rank_of_nth(a, k as nat, (r / behind) as nat);
                lemma_rank_of_nth(a, (len - 2 - k) as nat, (r % behind) as nat);
            }
            source_push(program, BfRawInstruction::StartLoop);
            self.fill(k, r / behind, program);
            source_push(program, BfRawInstruction::EndLoop);
            self.fill(len - 2 - k, r % behind, program);
            assert(source_items(*program) =~= before + nth_text(a, len as nat, idx as nat));
        }
    }
}

impl Generator<BfSource> for BfIndexGenerator {
    closed spec fn wf(&self) -> bool {
        let a = alphabet_items(self.instructions);
        &&& loops_last(a)
        &&& 3 <= a.len() <= 7
        &&& self.max_len <= 28
        &&& self.counts@.len() == self.max_len + 1
        &&& forall|j: int|
            0 <= j <= self.max_len ==> self.counts@[j] == text_count(
                (a.len() - 2) as nat,
                j as nat,
            )
        &&& 1 <= self.len <= self.max_len + 1
        &&& self.len <= self.max_len ==> self.idx <= self.counts@[self.len as int]
    }

    closed spec fn remaining(&self) -> Seq<(Seq<BfRawInstruction>, usize)> {
        index_texts_from(
            alphabet_items(self.instructions),
            self.max_len as nat,
            self.len as nat,
            self.idx as nat,
        )
    }

    fn next(&mut self) -> (r: Option<(BfSource, usize)>)
        ensures
            final(self).all() == old(self).all(),
            final(self).letters() == old(self).letters(),
    {
        let ghost a = self.letters();
        let ghost m = self.max_len as nat;
        if self.len <= self.max_len && self.idx >= self.counts[self.len] {
            proof {
                assert(index_texts_from(a, m, self.len as nat, self.idx as nat)
                    == index_texts_from(a, m, (self.len + 1) as nat, 0));
                lemma_text_count_positive(self.plain(), (self.len + 1) as nat);
            }
            self.len += 1;
            self.idx = 0;
        }
        if self.len > self.max_len {
            return None;
        }
        let mut program = BfSource(source_new());
        self.fill(self.len, self.idx, &mut program.0);
        proof {
            let x = nth_text(a, self.len as nat, self.idx as nat);
            let rest = index_texts_from(a, m, self.len as nat, (self.idx + 1) as nat);
            assert(index_texts_from(a, m, self.len as nat, self.idx as nat) == seq![(x, 1usize)]
                + rest);
            assert((seq![(x, 1usize)] + rest).skip(1) =~= rest);
            assert(Seq::<BfRawInstruction>::empty() + x =~= x);
        }
        self.idx += 1;
        Some((program, 1))
    }
}

} // verus!
