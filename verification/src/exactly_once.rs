//! The enumeration of the program texts is complete and free of repetition:
//! every text with paired loops over the alphabet, of a length within the
//! bound, is handed out exactly once.
use crate::arith::{
    comes_from, compose, digit, digits, lemma_composed_of_digits, lemma_digits_of_composed,
    lemma_power_positive, power,
};
use crate::brainfuck::{
    alphabet, candidate, lemma_programs_from_members, programs_from, BfRawInstruction,
};
use crate::loops::balanced;
use vstd::prelude::*;

verus! {

/// Every instruction of the text `x` is one of the alphabet `a`.
pub open spec fn written_in(a: Seq<BfRawInstruction>, x: Seq<BfRawInstruction>) -> bool {
    forall|i: int| 0 <= i < x.len() ==> a.contains(#[trigger] x[i])
}

/// The places of the instructions of `x` in the alphabet `a`, the last instruction first.
pub open spec fn letter_codes(a: Seq<BfRawInstruction>, x: Seq<BfRawInstruction>) -> Seq<int> {
    Seq::new(x.len(), |t: int| a.index_of(x[x.len() - 1 - t]))
}

/// The number of a text among the texts of its length over the alphabet `a`.
pub open spec fn text_index(a: Seq<BfRawInstruction>, x: Seq<BfRawInstruction>) -> int {
    compose(letter_codes(a, x), a.len())
}

/// The text with a number is written in the alphabet and has that number.
pub proof fn lemma_index_of_candidate(a: Seq<BfRawInstruction>, len: nat, idx: nat)
    requires
        a.len() >= 1,
        a.no_duplicates(),
        idx < power(a.len(), len),
    ensures
        candidate(a, len, idx).len() == len,
        written_in(a, candidate(a, len, idx)),
        text_index(a, candidate(a, len, idx)) == idx,
{
    let x = candidate(a, len, idx);
    let k = a.len();
    assert forall|i: int| 0 <= i < len implies a.contains(#[trigger] x[i]) by {
        lemma_power_positive(k, (len - 1 - i) as nat);
        let d = digit(idx, k, (len - 1 - i) as nat);
        assert(0 <= d < k);
        assert(x[i] == a[d]);
    }
    assert forall|t: int| 0 <= t < len implies letter_codes(a, x)[t] == digits(idx, k, len)[t] by {
        lemma_power_positive(k, t as nat);
        let d = digit(idx, k, t as nat);
        assert(0 <= d < k);
        assert(x[len - 1 - t] == a[d]);
    }
    assert(letter_codes(a, x) =~= digits(idx, k, len));
    lemma_composed_of_digits(idx, k, len);
}

/// A text written in the alphabet has a number, and is the text with that number.
pub proof fn lemma_candidate_of_index(a: Seq<BfRawInstruction>, x: Seq<BfRawInstruction>)
    requires
        a.len() >= 1,
        written_in(a, x),
    ensures
        0 <= text_index(a, x) < power(a.len(), x.len()),
        candidate(a, x.len(), text_index(a, x) as nat) == x,
{
    let k = a.len();
    let codes = letter_codes(a, x);
    assert forall|t: int| 0 <= t < codes.len() implies 0 <= #[trigger] codes[t] < k && a[codes[t]]
        == x[x.len() - 1 - t] by {
        assert(a.contains(x[x.len() - 1 - t]));
    }
    lemma_digits_of_composed(codes, k);
    let idx = text_index(a, x) as nat;
    assert forall|i: int| 0 <= i < x.len() implies candidate(a, x.len(), idx)[i] == x[i] by {
        assert(digit(idx, k, (x.len() - 1 - i) as nat) == codes[x.len() - 1 - i]);
    }
    assert(candidate(a, x.len(), idx) =~= x);
}

/// Every text of the enumeration is written in the alphabet.
pub proof fn lemma_members_written_in(
    a: Seq<BfRawInstruction>,
    max_len: nat,
    len: nat,
    idx: nat,
    i: int,
)
    requires
        a.len() >= 1,
        0 <= i < programs_from(a, max_len, len, idx).len(),
    ensures
        written_in(a, programs_from(a, max_len, len, idx)[i].0),
{
    let x = programs_from(a, max_len, len, idx)[i].0;
    lemma_programs_from_members(a, max_len, len, idx, i);
    let n = choose|n: nat| x == candidate(a, x.len(), n);
    assert forall|j: int| 0 <= j < x.len() implies a.contains(#[trigger] x[j]) by {
        lemma_power_positive(a.len(), (x.len() - 1 - j) as nat);
        let d = digit(n, a.len(), (x.len() - 1 - j) as nat);
        assert(0 <= d < a.len());
        assert(x[j] == a[d]);
    }
}

/// How often the enumeration holds an entry: once where it is a text with
/// paired loops that is written in the alphabet, of a length and a number in
/// the range, with the weight 1, and else not at all.
pub proof fn lemma_programs_from_count(
    a: Seq<BfRawInstruction>,
    max_len: nat,
    len: nat,
    idx: nat,
    x: Seq<BfRawInstruction>,
    weight: usize,
)
    requires
        a.len() >= 1,
        a.no_duplicates(),
    ensures
        programs_from(a, max_len, len, idx).to_multiset().count((x, weight)) == (if weight == 1
            && balanced(x) && written_in(a, x) && comes_from(
            max_len,
            len,
            idx,
            x.len(),
            text_index(a, x),
        ) {
            1nat
        } else {
            0nat
        }),
    decreases max_len + 1 - len, power(a.len(), len) - idx,
{
    let all = programs_from(a, max_len, len, idx);
    let entry = (x, weight);
    if written_in(a, x) {
        lemma_candidate_of_index(a, x);
    }
    if len > max_len {
        all.to_multiset_ensures();
        assert(all.len() == 0);
        assert(all.to_multiset().len() == 0);
        assert(all.to_multiset().count(entry) == 0);
    } else if idx >= power(a.len(), len) {
        lemma_programs_from_count(a, max_len, len + 1, 0, x, weight);
    } else {
        lemma_programs_from_count(a, max_len, len, idx + 1, x, weight);
        lemma_index_of_candidate(a, len, idx);
        if balanced(candidate(a, len, idx)) {
            let e = (candidate(a, len, idx), 1usize);
            let rest = programs_from(a, max_len, len, idx + 1);
            vstd::seq_lib::lemma_multiset_commutative(seq![e], rest);
            seq![e].to_multiset_ensures();
            Seq::<(Seq<BfRawInstruction>, usize)>::empty().to_multiset_ensures();
            assert(seq![e] =~= Seq::<(Seq<BfRawInstruction>, usize)>::empty().push(e));
            assert(seq![e].to_multiset().count(entry) == if entry == e {
                1nat
            } else {
                0nat
            });
        }
    }
}

/// No instruction stands twice in the alphabet of a machine.
pub proof fn lemma_alphabet_is_distinct(has_minus: bool, has_print: bool)
    ensures
        alphabet(has_minus, has_print).no_duplicates(),
        5 <= alphabet(has_minus, has_print).len() <= 7,
{
}

/// The enumeration of a machine hands out exactly the texts with paired loops
/// that are written in its alphabet and have a length from 1 to `max_len`,
/// each of them once.
pub proof fn lemma_enumeration_is_exact(
    has_minus: bool,
    has_print: bool,
    max_len: nat,
    x: Seq<BfRawInstruction>,
    weight: usize,
)
    ensures
        programs_from(alphabet(has_minus, has_print), max_len, 1, 0).to_multiset().count(
            (x, weight),
        ) == (if weight == 1 && balanced(x) && written_in(alphabet(has_minus, has_print), x) && 1
            <= x.len() <= max_len {
            1nat
        } else {
            0nat
        }),
{
    let a = alphabet(has_minus, has_print);
    lemma_alphabet_is_distinct(has_minus, has_print);
    lemma_programs_from_count(a, max_len, 1, 0, x, weight);
    if written_in(a, x) {
        lemma_candidate_of_index(a, x);
    }
}

} // verus!
