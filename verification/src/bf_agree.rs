//! The enumeration strategies for the program texts agree: the index
//! decomposition hands out the same texts as the successor mutation and the
//! exhaustive trial, in another order, and so leads to the same counts of the outputs.
use crate::aggregate::{aggregate, lemma_same_programs_same_counts, observations};
use crate::bf_index::{
    index_texts_from, lemma_alphabet_loops_last, lemma_index_texts_count, lemma_nth_of_rank,
    BfIndexGenerator,
};
use crate::bf_successor::BfSuccessorGenerator;
use crate::brainfuck::{alphabet, programs_from, BfRawInstruction, BfSource};
use crate::def::CompSystem2;
use crate::exactly_once::{lemma_candidate_of_index, lemma_programs_from_count, written_in};
use crate::loops::balanced;
use crate::search::{can_be_searched, search_from};
use vstd::prelude::*;

verus! {

/// The enumeration by index decomposition hands out the texts of the
/// enumeration in the order of the numbers, each once: the two differ in the
/// order only.
pub proof fn lemma_text_enumerations_agree(has_minus: bool, has_print: bool, max_len: nat)
    ensures
        index_texts_from(alphabet(has_minus, has_print), max_len, 1, 0).to_multiset()
            == programs_from(alphabet(has_minus, has_print), max_len, 1, 0).to_multiset(),
{
    let a = alphabet(has_minus, has_print);
    let first = index_texts_from(a, max_len, 1, 0).to_multiset();
    let second = programs_from(a, max_len, 1, 0).to_multiset();
    lemma_alphabet_loops_last(has_minus, has_print);
    assert forall|e: (Seq<BfRawInstruction>, usize)| first.count(e) == second.count(e) by {
        lemma_index_texts_count(a, max_len, 1, 0, e.0, e.1);
        lemma_programs_from_count(a, max_len, 1, 0, e.0, e.1);
        if written_in(a, e.0) {
            lemma_candidate_of_index(a, e.0);
            if balanced(e.0) {
                lemma_nth_of_rank(a, e.0);
            }
        }
    }
    assert(first =~= second);
}

/// The two enumeration strategies lead to the same statistics of the
/// outputs, whatever the model that runs the texts: the counts after running
/// and registering every text that the enumeration by index decomposition
/// hands out are the counts after doing so with every text of the
/// enumeration in the order of the numbers, which the successor mutation and
/// the exhaustive trial hand out.
pub proof fn lemma_text_strategies_agree<C: CompSystem2<Program = BfSource>>(
    comp: C,
    has_minus: bool,
    has_print: bool,
    max_len: nat,
    max_steps: usize,
)
    ensures
        aggregate::<C>(
            observations(
                comp,
                index_texts_from(alphabet(has_minus, has_print), max_len, 1, 0),
                max_steps,
            ),
        ).counts == aggregate::<C>(
            observations(
                comp,
                programs_from(alphabet(has_minus, has_print), max_len, 1, 0),
                max_steps,
            ),
        ).counts,
{
    lemma_text_enumerations_agree(has_minus, has_print, max_len);
    lemma_same_programs_same_counts::<C>(
        comp,
        index_texts_from(alphabet(has_minus, has_print), max_len, 1, 0),
        programs_from(alphabet(has_minus, has_print), max_len, 1, 0),
        max_steps,
    );
}

/// Searches the texts of up to `max_len` instructions with both
/// enumerations, running them on `comp`, and says whether the counts of the
/// outputs are the same. They always are: where both searches can be
/// carried out the answer is `Some(true)`, and else it is `None`.
pub fn strategies_match<C: CompSystem2<Program = BfSource>>(
    comp: &C,
    has_minus: bool,
    has_print: bool,
    max_len: usize,
    max_steps: usize,
) -> (r: Option<bool>)
    ensures
        r == (if BfIndexGenerator::fits((alphabet(has_minus, has_print).len() - 2) as nat, max_len)
            && can_be_searched(
            *comp,
            index_texts_from(alphabet(has_minus, has_print), max_len as nat, 1, 0),
            max_steps,
        ) && can_be_searched(
            *comp,
            programs_from(alphabet(has_minus, has_print), max_len as nat, 1, 0),
            max_steps,
        ) {
            Some(true)
        } else {
            None
        }),
{
    let by_index = match BfIndexGenerator::new(max_len, has_minus, has_print) {
        Some(generator) => generator,
        None => {
            return None;
        },
    };
    let by_successor = BfSuccessorGenerator::new(max_len, has_minus, has_print);
    let first = search_from(comp, by_index, max_steps);
    let second = search_from(comp, by_successor, max_steps);
    match (first, second) {
        (Some(first), Some(second)) => {
            proof {
                lemma_text_strategies_agree(*comp, has_minus, has_print, max_len as nat, max_steps);
            }
            Some(first.matches_outputs(&second))
        },
        _ => None,
    }
}

} // verus!
