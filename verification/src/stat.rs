//! The aggregator: it folds the outcomes of many runs into counts per output,
//! with the first program seen for each output as its witness.
use crate::def::{CompSystem2, ProgResult, Sized};
use std::collections::hash_map::Entry;
use std::collections::HashMap;
use vstd::prelude::*;
use vstd::std_specs::hash::{obeys_key_model, spec_hash_map_iter};
use vstd::std_specs::iter::IteratorSpec;

verus! {

/// What is kept for one output.
pub struct OutputStat<C: CompSystem2> {
    /// The first program that was registered with this output.
    pub min_program: C::Program,
    /// The sum of the weights registered with this output.
    pub count: usize,
}

/// The running statistics of a search.
pub struct Stat<C: CompSystem2> {
    error: usize,
    timeout: usize,
    invalid_output: usize,
    pub outputs: HashMap<C::Output, OutputStat<C>>,
    runs: Vec<usize>,
}

/// What a `Stat` holds, as plain values.
#[verifier::ext_equal]
#[verifier::reject_recursive_types(O)]
pub struct StatView<O, P> {
    /// The sum of the weights of the runs that ended in an error.
    pub errors: nat,
    /// The sum of the weights of the runs that ran out of steps.
    pub timeouts: nat,
    /// The sum of the weights of the runs whose output is not one that counts.
    pub invalid_outputs: nat,
    /// The sum of the weights registered for each output that counts.
    pub counts: Map<O, nat>,
    /// The first program registered for each output that counts.
    pub witnesses: Map<O, P>,
    /// The number of runs registered for each program size.
    pub runs: Seq<nat>,
}

/// The statistics before anything is registered.
pub open spec fn empty_stat<O, P>() -> StatView<O, P> {
    StatView {
        errors: 0,
        timeouts: 0,
        invalid_outputs: 0,
        counts: Map::empty(),
        witnesses: Map::empty(),
        runs: Seq::empty(),
    }
}

/// The histogram of sizes after one more run of a program of size `size`.
pub open spec fn bumped(runs: Seq<nat>, size: nat) -> Seq<nat> {
    Seq::new(
        if size < runs.len() {
            runs.len()
        } else {
            size + 1
        },
        |i: int|
            (if i < runs.len() {
                runs[i]
            } else {
                0
            }) + if i == size {
                1nat
            } else {
                0nat
            },
    )
}

/// Whether registering `result` adds an output that was not there before.
pub open spec fn is_new<C: CompSystem2>(
    v: StatView<C::Output, <C::Program as View>::V>,
    result: ProgResult<C::Output>,
) -> bool {
    match result {
        ProgResult::Out { output, steps } => C::meaningful(output) && !v.counts.contains_key(
            output,
        ),
        _ => false,
    }
}

/// The statistics after the run of `program`, of size `size`, that ended in
/// `result` is registered with the weight `weight`. An error or a timeout adds
/// to its counter, an output that does not count adds to the counter of
/// invalid outputs, and an output that counts adds to its own count; the first
/// program registered with an output stays its witness.
pub open spec fn registered<C: CompSystem2>(
    v: StatView<C::Output, <C::Program as View>::V>,
    program: <C::Program as View>::V,
    size: nat,
    result: ProgResult<C::Output>,
    weight: nat,
) -> StatView<C::Output, <C::Program as View>::V> {
    let v = StatView { runs: bumped(v.runs, size), ..v };
    match result {
        ProgResult::Error => StatView { errors: v.errors + weight, ..v },
        ProgResult::Timeout => StatView { timeouts: v.timeouts + weight, ..v },
        ProgResult::Out { output, steps } => if !C::meaningful(output) {
            StatView { invalid_outputs: v.invalid_outputs + weight, ..v }
        } else if v.counts.contains_key(output) {
            StatView { counts: v.counts.insert(output, v.counts[output] + weight), ..v }
        } else {
            StatView {
                counts: v.counts.insert(output, weight),
                witnesses: v.witnesses.insert(output, program),
                ..v
            }
        },
    }
}

/// Whether the counters have room for one more registration.
pub open spec fn can_register<C: CompSystem2>(
    v: StatView<C::Output, <C::Program as View>::V>,
    size: nat,
    result: ProgResult<C::Output>,
    weight: nat,
) -> bool {
    &&& size < usize::MAX
    &&& size < v.runs.len() ==> v.runs[size as int] < usize::MAX
    &&& match result {
        ProgResult::Error => v.errors + weight <= usize::MAX,
        ProgResult::Timeout => v.timeouts + weight <= usize::MAX,
        ProgResult::Out { output, steps } => if !C::meaningful(output) {
            v.invalid_outputs + weight <= usize::MAX
        } else {
            v.counts.contains_key(output) ==> v.counts[output] + weight <= usize::MAX
        },
    }
}

/// Whether a row shows the output and the count of an entry of the map.
pub open spec fn is_row<C: CompSystem2>(
    row: (C::Output, usize),
    item: (&C::Output, &OutputStat<C>),
) -> bool {
    *item.0 == row.0 && item.1.count == row.1
}

/// Whether a row shows one of the first `upto` entries.
pub open spec fn row_is_from<C: CompSystem2>(
    row: (C::Output, usize),
    items: Seq<(&C::Output, &OutputStat<C>)>,
    upto: int,
) -> bool {
    exists|j: int| 0 <= j < upto && #[trigger] is_row::<C>(row, items[j])
}

/// Whether one of the rows is for the output `o`.
pub open spec fn has_row<C: CompSystem2>(rows: Seq<(C::Output, usize)>, o: C::Output) -> bool {
    exists|a: int| 0 <= a < rows.len() && (#[trigger] rows[a]).0 == o
}

/// The sum of the counts of the rows.
pub open spec fn sum_of_counts<O>(rows: Seq<(O, usize)>) -> nat
    decreases rows.len(),
{
    if rows.len() == 0 {
        0
    } else {
        sum_of_counts(rows.drop_last()) + rows.last().1 as nat
    }
}

/// The sum of the counts of the first rows is no more than that of all the rows.
pub proof fn lemma_sum_of_counts_grows<O>(rows: Seq<(O, usize)>, k: int)
    requires
        0 <= k <= rows.len(),
    ensures
        sum_of_counts(rows.take(k)) <= sum_of_counts(rows),
    decreases rows.len(),
{
    if k == rows.len() {
        assert(rows.take(k) =~= rows);
    } else {
        lemma_sum_of_counts_grows(rows.drop_last(), k);
        assert(rows.drop_last().take(k) =~= rows.take(k));
    }
}

/// The sum of the counts of the rows, or `None` where it is more than a
/// `usize` holds.
pub fn total_of<O>(rows: &Vec<(O, usize)>) -> (total: Option<usize>)
    ensures
        total == (if sum_of_counts(rows@) <= usize::MAX {
            Some(sum_of_counts(rows@) as usize)
        } else {
            None
        }),
{
    let mut total: usize = 0;
    let mut i: usize = 0;
    assert(rows@.take(0) =~= Seq::empty());
    while i < rows.len()
        invariant
            i <= rows@.len(),
            total == sum_of_counts(rows@.take(i as int)),
        decreases rows@.len() - i,
    {
        proof {
            assert(rows@.take(i + 1).drop_last() =~= rows@.take(i as int));
            assert(rows@.take(i + 1).last() == rows@[i as int]);
        }
        total = match total.checked_add(rows[i].1) {
            Some(sum) => sum,
            None => {
                proof {
                    lemma_sum_of_counts_grows(rows@, i + 1);
                }
                return None;
            },
        };
        i += 1;
    }
    assert(rows@.take(i as int) =~= rows@);
    Some(total)
}

impl<C: CompSystem2> View for Stat<C> {
    type V = StatView<C::Output, <C::Program as View>::V>;

    closed spec fn view(&self) -> Self::V {
        StatView {
            errors: self.error as nat,
            timeouts: self.timeout as nat,
            invalid_outputs: self.invalid_output as nat,
            counts: Map::new(
                |o: C::Output| self.outputs@.contains_key(o),
                |o: C::Output| self.outputs@[o].count as nat,
            ),
            witnesses: Map::new(
                |o: C::Output| self.outputs@.contains_key(o),
                |o: C::Output| self.outputs@[o].min_program@,
            ),
            runs: Seq::new(self.runs@.len(), |i: int| self.runs@[i] as nat),
        }
    }
}

impl<C: CompSystem2> Stat<C> {
    /// Statistics that hold nothing yet.
    pub fn new() -> (s: Self)
        ensures
            s@ == empty_stat::<C::Output, <C::Program as View>::V>(),
    {
        let s = Stat {
            error: 0,
            timeout: 0,
            invalid_output: 0,
            outputs: HashMap::new(),
            runs: Vec::new(),
        };
        assert(s@ =~= empty_stat::<C::Output, <C::Program as View>::V>());
        s
    }

    /// Registers the run of `program` that ended in `result`, with the weight
    /// `weight`, and says whether its output is one that was not there before.
    pub fn register(
        &mut self,
        program: &C::Program,
        result: &ProgResult<C::Output>,
        weight: usize,
    ) -> (new: bool)
        requires
            can_register::<C>(old(self)@, program.spec_size(), *result, weight as nat),
        ensures
            final(self)@ == registered::<C>(
                old(self)@,
                program@,
                program.spec_size(),
                *result,
                weight as nat,
            ),
            new == is_new::<C>(old(self)@, *result),
    {
        broadcast use vstd::std_specs::hash::group_hash_axioms;

        proof {
            C::output_is_key();
        }
        let size = program.size();
        while size >= self.runs.len()
            invariant
                size < usize::MAX,
                self.error == old(self).error,
                self.timeout == old(self).timeout,
                self.invalid_output == old(self).invalid_output,
                self.outputs == old(self).outputs,
                old(self).runs@.len() <= self.runs@.len(),
                self.runs@.len() <= size + 1 || self.runs@.len() == old(self).runs@.len(),
                forall|i: int| 0 <= i < old(self).runs@.len() ==> self.runs@[i] == old(self).runs@[i],
                forall|i: int| old(self).runs@.len() <= i < self.runs@.len() ==> self.runs@[i] == 0,
            decreases size + 1 - self.runs@.len(),
        {
            self.runs.push(0);
        }
        let runs_of_size = self.runs[size];
        self.runs.set(size, runs_of_size + 1);
        let mut new = false;
        match result {
            ProgResult::Error => {
                self.error += weight;
            },
            ProgResult::Timeout => {
                self.timeout += weight;
            },
            ProgResult::Out { output, steps: _ } => {
                if C::valid_output(output) {
                    let output: C::Output = *output;
                    match self.outputs.entry(output) {
                        Entry::Occupied(mut occupied) => {
                            let entry = occupied.get_mut();
                            entry.count += weight;
                        },
                        Entry::Vacant(vacant) => {
                            new = true;
                            let min_program = program.clone();
                            proof {
                                C::clone_is_same(*program, min_program);
                            }
                            vacant.insert(OutputStat { min_program, count: weight });
                        },
                    }
                } else {
                    self.invalid_output += weight;
                }
            },
        }
        assert(self@ =~= registered::<C>(
            old(self)@,
            program@,
            program.spec_size(),
            *result,
            weight as nat,
        ));
        new
    }

    /// Whether the counters have room for registering this run, so that
    /// `register` may be called.
    pub fn has_room(
        &self,
        program: &C::Program,
        result: &ProgResult<C::Output>,
        weight: usize,
    ) -> (b: bool)
        ensures
            b == can_register::<C>(self@, program.spec_size(), *result, weight as nat),
    {
        broadcast use vstd::std_specs::hash::group_hash_axioms;

        proof {
            C::output_is_key();
        }
        let size = program.size();
        if size == usize::MAX {
            return false;
        }
        if size < self.runs.len() && self.runs[size] == usize::MAX {
            return false;
        }
        match result {
            ProgResult::Error => weight <= usize::MAX - self.error,
            ProgResult::Timeout => weight <= usize::MAX - self.timeout,
            ProgResult::Out { output, steps: _ } => {
                if C::valid_output(output) {
                    match self.outputs.get(output) {
                        Some(entry) => weight <= usize::MAX - entry.count,
                        None => true,
                    }
                } else {
                    weight <= usize::MAX - self.invalid_output
                }
            },
        }
    }

    /// The sum of the weights of the runs that ended in an error.
    pub fn error_count(&self) -> (n: usize)
        ensures
            n == self@.errors,
    {
        self.error
    }

    /// The sum of the weights of the runs that ran out of steps.
    pub fn timeout_count(&self) -> (n: usize)
        ensures
            n == self@.timeouts,
    {
        self.timeout
    }

    /// The sum of the weights of the runs whose output is not one that counts.
    pub fn invalid_output_count(&self) -> (n: usize)
        ensures
            n == self@.invalid_outputs,
    {
        self.invalid_output
    }

    /// The witness that is kept for an output, or `None` for an output that
    /// has not been registered.
    pub fn witness(&self, output: &C::Output) -> (w: Option<&C::Program>)
        ensures
            match w {
                Some(program) => self@.witnesses.contains_key(*output) && program@
                    == self@.witnesses[*output],
                None => !self@.witnesses.contains_key(*output),
            },
    {
        broadcast use vstd::std_specs::hash::group_hash_axioms;

        proof {
            C::output_is_key();
        }
        match self.outputs.get(output) {
            Some(entry) => Some(&entry.min_program),
            None => None,
        }
    }

    /// The count that is kept for an output, or `None` for an output that has
    /// not been registered.
    pub fn count(&self, output: &C::Output) -> (n: Option<usize>)
        ensures
            match n {
                Some(count) => self@.counts.contains_key(*output) && count
                    == self@.counts[*output],
                None => !self@.counts.contains_key(*output),
            },
    {
        broadcast use vstd::std_specs::hash::group_hash_axioms;

        proof {
            C::output_is_key();
        }
        match self.outputs.get(output) {
            Some(entry) => Some(entry.count),
            None => None,
        }
    }

    /// The number of runs registered for each program size.
    pub fn runs(&self) -> (runs: &Vec<usize>)
        ensures
            runs@.len() == self@.runs.len(),
            forall|i: int| 0 <= i < runs@.len() ==> runs@[i] == self@.runs[i],
    {
        &self.runs
    }

    /// The outputs with their counts, in the ascending order of the outputs.
    pub fn rows(&self) -> (rows: Vec<(C::Output, usize)>)
        ensures
            forall|a: int, b: int|
                0 <= a < b < rows@.len() ==> C::rank(rows@[a].0) < C::rank(rows@[b].0),
            forall|a: int|
                0 <= a < rows@.len() ==> self@.counts.contains_key((#[trigger] rows@[a]).0)
                    && self@.counts[rows@[a].0] == rows@[a].1,
            forall|o: C::Output| #[trigger]
                self@.counts.contains_key(o) ==> has_row::<C>(rows@, o),
    {
        broadcast use vstd::std_specs::hash::group_hash_axioms;

        proof {
            C::output_is_key();
        }
        let mut rows: Vec<(C::Output, usize)> = Vec::new();
        for pair in it: self.outputs.iter()
            invariant
                obeys_key_model::<C::Output>(),
                it.seq() == spec_hash_map_iter(&self.outputs).remaining(),
                it.seq().no_duplicates(),
                forall|a: int, b: int|
                    0 <= a < b < rows@.len() ==> C::rank(rows@[a].0) < C::rank(rows@[b].0),
                forall|a: int|
                    0 <= a < rows@.len() ==> #[trigger] row_is_from::<C>(
                        rows@[a],
                        it.seq(),
                        it.index(),
                    ),
                forall|j: int|
                    0 <= j < it.index() ==> has_row::<C>(rows@, *(#[trigger] it.seq()[j]).0),
        {
            let (out, entry) = pair;
            let ghost seq = it.seq();
            let ghost index = it.index();
            let ghost before = rows@;
            let mut p: usize = 0;
            while p < rows.len() && C::output_before(&rows[p].0, out)
                invariant
                    p <= rows@.len(),
                    forall|a: int| 0 <= a < p ==> C::rank(rows@[a].0) < C::rank(*out),
                decreases rows@.len() - p,
            {
                p += 1;
            }
            proof {
                if p < before.len() && C::rank(before[p as int].0) == C::rank(*out) {
                    C::rank_tells_apart(before[p as int].0, *out);
                    assert(row_is_from::<C>(before[p as int], seq, index));
                    let j = choose|j: int|
                        0 <= j < index && #[trigger] is_row::<C>(before[p as int], seq[j]);
                    assert(self.outputs@[*seq[j].0] == *seq[j].1);
                    assert(self.outputs@[*seq[index].0] == *seq[index].1);
                    assert(seq[j] == seq[index]);
                }
            }
            rows.insert(p, (*out, entry.count));
            proof {
                assert forall|a: int| 0 <= a < rows@.len() implies #[trigger] row_is_from::<C>(
                    rows@[a],
                    seq,
                    index + 1,
                ) by {
                    if a == p {
                        assert(is_row::<C>(rows@[a], seq[index]));
                    } else {
                        let old_a = if a < p {
                            a
                        } else {
                            a - 1
                        };
                        assert(rows@[a] == before[old_a]);
                        assert(row_is_from::<C>(before[old_a], seq, index));
                        let j = choose|j: int|
                            0 <= j < index && #[trigger] is_row::<C>(before[old_a], seq[j]);
                        assert(is_row::<C>(rows@[a], seq[j]));
                    }
                }
                assert forall|j: int| 0 <= j < index + 1 implies has_row::<C>(
                    rows@,
                    *(#[trigger] seq[j]).0,
                ) by {
                    if j == index {
                        assert(rows@[p as int].0 == *seq[j].0);
                    } else {
                        assert(has_row::<C>(before, *seq[j].0));
                        let old_a = choose|a: int|
                            0 <= a < before.len() && (#[trigger] before[a]).0 == *seq[j].0;
                        let a = if old_a < p {
                            old_a
                        } else {
                            old_a + 1
                        };
                        assert(rows@[a].0 == *seq[j].0);
                    }
                }
            }
        }
        proof {
            let all = spec_hash_map_iter(&self.outputs).remaining();
            assert forall|a: int| 0 <= a < rows@.len() implies self@.counts.contains_key(
                (#[trigger] rows@[a]).0,
            ) && self@.counts[rows@[a].0] == rows@[a].1 by {
                assert(row_is_from::<C>(rows@[a], all, all.len() as int));
                let j = choose|j: int|
                    0 <= j < all.len() && #[trigger] is_row::<C>(rows@[a], all[j]);
                assert(self.outputs@.contains_key(*all[j].0));
            }
            assert forall|o: C::Output| #[trigger] self@.counts.contains_key(o) implies has_row::<
                C,
            >(rows@, o) by {
                assert(all.contains((&o, &self.outputs@[o])));
                let j = choose|j: int| 0 <= j < all.len() && all[j] == (&o, &self.outputs@[o]);
                assert(*all[j].0 == o);
            }
        }
        rows
    }

    /// Whether every output of `self` has the same count in `other`.
    fn counts_within(&self, other: &Self) -> (b: bool)
        ensures
            b == (forall|o: C::Output| #[trigger]
                self@.counts.contains_key(o) ==> other@.counts.contains_key(o) && other@.counts[o]
                    == self@.counts[o]),
    {
        broadcast use vstd::std_specs::hash::group_hash_axioms;

        proof {
            C::output_is_key();
        }
        for pair in it: self.outputs.iter()
            invariant
                obeys_key_model::<C::Output>(),
                it.seq() == spec_hash_map_iter(&self.outputs).remaining(),
                forall|i: int|
                    0 <= i < it.index() ==> {
                        let o = *(#[trigger] it.seq()[i]).0;
                        other@.counts.contains_key(o) && other@.counts[o] == self@.counts[o]
                    },
        {
            let (out, count1) = pair;
            let ghost o = *out;
            assert(self@.counts.contains_key(o) && self@.counts[o] == count1.count);
            match other.outputs.get(out) {
                Some(count2) => {
                    if count2.count != count1.count {
                        return false;
                    }
                },
                None => {
                    return false;
                },
            }
        }
        proof {
            let all = spec_hash_map_iter(&self.outputs).remaining();
            assert forall|o: C::Output| #[trigger]
                self@.counts.contains_key(o) implies other@.counts.contains_key(o)
                && other@.counts[o] == self@.counts[o] by {
                assert(all.contains((&o, &self.outputs@[o])));
                let i = choose|i: int| 0 <= i < all.len() && all[i] == (&o, &self.outputs@[o]);
                assert(*all[i].0 == o);
            }
        }
        true
    }

    /// Whether `self` and `other` hold the same outputs with the same counts.
    pub fn matches_outputs(&self, other: &Self) -> (b: bool)
        ensures
            b == (self@.counts == other@.counts),
    {
        let b = self.counts_within(other) && other.counts_within(self);
        proof {
            if b {
                assert(self@.counts =~= other@.counts);
            }
        }
        b
    }
}

} // verus!
