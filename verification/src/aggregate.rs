//! What the aggregator holds after a sequence of runs, and what follows from
//! that: the witnesses are of least size, and the counts do not depend on the order.
use crate::def::{CompSystem2, ProgResult};
use crate::stat::{empty_stat, is_new, registered, StatView};
use vstd::prelude::*;

verus! {

/// One run as the aggregator sees it.
pub struct Observation<O, P> {
    /// The program that ran.
    pub program: P,
    /// Its size.
    pub size: nat,
    /// How the run ended.
    pub result: ProgResult<O>,
    /// The weight with which it is registered.
    pub weight: nat,
}

/// The statistics after the observations are registered in their order.
pub open spec fn aggregate<C: CompSystem2>(
    obs: Seq<Observation<C::Output, <C::Program as View>::V>>,
) -> StatView<C::Output, <C::Program as View>::V>
    decreases obs.len(),
{
    if obs.len() == 0 {
        empty_stat()
    } else {
        registered::<C>(
            aggregate::<C>(obs.drop_last()),
            obs.last().program,
            obs.last().size,
            obs.last().result,
            obs.last().weight,
        )
    }
}

/// Whether the observation ended with the output `o`, and `o` counts.
pub open spec fn yields<C: CompSystem2>(
    ob: Observation<C::Output, <C::Program as View>::V>,
    o: C::Output,
) -> bool {
    ob.result matches ProgResult::Out { output, steps } && output == o && C::meaningful(o)
}

/// The sum of the weights of the observations that yield `o`.
pub open spec fn weight_of<C: CompSystem2>(
    obs: Seq<Observation<C::Output, <C::Program as View>::V>>,
    o: C::Output,
) -> nat
    decreases obs.len(),
{
    if obs.len() == 0 {
        0
    } else {
        weight_of::<C>(obs.drop_last(), o) + if yields::<C>(obs.last(), o) {
            obs.last().weight
        } else {
            0
        }
    }
}

/// The position of the first observation that yields `o`, or -1 where none does.
pub open spec fn first_with<C: CompSystem2>(
    obs: Seq<Observation<C::Output, <C::Program as View>::V>>,
    o: C::Output,
) -> int
    decreases obs.len(),
{
    if obs.len() == 0 {
        -1
    } else if first_with::<C>(obs.drop_last(), o) >= 0 {
        first_with::<C>(obs.drop_last(), o)
    } else if yields::<C>(obs.last(), o) {
        obs.len() - 1
    } else {
        -1
    }
}

/// `first_with` finds an observation that yields `o`, none before it does,
/// and it finds one whenever there is one.
pub proof fn lemma_first_with<C: CompSystem2>(
    obs: Seq<Observation<C::Output, <C::Program as View>::V>>,
    o: C::Output,
)
    ensures
        -1 <= first_with::<C>(obs, o) < obs.len(),
        first_with::<C>(obs, o) >= 0 ==> yields::<C>(obs[first_with::<C>(obs, o)], o),
        forall|i: int| 0 <= i < obs.len() && yields::<C>(obs[i], o) ==> 0 <= first_with::<C>(obs, o) <= i,
    decreases obs.len(),
{
    if obs.len() > 0 {
        lemma_first_with::<C>(obs.drop_last(), o);
        assert forall|i: int| 0 <= i < obs.len() && yields::<C>(obs[i], o) implies 0
            <= first_with::<C>(obs, o) <= i by {
            if i < obs.len() - 1 {
                assert(obs.drop_last()[i] == obs[i]);
            }
        }
    }
}

/// What the statistics hold for an output after the observations are
/// registered: an output is there exactly if some observation yields it, its
/// count is the sum of the weights of those that do, and its witness is the
/// program of the first of them.
pub proof fn lemma_aggregate_output<C: CompSystem2>(
    obs: Seq<Observation<C::Output, <C::Program as View>::V>>,
    o: C::Output,
)
    ensures
        aggregate::<C>(obs).counts.contains_key(o) == (first_with::<C>(obs, o) >= 0),
        aggregate::<C>(obs).witnesses.contains_key(o) == (first_with::<C>(obs, o) >= 0),
        first_with::<C>(obs, o) >= 0 ==> {
            &&& aggregate::<C>(obs).counts[o] == weight_of::<C>(obs, o)
            &&& aggregate::<C>(obs).witnesses[o] == obs[first_with::<C>(obs, o)].program
        },
        first_with::<C>(obs, o) < 0 ==> weight_of::<C>(obs, o) == 0,
    decreases obs.len(),
{
    if obs.len() > 0 {
        lemma_aggregate_output::<C>(obs.drop_last(), o);
        lemma_first_with::<C>(obs.drop_last(), o);
        let f = first_with::<C>(obs.drop_last(), o);
        if f >= 0 {
            assert(obs.drop_last()[f] == obs[f]);
        }
    }
}

/// The witness of an output is a program of least size among those that
/// yield it, where the observations come in the order of their sizes: some
/// observation that yields `o` has the witness as its program, and it is no
/// larger than any observation that yields `o`.
pub proof fn lemma_witness_is_minimal<C: CompSystem2>(
    obs: Seq<Observation<C::Output, <C::Program as View>::V>>,
    o: C::Output,
    j: int,
)
    requires
        forall|a: int, b: int| 0 <= a <= b < obs.len() ==> obs[a].size <= obs[b].size,
        0 <= j < obs.len(),
        yields::<C>(obs[j], o),
    ensures
        aggregate::<C>(obs).witnesses.contains_key(o),
        exists|i: int|
            0 <= i <= j && yields::<C>(#[trigger] obs[i], o) && obs[i].program == aggregate::<C>(
                obs,
            ).witnesses[o] && obs[i].size <= obs[j].size,
{
    lemma_first_with::<C>(obs, o);
    lemma_aggregate_output::<C>(obs, o);
    let i = first_with::<C>(obs, o);
    assert(yields::<C>(obs[i], o) && obs[i].program == aggregate::<C>(obs).witnesses[o]);
}

/// Registering the same observation twice adds twice what registering it once
/// adds, and only the first registration can report a new output.
pub proof fn lemma_register_twice<C: CompSystem2>(
    v: StatView<C::Output, <C::Program as View>::V>,
    program: <C::Program as View>::V,
    size: nat,
    result: ProgResult<C::Output>,
    weight: nat,
)
    ensures
        ({
            let once = registered::<C>(v, program, size, result, weight);
            let twice = registered::<C>(once, program, size, result, weight);
            &&& !is_new::<C>(once, result)
            &&& twice.errors - v.errors == 2 * (once.errors - v.errors)
            &&& twice.timeouts - v.timeouts == 2 * (once.timeouts - v.timeouts)
            &&& twice.invalid_outputs - v.invalid_outputs == 2 * (once.invalid_outputs
                - v.invalid_outputs)
            &&& match result {
                ProgResult::Out { output, steps } => C::meaningful(output) ==> {
                    let before = if v.counts.contains_key(output) {
                        v.counts[output]
                    } else {
                        0
                    };
                    &&& is_new::<C>(v, result) == !v.counts.contains_key(output)
                    &&& once.counts.contains_key(output)
                    &&& twice.counts.contains_key(output)
                    &&& once.counts[output] == before + weight
                    &&& twice.counts[output] == before + 2 * weight
                    &&& twice.witnesses == once.witnesses
                },
                _ => true,
            }
        }),
{
}

/// Taking one observation out takes its weight out of the sum for the output
/// that it yields.
pub proof fn lemma_weight_of_remove<C: CompSystem2>(
    obs: Seq<Observation<C::Output, <C::Program as View>::V>>,
    i: int,
    o: C::Output,
)
    requires
        0 <= i < obs.len(),
    ensures
        weight_of::<C>(obs, o) == weight_of::<C>(obs.remove(i), o) + if yields::<C>(obs[i], o) {
            obs[i].weight
        } else {
            0
        },
    decreases obs.len(),
{
    if i == obs.len() - 1 {
        assert(obs.remove(i) =~= obs.drop_last());
    } else {
        lemma_weight_of_remove::<C>(obs.drop_last(), i, o);
        assert(obs.remove(i).drop_last() =~= obs.drop_last().remove(i));
        assert(obs.remove(i).last() == obs.last());
    }
}

/// The sum of the weights for an output does not depend on the order of the
/// observations.
pub proof fn lemma_weight_of_reordered<C: CompSystem2>(
    obs1: Seq<Observation<C::Output, <C::Program as View>::V>>,
    obs2: Seq<Observation<C::Output, <C::Program as View>::V>>,
    o: C::Output,
)
    requires
        obs1.to_multiset() == obs2.to_multiset(),
    ensures
        weight_of::<C>(obs1, o) == weight_of::<C>(obs2, o),
    decreases obs1.len(),
{
    obs1.to_multiset_ensures();
    obs2.to_multiset_ensures();
    if obs1.len() == 0 {
        assert(obs2.len() == 0);
    } else {
        let x = obs1.last();
        obs1.drop_last().to_multiset_ensures();
        assert(obs1 =~= obs1.drop_last().push(x));
        assert(obs1.to_multiset().count(x) > 0);
        assert(obs2.contains(x));
        let i = choose|i: int| 0 <= i < obs2.len() && obs2[i] == x;
        assert(obs1.drop_last().to_multiset() =~= obs2.remove(i).to_multiset());
        lemma_weight_of_reordered::<C>(obs1.drop_last(), obs2.remove(i), o);
        lemma_weight_of_remove::<C>(obs2, i, o);
    }
}

/// The counts of the outputs do not depend on the order in which the
/// observations are registered.
pub proof fn lemma_counts_of_reordered<C: CompSystem2>(
    obs1: Seq<Observation<C::Output, <C::Program as View>::V>>,
    obs2: Seq<Observation<C::Output, <C::Program as View>::V>>,
)
    requires
        obs1.to_multiset() == obs2.to_multiset(),
    ensures
        aggregate::<C>(obs1).counts == aggregate::<C>(obs2).counts,
{
    obs1.to_multiset_ensures();
    obs2.to_multiset_ensures();
    let c1 = aggregate::<C>(obs1).counts;
    let c2 = aggregate::<C>(obs2).counts;
    assert forall|o: C::Output|
        (#[trigger] c1.dom().contains(o)) == c2.dom().contains(o) && (c1.dom().contains(o)
            ==> c1[o] == c2[o]) by {
        lemma_aggregate_output::<C>(obs1, o);
        lemma_aggregate_output::<C>(obs2, o);
        lemma_first_with::<C>(obs1, o);
        lemma_first_with::<C>(obs2, o);
        lemma_weight_of_reordered::<C>(obs1, obs2, o);
        let f1 = first_with::<C>(obs1, o);
        let f2 = first_with::<C>(obs2, o);
        if f1 >= 0 {
            assert(obs1.contains(obs1[f1]));
            assert(obs1.to_multiset().count(obs1[f1]) > 0);
            assert(obs2.to_multiset().count(obs1[f1]) > 0);
            assert(obs2.contains(obs1[f1]));
        }
        if f2 >= 0 {
            assert(obs2.contains(obs2[f2]));
            assert(obs2.to_multiset().count(obs2[f2]) > 0);
            assert(obs1.to_multiset().count(obs2[f2]) > 0);
            assert(obs1.contains(obs2[f2]));
        }
    }
    assert(c1.dom() =~= c2.dom());
    assert(c1 =~= c2);
}

/// What the aggregator sees of the run of one enumerated program.
pub open spec fn observation<C: CompSystem2>(
    comp: C,
    entry: (<C::Program as View>::V, usize),
    max_steps: usize,
) -> Observation<C::Output, <C::Program as View>::V> {
    Observation {
        program: entry.0,
        size: C::size_of(entry.0),
        result: comp.outcome(entry.0, max_steps),
        weight: entry.1 as nat,
    }
}

/// What the aggregator sees of the runs of the enumerated programs.
pub open spec fn observations<C: CompSystem2>(
    comp: C,
    programs: Seq<(<C::Program as View>::V, usize)>,
    max_steps: usize,
) -> Seq<Observation<C::Output, <C::Program as View>::V>> {
    Seq::new(programs.len(), |i: int| observation(comp, programs[i], max_steps))
}

/// Two enumerations of the same programs, in whatever order, are observed as
/// the same runs.
pub proof fn lemma_observations_of_reordered<C: CompSystem2>(
    comp: C,
    programs1: Seq<(<C::Program as View>::V, usize)>,
    programs2: Seq<(<C::Program as View>::V, usize)>,
    max_steps: usize,
)
    requires
        programs1.to_multiset() == programs2.to_multiset(),
    ensures
        observations(comp, programs1, max_steps).to_multiset() == observations(
            comp,
            programs2,
            max_steps,
        ).to_multiset(),
    decreases programs1.len(),
{
    let obs1 = observations(comp, programs1, max_steps);
    let obs2 = observations(comp, programs2, max_steps);
    programs1.to_multiset_ensures();
    programs2.to_multiset_ensures();
    obs2.to_multiset_ensures();
    if programs1.len() == 0 {
        assert(programs2.len() == 0);
        assert(obs1 =~= obs2);
    } else {
        let x = programs1.last();
        programs1.drop_last().to_multiset_ensures();
        observations(comp, programs1.drop_last(), max_steps).to_multiset_ensures();
        assert(programs1 =~= programs1.drop_last().push(x));
        assert(programs1.to_multiset().count(x) > 0);
        assert(programs2.contains(x));
        let i = choose|i: int| 0 <= i < programs2.len() && programs2[i] == x;
        assert(programs1.drop_last().to_multiset() =~= programs2.remove(i).to_multiset());
        lemma_observations_of_reordered(comp, programs1.drop_last(), programs2.remove(i), max_steps);
        let y = observation(comp, x, max_steps);
        assert(obs1 =~= observations(comp, programs1.drop_last(), max_steps).push(y));
        assert(obs2.remove(i) =~= observations(comp, programs2.remove(i), max_steps));
        assert(obs2[i] == y);
        assert(obs2.to_multiset().count(y) > 0);
        assert(obs1.to_multiset() =~= obs2.to_multiset());
    }
}

/// Two enumerations of the same programs, in whatever order, lead to the same
/// counts of the outputs.
pub proof fn lemma_same_programs_same_counts<C: CompSystem2>(
    comp: C,
    programs1: Seq<(<C::Program as View>::V, usize)>,
    programs2: Seq<(<C::Program as View>::V, usize)>,
    max_steps: usize,
)
    requires
        programs1.to_multiset() == programs2.to_multiset(),
    ensures
        aggregate::<C>(observations(comp, programs1, max_steps)).counts == aggregate::<C>(
            observations(comp, programs2, max_steps),
        ).counts,
{
    lemma_observations_of_reordered(comp, programs1, programs2, max_steps);
    lemma_counts_of_reordered::<C>(
        observations(comp, programs1, max_steps),
        observations(comp, programs2, max_steps),
    );
}

} // verus!
