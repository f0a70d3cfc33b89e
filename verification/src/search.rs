//! The search: every program of a model up to a size is run within a step
//! budget and registered.
use crate::aggregate::{
    aggregate, lemma_witness_is_minimal, observation, observations, yields, Observation,
};
use crate::def::{CompSystem2, Generator, ProgResult};
use crate::stat::{can_register, is_new, registered, Stat, StatView};
use vstd::prelude::*;

verus! {

/// Whether the model can run each of the programs for `max_steps` steps.
pub open spec fn all_runnable<C: CompSystem2>(
    comp: C,
    programs: Seq<(<C::Program as View>::V, usize)>,
    max_steps: usize,
) -> bool {
    forall|i: int| 0 <= i < programs.len() ==> comp.runnable((#[trigger] programs[i]).0, max_steps)
}

/// Whether the observations can be registered one after the other without a
/// counter running over.
pub open spec fn registrable<C: CompSystem2>(
    obs: Seq<Observation<C::Output, <C::Program as View>::V>>,
) -> bool
    decreases obs.len(),
{
    obs.len() == 0 || (registrable::<C>(obs.drop_last()) && can_register::<C>(
        aggregate::<C>(obs.drop_last()),
        obs.last().size,
        obs.last().result,
        obs.last().weight,
    ))
}

/// Whether the programs can be run and registered one after the other: the
/// model can run each of them, and the counters hold what is registered.
pub open spec fn can_be_searched<C: CompSystem2>(
    comp: C,
    programs: Seq<(<C::Program as View>::V, usize)>,
    max_steps: usize,
) -> bool {
    &&& all_runnable(comp, programs, max_steps)
    &&& registrable::<C>(observations(comp, programs, max_steps))
}

/// Whether the search up to `max_size` with the budget `max_steps` can be
/// carried out: the programs can be enumerated, run and registered.
pub open spec fn searchable<C: CompSystem2>(comp: C, max_size: usize, max_steps: usize) -> bool {
    &&& comp.admits_limit(max_size)
    &&& can_be_searched(comp, comp.enumeration(max_size), max_steps)
}

/// Observations that can be registered in turn can be registered up to any point.
pub proof fn lemma_registrable_prefix<C: CompSystem2>(
    obs: Seq<Observation<C::Output, <C::Program as View>::V>>,
    k: int,
)
    requires
        registrable::<C>(obs),
        0 <= k <= obs.len(),
    ensures
        registrable::<C>(obs.take(k)),
    decreases obs.len(),
{
    if k == obs.len() {
        assert(obs.take(k) =~= obs);
    } else {
        lemma_registrable_prefix::<C>(obs.drop_last(), k);
        assert(obs.drop_last().take(k) =~= obs.take(k));
    }
}

/// Runs every program that the generator still holds for at most `max_steps`
/// steps and registers the outcomes in the order in which they come. Returns
/// `None` where the model cannot run one of them or a counter is full.
pub fn search_from<C: CompSystem2, G: Generator<C::Program>>(
    comp: &C,
    generator: G,
    max_steps: usize,
) -> (r: Option<Stat<C>>)
    requires
        generator.wf(),
    ensures
        r is Some == can_be_searched(*comp, generator.remaining(), max_steps),
        r matches Some(stat) ==> stat@ == aggregate::<C>(
            observations(*comp, generator.remaining(), max_steps),
        ),
{
    let ghost all = generator.remaining();
    let mut rest = generator;
    let mut stat: Stat<C> = Stat::new();
    let ghost seen = observations(*comp, all, max_steps);
    let ghost mut done: int = 0;
    assert(seen.take(0) =~= Seq::empty());
    assert(all.skip(0) =~= all);
    loop
        invariant
            all == generator.remaining(),
            seen == observations(*comp, all, max_steps),
            rest.wf(),
            0 <= done <= all.len(),
            rest.remaining() == all.skip(done),
            stat@ == aggregate::<C>(seen.take(done)),
            registrable::<C>(seen.take(done)),
            forall|i: int| 0 <= i < done ==> comp.runnable((#[trigger] all[i]).0, max_steps),
        decreases rest.remaining().len(),
    {
        match rest.next() {
            None => {
                assert(seen.take(done) =~= seen);
                return Some(stat);
            },
            Some((program, weight)) => {
                assert(all.skip(done)[0] == all[done]);
                assert(all.skip(done).skip(1) =~= all.skip(done + 1));
                if !comp.accepts(&program, max_steps) {
                    return None;
                }
                let result = comp.execute(&program, max_steps);
                proof {
                    C::size_is_size_of(program);
                    assert(seen.take(done + 1).drop_last() =~= seen.take(done));
                    assert(seen.take(done + 1).last() == observation(*comp, all[done], max_steps));
                }
                if !stat.has_room(&program, &result, weight) {
                    proof {
                        if registrable::<C>(seen) {
                            lemma_registrable_prefix::<C>(seen, done + 1);
                        }
                    }
                    return None;
                }
                stat.register(&program, &result, weight);
                proof {
                    done = done + 1;
                }
            },
        }
    }
}

/// Runs every program of the model up to the size `max_size` for at most
/// `max_steps` steps and registers the outcomes in the order of the
/// enumeration. Returns `None` where the search cannot be carried out.
pub fn search<C: CompSystem2>(comp: &C, max_size: usize, max_steps: usize) -> (r: Option<Stat<C>>)
    ensures
        r is Some == searchable(*comp, max_size, max_steps),
        r matches Some(stat) ==> stat@ == aggregate::<C>(
            observations(*comp, comp.enumeration(max_size), max_steps),
        ),
{
    if !comp.admits(max_size) {
        return None;
    }
    search_from(comp, comp.generate(max_size), max_steps)
}

/// The witness that a search keeps for an output is of least size: it is one
/// of the enumerated programs that give the output, and no enumerated program
/// that gives the output is smaller.
pub proof fn lemma_search_witness_is_minimal<C: CompSystem2>(
    comp: C,
    max_size: usize,
    max_steps: usize,
    o: C::Output,
    j: int,
)
    requires
        0 <= j < comp.enumeration(max_size).len(),
        yields::<C>(observation(comp, comp.enumeration(max_size)[j], max_steps), o),
    ensures
        ({
            let all = comp.enumeration(max_size);
            let stat = aggregate::<C>(observations(comp, all, max_steps));
            &&& stat.witnesses.contains_key(o)
            &&& exists|i: int|
                0 <= i <= j && yields::<C>(observation(comp, #[trigger] all[i], max_steps), o)
                    && all[i].0 == stat.witnesses[o] && C::size_of(all[i].0) <= C::size_of(
                    all[j].0,
                )
        }),
{
    let all = comp.enumeration(max_size);
    let obs = observations(comp, all, max_steps);
    assert forall|a: int, b: int| 0 <= a <= b < obs.len() implies obs[a].size <= obs[b].size by {
        comp.enumeration_is_ordered(max_size, a, b);
    }
    lemma_witness_is_minimal::<C>(obs, o, j);
    let i = choose|i: int|
        0 <= i <= j && yields::<C>(#[trigger] obs[i], o) && obs[i].program == aggregate::<C>(
            obs,
        ).witnesses[o] && obs[i].size <= obs[j].size;
    assert(yields::<C>(observation(comp, all[i], max_steps), o));
}

/// The step budget for the next run where the longest run so far took
/// `max_steps` steps: four times as many steps, and 1000 at least.
pub open spec fn budget_after(max_steps: usize) -> int {
    if 4 * max_steps > 1000 {
        4 * max_steps
    } else {
        1000
    }
}

/// The step budget for the next run, or `None` where it is more than a
/// `usize` holds.
pub fn step_budget(max_steps: usize) -> (budget: Option<usize>)
    ensures
        budget == (if budget_after(max_steps) <= usize::MAX {
            Some(budget_after(max_steps) as usize)
        } else {
            None
        }),
{
    match max_steps.checked_mul(4) {
        Some(steps) => if steps > 1000 {
            Some(steps)
        } else {
            Some(1000)
        },
        None => None,
    }
}

/// How one round of a search with a growing step budget ended.
pub enum Round<C: CompSystem2> {
    /// No program was left.
    Done,
    /// The next program was taken from the generator, and could not be run
    /// and registered.
    Stuck,
    /// The next program was run and registered.
    Ran {
        /// The program.
        program: C::Program,
        /// How its run ended.
        result: ProgResult<C::Output>,
        /// Whether its output is one that was not there before.
        new_output: bool,
        /// Whether its run took more steps than any run before.
        longest: bool,
    },
}

/// Whether a run ended with an output after more than `max_steps` steps.
pub open spec fn is_longest<O>(result: ProgResult<O>, max_steps: usize) -> bool {
    match result {
        ProgResult::Out { output, steps } => steps > max_steps,
        _ => false,
    }
}

/// Whether the round with the program `entry` can be carried out: the step
/// budget can be held, the model can run the program for it, and the
/// counters have room for the outcome.
pub open spec fn round_can_run<C: CompSystem2>(
    comp: C,
    entry: (<C::Program as View>::V, usize),
    stat: StatView<C::Output, <C::Program as View>::V>,
    max_steps: usize,
) -> bool {
    &&& budget_after(max_steps) <= usize::MAX
    &&& comp.runnable(entry.0, budget_after(max_steps) as usize)
    &&& can_register::<C>(
        stat,
        C::size_of(entry.0),
        comp.outcome(entry.0, budget_after(max_steps) as usize),
        entry.1 as nat,
    )
}

/// One round of a search with a growing step budget: the next program of the
/// generator is run for four times the steps of the longest run so far, and
/// for 1000 steps at least, and its outcome is registered. `max_steps` is the
/// number of steps of the longest run so far.
pub fn round<C: CompSystem2, G: Generator<C::Program>>(
    comp: &C,
    generator: &mut G,
    stat: &mut Stat<C>,
    max_steps: &mut usize,
) -> (r: Round<C>)
    requires
        old(generator).wf(),
    ensures
        final(generator).wf(),
        match r {
            Round::Done => {
                &&& old(generator).remaining().len() == 0
                &&& final(generator).remaining().len() == 0
                &&& final(stat)@ == old(stat)@
                &&& *final(max_steps) == *old(max_steps)
            },
            Round::Stuck => {
                &&& old(generator).remaining().len() > 0
                &&& final(generator).remaining() == old(generator).remaining().skip(1)
                &&& !round_can_run(
                    *comp,
                    old(generator).remaining()[0],
                    old(stat)@,
                    *old(max_steps),
                )
                &&& final(stat)@ == old(stat)@
                &&& *final(max_steps) == *old(max_steps)
            },
            Round::Ran { program, result, new_output, longest } => {
                let entry = old(generator).remaining()[0];
                &&& old(generator).remaining().len() > 0
                &&& final(generator).remaining() == old(generator).remaining().skip(1)
                &&& round_can_run(*comp, entry, old(stat)@, *old(max_steps))
                &&& program@ == entry.0
                &&& result == comp.outcome(entry.0, budget_after(*old(max_steps)) as usize)
                &&& final(stat)@ == registered::<C>(
                    old(stat)@,
                    entry.0,
                    C::size_of(entry.0),
                    result,
                    entry.1 as nat,
                )
                &&& new_output == is_new::<C>(old(stat)@, result)
                &&& longest == is_longest(result, *old(max_steps))
                &&& *final(max_steps) == match result {
                    ProgResult::Out { output, steps } => if steps > *old(max_steps) {
                        steps
                    } else {
                        *old(max_steps)
                    },
                    _ => *old(max_steps),
                }
            },
        },
{
    let (program, weight) = match generator.next() {
        Some(entry) => entry,
        None => {
            return Round::Done;
        },
    };
    let budget = match step_budget(*max_steps) {
        Some(budget) => budget,
        None => {
            return Round::Stuck;
        },
    };
    if !comp.accepts(&program, budget) {
        return Round::Stuck;
    }
    let result = comp.execute(&program, budget);
    proof {
        C::size_is_size_of(program);
    }
    if !stat.has_room(&program, &result, weight) {
        return Round::Stuck;
    }
    let new_output = stat.register(&program, &result, weight);
    let mut longest = false;
    if let ProgResult::Out { output: _, steps } = result {
        if steps > *max_steps {
            *max_steps = steps;
            longest = true;
        }
    }
    Round::Ran { program, result, new_output, longest }
}

} // verus!
