//! The shapes that the enumerators, the interpreters and the aggregator share.
use std::hash::Hash;
use vstd::pervasive::cloned;
use vstd::prelude::*;
use vstd::std_specs::hash::obeys_key_model;

verus! {

/// How one bounded run of a program ended.
#[derive(Debug)]
pub enum ProgResult<Output> {
    /// The program halted after `steps` steps with this output.
    Out { output: Output, steps: usize },
    /// The machine met a transition that it does not define.
    Error,
    /// The step budget ran out before the program halted.
    Timeout,
}

/// A generator without an end: it holds the current program and every call
/// moves on to the next one.
pub trait ProgGenerator<Program> {
    /// Moves on to the next program and hands out a reference to it.
    fn next<'a>(&'a mut self) -> &'a Program;
}

/// A measure of a program by which enumerations are ordered.
pub trait Sized {
    /// The size of the program.
    spec fn spec_size(&self) -> nat;

    /// The size of the program.
    fn size(&self) -> (n: usize)
        ensures
            n == self.spec_size(),
    ;
}

/// A finite, lazily produced sequence of programs, each with its weight.
pub trait Generator<Program: View> {
    /// The invariant that the constructor sets up and `next` keeps.
    spec fn wf(&self) -> bool;

    /// The programs that are still to come, in the order in which they come.
    spec fn remaining(&self) -> Seq<(Program::V, usize)>;

    /// Hands out the first of the remaining programs, or `None` once none is left.
    fn next(&mut self) -> (r: Option<(Program, usize)>)
        requires
            old(self).wf(),
        ensures
            final(self).wf(),
            match r {
                Some((program, weight)) => {
                    &&& old(self).remaining().len() > 0
                    &&& (program@, weight) == old(self).remaining()[0]
                    &&& final(self).remaining() == old(self).remaining().skip(1)
                },
                None => {
                    &&& old(self).remaining().len() == 0
                    &&& final(self).remaining().len() == 0
                },
            },
    ;
}

/// A computing model whose enumeration has no bound. The programs that result
/// in an error, or give the same output as shorter programs, can be skipped.
pub trait CompSystem {
    type Output;

    type Program;

    type Gen: ProgGenerator<Self::Program>;

    /// Generate the valid programs.
    fn generate(&self) -> Self::Gen;

    /// Run `program` for at most `max_steps` steps.
    fn execute(&self, program: &Self::Program, max_steps: usize) -> ProgResult<Self::Output>;
}

/// A computing model: it enumerates its programs, runs one within a step budget
/// and says which outputs count.
pub trait CompSystem2 {
    type Output: Copy + Eq + Hash;

    type Program: View + Clone + Sized;

    type Gen: Generator<Self::Program>;

    /// Whether programs up to the size `limit` can be enumerated on this machine.
    spec fn admits_limit(&self, limit: usize) -> bool;

    /// The programs up to the size `limit`, in the order in which they are generated.
    spec fn enumeration(&self, limit: usize) -> Seq<(<Self::Program as View>::V, usize)>;

    /// Whether `program` is one that this model can run for up to `max_steps` steps.
    spec fn runnable(&self, program: <Self::Program as View>::V, max_steps: usize) -> bool;

    /// How the run of `program` ends within `max_steps` steps.
    spec fn outcome(&self, program: <Self::Program as View>::V, max_steps: usize) -> ProgResult<
        Self::Output,
    >;

    /// Whether an output is one that the search records.
    spec fn meaningful(output: Self::Output) -> bool;

    /// The place of an output in the order of the outputs.
    spec fn rank(output: Self::Output) -> int;

    /// Outputs at the same place are the same output.
    proof fn rank_tells_apart(a: Self::Output, b: Self::Output)
        requires
            Self::rank(a) == Self::rank(b),
        ensures
            a == b,
    ;

    /// Whether `a` comes before `b` in the order of the outputs.
    fn output_before(a: &Self::Output, b: &Self::Output) -> (before: bool)
        ensures
            before == (Self::rank(*a) < Self::rank(*b)),
    ;

    /// The size of a program.
    spec fn size_of(program: <Self::Program as View>::V) -> nat;

    /// The size that a program reports is the size of what it holds.
    proof fn size_is_size_of(program: Self::Program)
        ensures
            program.spec_size() == Self::size_of(program@),
    ;

    /// The enumeration is in the order of the sizes.
    proof fn enumeration_is_ordered(&self, limit: usize, i: int, j: int)
        requires
            0 <= i <= j < self.enumeration(limit).len(),
        ensures
            Self::size_of(self.enumeration(limit)[i].0) <= Self::size_of(
                self.enumeration(limit)[j].0,
            ),
    ;

    /// Outputs are keys that a hash map tells apart by their values.
    proof fn output_is_key()
        ensures
            obeys_key_model::<Self::Output>(),
    ;

    /// A copy of a program is the same program.
    proof fn clone_is_same(program: Self::Program, copy: Self::Program)
        requires
            cloned(program, copy),
        ensures
            copy@ == program@,
    ;

    /// Whether programs up to the size `limit` can be enumerated on this machine.
    fn admits(&self, limit: usize) -> (b: bool)
        ensures
            b == self.admits_limit(limit),
    ;

    /// Whether `program` is one that this model can run for up to `max_steps` steps.
    fn accepts(&self, program: &Self::Program, max_steps: usize) -> (b: bool)
        ensures
            b == self.runnable(program@, max_steps),
    ;

    /// Generate the programs up to the size `limit`.
    fn generate(&self, limit: usize) -> (g: Self::Gen)
        requires
            self.admits_limit(limit),
        ensures
            g.wf(),
            g.remaining() == self.enumeration(limit),
    ;

    /// Run `program` for at most `max_steps` steps.
    fn execute(&self, program: &Self::Program, max_steps: usize) -> (r: ProgResult<Self::Output>)
        requires
            self.runnable(program@, max_steps),
        ensures
            r == self.outcome(program@, max_steps),
    ;

    /// Whether an output is one that the search records.
    fn valid_output(o: &Self::Output) -> (b: bool)
        ensures
            b == Self::meaningful(*o),
    ;
}

} // verus!
