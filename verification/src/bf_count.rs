//! The counting tape machine: cells are flags, and the output of a run is the
//! number of times it executed the output instruction.
use crate::bounded::{code_items, code_slice};
use crate::brainfuck::{
    alphabet, compile, compiled, compiled_at, lemma_programs_from_members,
    lemma_programs_from_ordered, programs_from, BfNaiveGenerator, BfRawInstruction, BfSource,
    Instruction,
};
use crate::def::{CompSystem2, ProgResult};
use crate::exactly_once::lemma_members_written_in;
use crate::loops::{
    balanced, close_of, depth, lemma_balanced_has_close, lemma_find_open_bounds, open_of,
};
use arrayvec::ArrayVec;
use vstd::prelude::*;

verus! {

/// The state of the counting machine between two steps.
pub struct CountState {
    /// The cells that have been written, by position.
    pub cells: Map<int, bool>,
    /// The position of the tape pointer.
    pub pos: int,
    /// The position of the next instruction.
    pub ip: int,
    /// The number of outputs so far.
    pub output: int,
}

/// The flag in the cell at `pos`: unset until it is written.
pub open spec fn flag_at(cells: Map<int, bool>, pos: int) -> bool {
    cells.dom().contains(pos) && cells[pos]
}

/// The state in which every run starts.
pub open spec fn count_start() -> CountState {
    CountState { cells: Map::empty(), pos: 0, ip: 0, output: 0 }
}

/// The state after the instruction at `st.ip`, or `None` where the machine
/// defines no transition: a move to the left of the first cell, or an
/// instruction that this machine lacks.
pub open spec fn count_step(s: Seq<BfRawInstruction>, st: CountState) -> Option<CountState> {
    match s[st.ip] {
        BfRawInstruction::Plus => Some(
            CountState {
                cells: st.cells.insert(st.pos, !flag_at(st.cells, st.pos)),
                ip: st.ip + 1,
                ..st
            },
        ),
        BfRawInstruction::Print => Some(CountState { output: st.output + 1, ip: st.ip + 1, ..st }),
        BfRawInstruction::Left => if st.pos == 0 {
            None
        } else {
            Some(CountState { pos: st.pos - 1, ip: st.ip + 1, ..st })
        },
        BfRawInstruction::Right => Some(CountState { pos: st.pos + 1, ip: st.ip + 1, ..st }),
        BfRawInstruction::StartLoop => Some(
            CountState {
                ip: if flag_at(st.cells, st.pos) {
                    st.ip + 1
                } else {
                    close_of(s, st.ip) + 1
                },
                ..st
            },
        ),
        BfRawInstruction::EndLoop => Some(CountState { ip: open_of(s, st.ip), ..st }),
        BfRawInstruction::Minus => None,
    }
}

/// How a run ends that has reached `st` after `steps` steps: with the output
/// where the instruction pointer is past the end, with an error where the next
/// transition is not defined, with a timeout where `max_steps` steps are used up,
/// and else as the run from the next state ends.
pub open spec fn count_run(
    s: Seq<BfRawInstruction>,
    st: CountState,
    steps: nat,
    max_steps: nat,
) -> ProgResult<u64>
    decreases max_steps - steps,
{
    if st.ip >= s.len() {
        ProgResult::Out { output: st.output as u64, steps: steps as usize }
    } else if count_step(s, st) is None {
        ProgResult::Error
    } else if steps >= max_steps {
        ProgResult::Timeout
    } else {
        count_run(s, count_step(s, st).unwrap(), steps + 1, max_steps)
    }
}

/// A text that this machine runs: its loops are paired and it has no decrement.
pub open spec fn count_runnable(s: Seq<BfRawInstruction>) -> bool {
    &&& balanced(s)
    &&& forall|i: int| 0 <= i < s.len() ==> s[i] != BfRawInstruction::Minus
}

/// The counting tape machine.
#[derive(Debug)]
pub struct BfCount {}

impl BfCount {
    /// The machine; it has no settings.
    pub fn new() -> (c: Self) {
        BfCount {  }
    }

    /// Resolves the jumps of a text of this machine.
    pub fn compile(source: &BfSource) -> (program: ArrayVec<Instruction, 28>)
        requires
            count_runnable(source@),
        ensures
            code_items(program) == compiled(source@),
    {
        compile(source)
    }

    /// Lengthens the tape with unset cells until it has a cell at `pos`.
    pub fn maybe_extend_tape(tape: &mut Vec<bool>, pos: usize)
        requires
            pos < usize::MAX,
        ensures
            final(tape)@.len() == if pos < old(tape)@.len() {
                old(tape)@.len()
            } else {
                (pos + 1) as nat
            },
            forall|i: int| 0 <= i < old(tape)@.len() ==> final(tape)@[i] == old(tape)@[i],
            forall|i: int| old(tape)@.len() <= i < final(tape)@.len() ==> !final(tape)@[i],
    {
        while pos >= tape.len()
            invariant
                pos < usize::MAX,
                old(tape)@.len() <= tape@.len(),
                tape@.len() <= pos + 1 || tape@.len() == old(tape)@.len(),
                forall|i: int| 0 <= i < old(tape)@.len() ==> tape@[i] == old(tape)@[i],
                forall|i: int| old(tape)@.len() <= i < tape@.len() ==> !tape@[i],
            decreases pos + 1 - tape@.len(),
        {
            tape.push(false);
        }
    }
}

/// The tape holds the cells of the state: a cell that the tape does not reach is unset.
pub open spec fn holds_flags(tape: Seq<bool>, cells: Map<int, bool>) -> bool {
    forall|p: int| 0 <= p ==> #[trigger] flag_at(cells, p) == (p < tape.len() && tape[p])
}

impl CompSystem2 for BfCount {
    type Output = u64;

    type Program = BfSource;

    type Gen = BfNaiveGenerator;

    open spec fn admits_limit(&self, limit: usize) -> bool {
        BfNaiveGenerator::fits(6, limit)
    }

    open spec fn enumeration(&self, limit: usize) -> Seq<(Seq<BfRawInstruction>, usize)> {
        programs_from(alphabet(false, true), limit as nat, 1, 0)
    }

    open spec fn runnable(&self, program: Seq<BfRawInstruction>, max_steps: usize) -> bool {
        count_runnable(program)
    }

    open spec fn outcome(&self, program: Seq<BfRawInstruction>, max_steps: usize) -> ProgResult<
        u64,
    > {
        count_run(program, count_start(), 0, max_steps as nat)
    }

    open spec fn meaningful(output: u64) -> bool {
        output > 0
    }

    open spec fn size_of(program: Seq<BfRawInstruction>) -> nat {
        program.len()
    }

    proof fn size_is_size_of(program: BfSource) {
    }

    proof fn enumeration_is_ordered(&self, limit: usize, i: int, j: int) {
        lemma_programs_from_ordered(alphabet(false, true), limit as nat, 1, 0, i, j);
    }

    open spec fn rank(output: u64) -> int {
        output as int
    }

    proof fn rank_tells_apart(a: u64, b: u64) {
    }

    fn output_before(a: &u64, b: &u64) -> (before: bool) {
        *a < *b
    }

    proof fn output_is_key() {
        broadcast use vstd::std_specs::hash::group_hash_axioms;

    }

    proof fn clone_is_same(program: BfSource, copy: BfSource) {
        if program != copy {
            assert(call_ensures(<BfSource as Clone>::clone, (&program,), copy));
        }
    }

    fn admits(&self, limit: usize) -> (b: bool) {
        BfNaiveGenerator::admits(limit, false, true)
    }

    fn accepts(&self, source: &BfSource, max_steps: usize) -> (b: bool) {
        let b = source.is_balanced() && !source.has(BfRawInstruction::Minus);
        proof {
            if count_runnable(source@) {
                if source@.contains(BfRawInstruction::Minus) {
                    let i = choose|i: int|
                        0 <= i < source@.len() && source@[i] == BfRawInstruction::Minus;
                    assert(source@[i] != BfRawInstruction::Minus);
                }
            }
        }
        b
    }

    fn generate(&self, limit: usize) -> (g: BfNaiveGenerator) {
        BfNaiveGenerator::new(limit, false, true)
    }

    fn execute(&self, source: &BfSource, max_steps: usize) -> (r: ProgResult<u64>) {
        let compiled_program = Self::compile(source);
        let program = code_slice(&compiled_program);
        let ghost s = source@;

        let mut step: usize = 0;
        let mut tape: Vec<bool> = Vec::new();
        let mut pos: usize = 0;
        let mut output: u64 = 0;
        let mut ip: usize = 0;
        let ghost mut st = count_start();

        while ip < program.len()
            invariant
                s == source@,
                program@ == compiled(s),
                count_runnable(s),
                s.len() <= 28,
                step <= max_steps,
                st.pos == pos,
                st.ip == ip,
                st.output == output,
                pos <= step,
                output <= step,
                ip <= s.len(),
                holds_flags(tape@, st.cells),
                count_run(s, count_start(), 0, max_steps as nat) == count_run(
                    s,
                    st,
                    step as nat,
                    max_steps as nat,
                ),
            decreases max_steps - step,
        {
            let inst = program[ip];
            proof {
                assert(inst == compiled_at(s, ip as int));
                lemma_find_open_bounds(s, ip - 1, depth(s, ip + 1));
                if s[ip as int] == BfRawInstruction::StartLoop {
                    lemma_balanced_has_close(s, ip as int);
                }
            }
            if let Instruction::Left = inst {
                if pos == 0 {
                    return ProgResult::Error;
                }
            }
            if step >= max_steps {
                return ProgResult::Timeout;
            }
            let ghost next = count_step(s, st).unwrap();
            match inst {
                Instruction::Plus => {
                    let ghost before = tape@;
                    Self::maybe_extend_tape(&mut tape, pos);
                    let flag = tape[pos];
                    tape.set(pos, !flag);
                    ip += 1;
                    proof {
                        assert(flag == flag_at(st.cells, pos as int));
                        assert forall|p: int| 0 <= p implies #[trigger] flag_at(next.cells, p) == (p
                            < tape@.len() && tape@[p]) by {
                            if p != pos {
                                assert(flag_at(next.cells, p) == flag_at(st.cells, p));
                            }
                        }
                    }
                },
                Instruction::Print => {
                    output += 1;
                    ip += 1;
                },
                Instruction::Left => {
                    pos -= 1;
                    ip += 1;
                },
                Instruction::Right => {
                    pos += 1;
                    ip += 1;
                },
                Instruction::StartLoop(target) => {
                    Self::maybe_extend_tape(&mut tape, pos);
                    proof {
                        assert(tape@[pos as int] == flag_at(st.cells, pos as int));
                        assert forall|p: int| 0 <= p implies #[trigger] flag_at(next.cells, p) == (p
                            < tape@.len() && tape@[p]) by {
                            assert(flag_at(next.cells, p) == flag_at(st.cells, p));
                        }
                    }
                    if tape[pos] {
                        ip += 1
                    } else {
                        ip = target
                    }
                },
                Instruction::EndLoop(target) => {
                    ip = target;
                },
                Instruction::Minus => {
                    proof {
                        assert(false);
                    }
                },
            }
            proof {
                st = next;
                assert(holds_flags(tape@, st.cells));
            }
            step += 1;
        }
        ProgResult::Out { output, steps: step }
    }

    fn valid_output(output: &u64) -> (b: bool) {
        *output > 0
    }
}

/// A text whose first instruction moves the pointer to the left ends in an
/// error before any step, whatever the step budget.
pub proof fn lemma_left_at_start_is_error(s: Seq<BfRawInstruction>, max_steps: nat)
    requires
        s.len() > 0,
        s[0] == BfRawInstruction::Left,
    ensures
        count_run(s, count_start(), 0, max_steps) == ProgResult::<u64>::Error,
{
}

/// A text without loops and without moves to the left: every instruction flips
/// a cell, counts an output or moves to the right.
pub open spec fn straight(s: Seq<BfRawInstruction>) -> bool {
    forall|i: int|
        0 <= i < s.len() ==> s[i] == BfRawInstruction::Plus || s[i] == BfRawInstruction::Print
            || s[i] == BfRawInstruction::Right
}

/// The number of output instructions among those from `from` on.
pub open spec fn prints_from(s: Seq<BfRawInstruction>, from: int) -> int
    decreases s.len() - from,
{
    if from >= s.len() {
        0
    } else {
        prints_from(s, from + 1) + if s[from] == BfRawInstruction::Print {
            1int
        } else {
            0int
        }
    }
}

/// From any state of a text without loops and left moves, a budget that covers
/// the instructions still to come lets the run end with one step for each of
/// them and one output for each output instruction among them.
pub proof fn lemma_straight_run_from(
    s: Seq<BfRawInstruction>,
    st: CountState,
    steps: nat,
    max_steps: nat,
)
    requires
        straight(s),
        0 <= st.ip <= s.len(),
        steps + (s.len() - st.ip) <= max_steps,
    ensures
        count_run(s, st, steps, max_steps) == (ProgResult::Out {
            output: (st.output + prints_from(s, st.ip)) as u64,
            steps: (steps + s.len() - st.ip) as usize,
        }),
    decreases s.len() - st.ip,
{
    if st.ip < s.len() {
        lemma_straight_run_from(s, count_step(s, st).unwrap(), steps + 1, max_steps);
    }
}

/// A text of `n` instructions without loops and left moves runs in exactly `n`
/// steps, and does not time out on any budget of at least `n`.
pub proof fn lemma_straight_run(s: Seq<BfRawInstruction>, max_steps: nat)
    requires
        straight(s),
        s.len() <= max_steps,
    ensures
        count_run(s, count_start(), 0, max_steps) == (ProgResult::Out {
            output: prints_from(s, 0) as u64,
            steps: s.len() as usize,
        }),
{
    lemma_straight_run_from(s, count_start(), 0, max_steps);
}

/// The machine can run every text of its enumeration.
pub proof fn lemma_enumerated_is_runnable(limit: usize, i: int)
    requires
        0 <= i < programs_from(alphabet(false, true), limit as nat, 1, 0).len(),
    ensures
        count_runnable(programs_from(alphabet(false, true), limit as nat, 1, 0)[i].0),
{
    let a = alphabet(false, true);
    let x = programs_from(a, limit as nat, 1, 0)[i].0;
    lemma_programs_from_members(a, limit as nat, 1, 0, i);
    lemma_members_written_in(a, limit as nat, 1, 0, i);
    assert forall|j: int| 0 <= j < x.len() implies x[j] != BfRawInstruction::Minus by {
        assert(a.contains(x[j]));
    }
}

} // verus!
