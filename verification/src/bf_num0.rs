//! The numeric tape machine: cells are integers, and the output of a run is the
//! number that it leaves in the first cell.
use crate::bounded::{code_items, code_slice};
use crate::brainfuck::{
    alphabet, compile, compiled, compiled_at, lemma_programs_from_members,
    lemma_programs_from_ordered, programs_from, BfNaiveGenerator, BfRawInstruction, BfSource,
    Instruction,
};
use crate::def::{CompSystem2, ProgResult};
use crate::exactly_once::lemma_members_written_in;
use crate::loops::{
    balanced, close_of, depth, lemma_balanced_has_close, lemma_find_open_bounds, open_of,
};
use arrayvec::ArrayVec;
use vstd::prelude::*;

verus! {

/// The state of the numeric machine between two steps.
pub struct NumState {
    /// The cells that have been written, by position.
    pub cells: Map<int, int>,
    /// The position of the tape pointer.
    pub pos: int,
    /// The position of the next instruction.
    pub ip: int,
}

/// The number in the cell at `pos`: 0 until it is written.
pub open spec fn value_at(cells: Map<int, int>, pos: int) -> int {
    if cells.dom().contains(pos) {
        cells[pos]
    } else {
        0
    }
}

/// The state in which every run starts.
pub open spec fn num_start() -> NumState {
    NumState { cells: Map::empty(), pos: 0, ip: 0 }
}

/// The state after the instruction at `st.ip`, or `None` where the machine
/// defines no transition: a move to the left of the first cell, or an
/// instruction that this machine lacks.
pub open spec fn num_step(s: Seq<BfRawInstruction>, st: NumState) -> Option<NumState> {
    match s[st.ip] {
        BfRawInstruction::Plus => Some(
            NumState {
                cells: st.cells.insert(st.pos, value_at(st.cells, st.pos) + 1),
                ip: st.ip + 1,
                ..st
            },
        ),
        BfRawInstruction::Minus => Some(
            NumState {
                cells: st.cells.insert(st.pos, value_at(st.cells, st.pos) - 1),
                ip: st.ip + 1,
                ..st
            },
        ),
        BfRawInstruction::Left => if st.pos == 0 {
            None
        } else {
            Some(NumState { pos: st.pos - 1, ip: st.ip + 1, ..st })
        },
        BfRawInstruction::Right => Some(NumState { pos: st.pos + 1, ip: st.ip + 1, ..st }),
        BfRawInstruction::StartLoop => Some(
            NumState {
                ip: if value_at(st.cells, st.pos) != 0 {
                    st.ip + 1
                } else {
                    close_of(s, st.ip) + 1
                },
                ..st
            },
        ),
        BfRawInstruction::EndLoop => Some(NumState { ip: open_of(s, st.ip), ..st }),
        BfRawInstruction::Print => None,
    }
}

/// How a run ends that has reached `st` after `steps` steps. Where the
/// instruction pointer is past the end, the first cell decides: a positive
/// number is the output, anything else is an error. Else the run ends with an
/// error where the next transition is not defined, with a timeout where
/// `max_steps` steps are used up, and otherwise as the run from the next state ends.
pub open spec fn num_run(
    s: Seq<BfRawInstruction>,
    st: NumState,
    steps: nat,
    max_steps: nat,
) -> ProgResult<i64>
    decreases max_steps - steps,
{
    if st.ip >= s.len() {
        if value_at(st.cells, 0) > 0 {
            ProgResult::Out { output: value_at(st.cells, 0) as i64, steps: steps as usize }
        } else {
            ProgResult::Error
        }
    } else if num_step(s, st) is None {
        ProgResult::Error
    } else if steps >= max_steps {
        ProgResult::Timeout
    } else {
        num_run(s, num_step(s, st).unwrap(), steps + 1, max_steps)
    }
}

/// A text that this machine runs: its loops are paired and it has no output instruction.
pub open spec fn num_runnable(s: Seq<BfRawInstruction>) -> bool {
    &&& balanced(s)
    &&& forall|i: int| 0 <= i < s.len() ==> s[i] != BfRawInstruction::Print
}

/// The numeric tape machine.
#[derive(Debug)]
pub struct BfNum0 {}

impl BfNum0 {
    /// The machine; it has no settings.
    pub fn new() -> (c: Self) {
        BfNum0 {  }
    }

    /// Resolves the jumps of a text of this machine.
    pub fn compile(source: &BfSource) -> (program: ArrayVec<Instruction, 28>)
        requires
            num_runnable(source@),
        ensures
            code_items(program) == compiled(source@),
    {
        compile(source)
    }

    /// Lengthens the tape with cells that hold 0 until it has a cell at `pos`.
    pub fn maybe_extend_tape(tape: &mut Vec<i32>, pos: usize)
        requires
            pos < usize::MAX,
        ensures
            final(tape)@.len() == if pos < old(tape)@.len() {
                old(tape)@.len()
            } else {
                (pos + 1) as nat
            },
            forall|i: int| 0 <= i < old(tape)@.len() ==> final(tape)@[i] == old(tape)@[i],
            forall|i: int| old(tape)@.len() <= i < final(tape)@.len() ==> final(tape)@[i] == 0,
    {
        while pos >= tape.len()
            invariant
                pos < usize::MAX,
                old(tape)@.len() <= tape@.len(),
                tape@.len() <= pos + 1 || tape@.len() == old(tape)@.len(),
                forall|i: int| 0 <= i < old(tape)@.len() ==> tape@[i] == old(tape)@[i],
                forall|i: int| old(tape)@.len() <= i < tape@.len() ==> tape@[i] == 0,
            decreases pos + 1 - tape@.len(),
        {
            tape.push(0);
        }
    }
}

/// The tape holds the cells of the state: a cell that the tape does not reach holds 0.
pub open spec fn holds_values(tape: Seq<i32>, cells: Map<int, int>) -> bool {
    forall|p: int|
        0 <= p ==> #[trigger] value_at(cells, p) == (if p < tape.len() {
            tape[p] as int
        } else {
            0
        })
}

impl CompSystem2 for BfNum0 {
    type Output = i64;

    type Program = BfSource;

    type Gen = BfNaiveGenerator;

    open spec fn admits_limit(&self, limit: usize) -> bool {
        BfNaiveGenerator::fits(6, limit)
    }

    open spec fn enumeration(&self, limit: usize) -> Seq<(Seq<BfRawInstruction>, usize)> {
        programs_from(alphabet(true, false), limit as nat, 1, 0)
    }

    /// The cells are 32 bits wide and a step changes a cell by one, so the step
    /// budget must not exceed the greatest number that a cell can hold.
    open spec fn runnable(&self, program: Seq<BfRawInstruction>, max_steps: usize) -> bool {
        &&& num_runnable(program)
        &&& max_steps <= i32::MAX
    }

    open spec fn outcome(&self, program: Seq<BfRawInstruction>, max_steps: usize) -> ProgResult<
        i64,
    > {
        num_run(program, num_start(), 0, max_steps as nat)
    }

    open spec fn meaningful(output: i64) -> bool {
        output > 0
    }

    open spec fn size_of(program: Seq<BfRawInstruction>) -> nat {
        program.len()
    }

    proof fn size_is_size_of(program: BfSource) {
    }

    proof fn enumeration_is_ordered(&self, limit: usize, i: int, j: int) {
        lemma_programs_from_ordered(alphabet(true, false), limit as nat, 1, 0, i, j);
    }

    open spec fn rank(output: i64) -> int {
        output as int
    }

    proof fn rank_tells_apart(a: i64, b: i64) {
    }

    fn output_before(a: &i64, b: &i64) -> (before: bool) {
        *a < *b
    }

    proof fn output_is_key() {
        broadcast use vstd::std_specs::hash::group_hash_axioms;

    }

    proof fn clone_is_same(program: BfSource, copy: BfSource) {
        if program != copy {
            assert(call_ensures(<BfSource as Clone>::clone, (&program,), copy));
        }
    }

    fn valid_output(o: &i64) -> (b: bool) {
        *o > 0
    }

    fn admits(&self, limit: usize) -> (b: bool) {
        BfNaiveGenerator::admits(limit, true, false)
    }

    fn accepts(&self, source: &BfSource, max_steps: usize) -> (b: bool) {
        let b = source.is_balanced() && !source.has(BfRawInstruction::Print) && max_steps <= 0x7fff_ffff;
        proof {
            if num_runnable(source@) {
                if source@.contains(BfRawInstruction::Print) {
                    let i = choose|i: int|
                        0 <= i < source@.len() && source@[i] == BfRawInstruction::Print;
                    assert(source@[i] != BfRawInstruction::Print);
                }
            }
        }
        b
    }

    fn generate(&self, limit: usize) -> (g: BfNaiveGenerator) {
        BfNaiveGenerator::new(limit, true, false)
    }

    fn execute(&self, source: &BfSource, max_steps: usize) -> (r: ProgResult<i64>) {
        let compiled_program = Self::compile(source);
        let program = code_slice(&compiled_program);
        let ghost s = source@;

        let mut step: usize = 0;
        let mut tape: Vec<i32> = vec![0];
        let mut pos: usize = 0;
        let mut ip: usize = 0;
        let ghost mut st = num_start();

        while ip < program.len()
            invariant
                s == source@,
                program@ == compiled(s),
                num_runnable(s),
                s.len() <= 28,
                step <= max_steps <= i32::MAX,
                st.pos == pos,
                st.ip == ip,
                pos <= step,
                ip <= s.len(),
                tape@.len() >= 1,
                holds_values(tape@, st.cells),
                forall|p: int| 0 <= p < tape@.len() ==> -step <= #[trigger] tape@[p] <= step,
                num_run(s, num_start(), 0, max_steps as nat) == num_run(
                    s,
                    st,
                    step as nat,
                    max_steps as nat,
                ),
            decreases max_steps - step,
        {
            let inst = program[ip];
            proof {
                assert(inst == compiled_at(s, ip as int));
                lemma_find_open_bounds(s, ip - 1, depth(s, ip + 1));
                if s[ip as int] == BfRawInstruction::StartLoop {
                    lemma_balanced_has_close(s, ip as int);
                }
            }
            if let Instruction::Left = inst {
                if pos == 0 {
                    return ProgResult::Error;
                }
            }
            if step >= max_steps {
                return ProgResult::Timeout;
            }
            let ghost next = num_step(s, st).unwrap();
            match inst {
                Instruction::Plus => {
                    Self::maybe_extend_tape(&mut tape, pos);
                    let value = tape[pos];
                    tape.set(pos, value + 1);
                    ip += 1;
                    proof {
                        assert(value == value_at(st.cells, pos as int));
                        assert forall|p: int| 0 <= p implies #[trigger] value_at(next.cells, p)
                            == (if p < tape@.len() {
                            tape@[p] as int
                        } else {
                            0
                        }) by {
                            if p != pos {
                                assert(value_at(next.cells, p) == value_at(st.cells, p));
                            }
                        }
                    }
                },
                Instruction::Minus => {
                    Self::maybe_extend_tape(&mut tape, pos);
                    let value = tape[pos];
                    tape.set(pos, value - 1);
                    ip += 1;
                    proof {
                        assert(value == value_at(st.cells, pos as int));
                        assert forall|p: int| 0 <= p implies #[trigger] value_at(next.cells, p)
                            == (if p < tape@.len() {
                            tape@[p] as int
                        } else {
                            0
                        }) by {
                            if p != pos {
                                assert(value_at(next.cells, p) == value_at(st.cells, p));
                            }
                        }
                    }
                },
                Instruction::Left => {
                    pos -= 1;
                    ip += 1;
                },
                Instruction::Right => {
                    pos += 1;
                    ip += 1;
                },
                Instruction::StartLoop(target) => {
                    Self::maybe_extend_tape(&mut tape, pos);
                    proof {
                        assert(tape@[pos as int] == value_at(st.cells, pos as int));
                        assert forall|p: int| 0 <= p implies #[trigger] value_at(next.cells, p)
                            == (if p < tape@.len() {
                            tape@[p] as int
                        } else {
                            0
                        }) by {
                            assert(value_at(next.cells, p) == value_at(st.cells, p));
                        }
                    }
                    if tape[pos] != 0 {
                        ip += 1
                    } else {
                        ip = target
                    }
                },
                Instruction::EndLoop(target) => {
                    ip = target;
                },
                Instruction::Print => {
                    proof {
                        assert(false);
                    }
                },
            }
            proof {
                st = next;
                assert(holds_values(tape@, st.cells));
            }
            step += 1;
        }
        proof {
            assert(value_at(st.cells, 0) == tape@[0]);
        }
        if tape[0] > 0 {
            ProgResult::Out { output: tape[0] as i64, steps: step }
        } else {
            ProgResult::Error
        }
    }
}

/// A text whose first instruction moves the pointer to the left ends in an
/// error before any step, whatever the step budget.
pub proof fn lemma_left_at_start_is_error(s: Seq<BfRawInstruction>, max_steps: nat)
    requires
        s.len() > 0,
        s[0] == BfRawInstruction::Left,
    ensures
        num_run(s, num_start(), 0, max_steps) == ProgResult::<i64>::Error,
{
}

/// A text of increments only.
pub open spec fn all_plus(s: Seq<BfRawInstruction>) -> bool {
    forall|i: int| 0 <= i < s.len() ==> s[i] == BfRawInstruction::Plus
}

/// From a state of a text of increments in which the pointer is on the first
/// cell, a budget that covers the instructions still to come lets the run end
/// with one step for each of them, and each adds one to the first cell.
pub proof fn lemma_increments_run_from(
    s: Seq<BfRawInstruction>,
    st: NumState,
    steps: nat,
    max_steps: nat,
)
    requires
        all_plus(s),
        0 <= st.ip <= s.len(),
        st.pos == 0,
        steps + (s.len() - st.ip) <= max_steps,
        value_at(st.cells, 0) + (s.len() - st.ip) > 0,
    ensures
        num_run(s, st, steps, max_steps) == (ProgResult::Out {
            output: (value_at(st.cells, 0) + s.len() - st.ip) as i64,
            steps: (steps + s.len() - st.ip) as usize,
        }),
    decreases s.len() - st.ip,
{
    if st.ip < s.len() {
        lemma_increments_run_from(s, num_step(s, st).unwrap(), steps + 1, max_steps);
    }
}

/// A text of `n` increments, `n` at least 1, runs in exactly `n` steps with
/// the output `n`, and does not time out on any budget of at least `n`.
pub proof fn lemma_increments_run(s: Seq<BfRawInstruction>, max_steps: nat)
    requires
        all_plus(s),
        0 < s.len() <= max_steps,
    ensures
        num_run(s, num_start(), 0, max_steps) == (ProgResult::Out {
            output: s.len() as i64,
            steps: s.len() as usize,
        }),
{
    lemma_increments_run_from(s, num_start(), 0, max_steps);
}

/// The machine can run every text of its enumeration.
pub proof fn lemma_enumerated_is_runnable(limit: usize, i: int)
    requires
        0 <= i < programs_from(alphabet(true, false), limit as nat, 1, 0).len(),
    ensures
        num_runnable(programs_from(alphabet(true, false), limit as nat, 1, 0)[i].0),
{
    let a = alphabet(true, false);
    let x = programs_from(a, limit as nat, 1, 0)[i].0;
    lemma_programs_from_members(a, limit as nat, 1, 0, i);
    lemma_members_written_in(a, limit as nat, 1, 0, i);
    assert forall|j: int| 0 <= j < x.len() implies x[j] != BfRawInstruction::Print by {
        assert(a.contains(x[j]));
    }
}

} // verus!
