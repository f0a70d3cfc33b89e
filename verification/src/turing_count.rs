//! The two-symbol Turing machine whose output is the number of times that it
//! enters its first state.
use crate::arith::{
    digit, lemma_power_base_increases, lemma_power_div, lemma_power_increases,
    lemma_power_at_least_base, lemma_power_positive, lemma_power_square, lemma_power_two_more,
    lemma_split_choice, power, power_fits,
};
use crate::def::{CompSystem2, Generator, ProgResult, Sized};
use crate::text::{decimal, push_char, push_decimal};
use vstd::prelude::*;

verus! {

/// What the machine does in one state on reading one symbol.
#[derive(Clone, Copy, Debug, PartialEq, Eq, Structural)]
pub struct TuringCountRule {
    /// The state that the machine goes to; the number of states stands for halting.
    pub new_state: usize,
    /// The symbol that it writes.
    pub tape_value: bool,
    /// Whether it moves to the right; else it moves to the left.
    pub move_right: bool,
}

/// A rule written out: the new state as a number, the symbol written in
/// brackets, and the direction.
pub open spec fn short_rule_text(rule: TuringCountRule) -> Seq<char> {
    decimal(rule.new_state as nat) + seq![
        '(',
        if rule.tape_value {
            '1'
        } else {
            '0'
        },
        ')',
        if rule.move_right {
            '>'
        } else {
            '<'
        },
    ]
}

impl TuringCountRule {
    /// The rule written out: the new state as a number, the symbol written
    /// in brackets, and the direction.
    pub fn to_text(&self) -> (text: String)
        ensures
            text@ == short_rule_text(*self),
    {
        let mut text = String::new();
        push_decimal(&mut text, self.new_state);
        push_char(&mut text, '(');
        push_char(
            &mut text,
            if self.tape_value {
                '1'
            } else {
                '0'
            },
        );
        push_char(&mut text, ')');
        push_char(
            &mut text,
            if self.move_right {
                '>'
            } else {
                '<'
            },
        );
        assert(text@ =~= short_rule_text(*self));
        text
    }
}

/// A machine: for each of its states a rule for the symbol 0 and one for the symbol 1.
#[derive(Debug)]
pub struct TuringCountProgram {
    // Number of non-terminal states. Terminal state is #nstates
    nstates: usize,
    rules: Vec<[TuringCountRule; 2]>,
}

impl View for TuringCountProgram {
    type V = Seq<TuringCountRule>;

    /// The rules in one row: that of state `q` for symbol `v` stands at `2 * q + v`.
    closed spec fn view(&self) -> Seq<TuringCountRule> {
        Seq::new(2 * self.rules@.len(), |t: int| self.rules@[t / 2]@[t % 2])
    }
}

/// The number of states of the machine with the rules `table`.
pub open spec fn states_of(table: Seq<TuringCountRule>) -> nat {
    (table.len() / 2) as nat
}

/// A table of rules is one of a machine: it has two rules for each state, and
/// no rule leads beyond the halting state.
pub open spec fn is_table(table: Seq<TuringCountRule>) -> bool {
    &&& table.len() % 2 == 0
    &&& forall|t: int| 0 <= t < table.len() ==> (#[trigger] table[t]).new_state <= states_of(table)
}

impl TuringCountProgram {
    #[verifier::type_invariant]
    spec fn inv(self) -> bool {
        &&& self.rules@.len() == self.nstates
        &&& forall|q: int, v: int|
            0 <= q < self.rules@.len() && 0 <= v < 2 ==> (#[trigger] self.rules@[q]@[v]).new_state
                <= self.nstates
    }

    /// The machine with the given rules, one pair for each state, or `None`
    /// where a rule leads beyond the halting state.
    pub fn from_rules(rules: Vec<[TuringCountRule; 2]>) -> (r: Option<Self>)
        ensures
            match r {
                Some(program) => {
                    &&& is_table(program@)
                    &&& program@.len() == 2 * rules@.len()
                    &&& forall|q: int, v: int|
                        0 <= q < rules@.len() && 0 <= v < 2 ==> program@[2 * q + v]
                            == #[trigger] rules@[q]@[v]
                },
                None => exists|q: int, v: int|
                    0 <= q < rules@.len() && 0 <= v < 2 && (#[trigger] rules@[q]@[v]).new_state
                        > rules@.len(),
            },
    {
        let nstates = rules.len();
        let mut q: usize = 0;
        while q < nstates
            invariant
                nstates == rules@.len(),
                q <= nstates,
                forall|p: int, v: int|
                    0 <= p < q && 0 <= v < 2 ==> (#[trigger] rules@[p]@[v]).new_state <= nstates,
            decreases nstates - q,
        {
            if rules[q][0].new_state > nstates || rules[q][1].new_state > nstates {
                return None;
            }
            q += 1;
        }
        let program = TuringCountProgram { nstates, rules };
        proof {
            assert forall|q: int, v: int| 0 <= q < rules@.len() && 0 <= v < 2 implies program@[2
                * q + v] == #[trigger] rules@[q]@[v] by {
                assert((2 * q + v) / 2 == q && (2 * q + v) % 2 == v);
            }
            assert forall|t: int| 0 <= t < program@.len() implies (#[trigger] program@[t]).new_state
                <= states_of(program@) by {
                assert(program@[t] == rules@[t / 2]@[t % 2]);
            }
        }
        Some(program)
    }
}

impl Clone for TuringCountProgram {
    fn clone(&self) -> (c: Self)
        ensures
            c@ == self@,
    {
        proof {
            use_type_invariant(self);
        }
        let mut rules: Vec<[TuringCountRule; 2]> = Vec::new();
        let mut q: usize = 0;
        while q < self.rules.len()
            invariant
                q <= self.rules@.len(),
                rules@.len() == q,
                forall|p: int| 0 <= p < q ==> rules@[p] == self.rules@[p],
            decreases self.rules@.len() - q,
        {
            let pair = self.rules[q];
            rules.push(pair);
            q += 1;
        }
        let c = TuringCountProgram { nstates: self.nstates, rules };
        assert(c@ =~= self@);
        c
    }
}

impl Sized for TuringCountProgram {
    open spec fn spec_size(&self) -> nat {
        states_of(self@)
    }

    fn size(&self) -> (n: usize) {
        proof {
            use_type_invariant(self);
        }
        self.nstates
    }
}

/// The state of the machine between two steps.
pub struct TuringState {
    /// The cells that have been written, by position; the others hold the symbol 0.
    pub cells: Map<int, bool>,
    /// The state of the control.
    pub state: int,
    /// The position of the head.
    pub position: int,
    /// The number of times that the machine has entered state 0.
    pub output: int,
}

/// The symbol in the cell at `position`.
pub open spec fn symbol_at(cells: Map<int, bool>, position: int) -> bool {
    cells.dom().contains(position) && cells[position]
}

/// The state in which every run starts.
pub open spec fn turing_start() -> TuringState {
    TuringState { cells: Map::empty(), state: 0, position: 0, output: 0 }
}

/// The rule that applies in `st`.
pub open spec fn rule_for(table: Seq<TuringCountRule>, st: TuringState) -> TuringCountRule {
    table[2 * st.state + if symbol_at(st.cells, st.position) {
        1int
    } else {
        0int
    }]
}

/// The state after one step: the rule's symbol is written, the head moves, the
/// control changes state, and an entry into state 0 is counted.
pub open spec fn turing_step(table: Seq<TuringCountRule>, st: TuringState) -> TuringState {
    let rule = rule_for(table, st);
    TuringState {
        cells: st.cells.insert(st.position, rule.tape_value),
        state: rule.new_state as int,
        position: if rule.move_right {
            st.position + 1
        } else {
            st.position - 1
        },
        output: if rule.new_state == 0 {
            st.output + 1
        } else {
            st.output
        },
    }
}

/// How a run ends that has reached `st` after `steps` steps: with the output
/// where the machine has halted, with a timeout where `max_steps` steps are
/// used up, and else as the run from the next state ends.
pub open spec fn turing_run(
    table: Seq<TuringCountRule>,
    st: TuringState,
    steps: nat,
    max_steps: nat,
) -> ProgResult<u64>
    decreases max_steps - steps,
{
    if st.state >= states_of(table) {
        ProgResult::Out { output: st.output as u64, steps: steps as usize }
    } else if steps >= max_steps {
        ProgResult::Timeout
    } else {
        turing_run(table, turing_step(table, st), steps + 1, max_steps)
    }
}

/// The two half-tapes hold the cells of the state: `right` those at the
/// positions from 0 on, `left` those at the negative positions, the cell at
/// -1 first. A cell that they do not reach holds the symbol 0.
pub open spec fn holds_symbols(right: Seq<bool>, left: Seq<bool>, cells: Map<int, bool>) -> bool {
    forall|p: int| #[trigger]
        symbol_at(cells, p) == (if p >= 0 {
            p < right.len() && right[p]
        } else {
            -p - 1 < left.len() && left[-p - 1]
        })
}

/// The Turing machine model.
pub struct TuringCount {}

impl TuringCount {
    /// The model; it has no settings.
    pub fn new() -> (c: Self) {
        TuringCount {  }
    }
}

/// The rule with the number `d`: the lowest bit says whether the head moves
/// right, the next one is the symbol written, and the rest is the new state.
pub open spec fn rule_of_digit(d: int) -> TuringCountRule {
    TuringCountRule { new_state: (d / 4) as usize, tape_value: (d / 2) % 2 == 1, move_right: d % 2 == 1 }
}

/// The number of rules that a machine of `n` states chooses from: four for each
/// state to go to, and one that halts.
pub open spec fn rule_choices(n: nat) -> nat {
    4 * n + 1
}

/// The number of machines of `n` states.
pub open spec fn machine_count(n: nat) -> nat {
    power(rule_choices(n), 2 * n)
}

/// The machine of `n` states with the number `idx`: its rules are the digits of
/// `idx` to the base of the number of rules, the least significant first.
pub open spec fn machine(n: nat, idx: nat) -> Seq<TuringCountRule> {
    Seq::new(2 * n, |t: int| rule_of_digit(digit(idx, rule_choices(n), t as nat)))
}

/// The machines of `n` states from number `idx` on, then all those of more
/// states up to `max_states`, each with the weight 1.
pub open spec fn machines_from(max_states: nat, n: nat, idx: nat) -> Seq<
    (Seq<TuringCountRule>, usize),
>
    decreases max_states + 1 - n, machine_count(n) - idx,
{
    if n > max_states {
        Seq::empty()
    } else if idx >= machine_count(n) {
        machines_from(max_states, n + 1, 0)
    } else {
        seq![(machine(n, idx), 1usize)] + machines_from(max_states, n, idx + 1)
    }
}

/// The number of machines grows with the number of states.
pub proof fn lemma_machine_count_increases(n1: nat, n2: nat)
    requires
        n1 <= n2,
    ensures
        1 <= machine_count(n1) <= machine_count(n2),
        n1 >= 1 ==> rule_choices(n1) * rule_choices(n1) <= machine_count(n1),
{
    lemma_power_positive(rule_choices(n1), 2 * n1);
    lemma_power_base_increases(rule_choices(n1), rule_choices(n2), 2 * n1);
    lemma_power_increases(rule_choices(n2), 2 * n1, 2 * n2);
    if n1 >= 1 {
        let b = rule_choices(n1);
        lemma_power_increases(b, 2, 2 * n1);
        assert(power(b, 2) == b * power(b, 1));
        assert(power(b, 1) == b * power(b, 0));
        assert(power(b, 2) == b * b) by (nonlinear_arith)
            requires
                power(b, 2) == b * power(b, 1),
                power(b, 1) == b * power(b, 0),
                power(b, 0) == 1,
        ;
    }
}

/// Machines of up to three states can be numbered on every machine.
pub proof fn lemma_small_machines_fit(max_states: usize)
    requires
        max_states <= 3,
    ensures
        TuringCountGenerator::fits(max_states),
        TuringCountNaiveGenerator::fits(max_states),
{
    lemma_machine_count_increases(max_states as nat, 3);
    lemma_naive_count_increases(max_states as nat, 3);
    assert(power(13, 6) == 4826809) by {
        reveal_with_fuel(power, 7);
    }
    assert(power(16, 6) == 16777216) by {
        reveal_with_fuel(power, 7);
    }
}

/// Enumerates the machines by their numbers.
pub struct TuringCountGenerator {
    index_within_nstates: usize,
    total_for_nstates: usize,
    max_states: usize,
    nstates: usize,
}

impl TuringCountGenerator {
    /// Whether the machines of up to `max_states` states can be numbered on this machine.
    pub open spec fn fits(max_states: usize) -> bool {
        machine_count(max_states as nat) <= usize::MAX
    }

    /// Whether the machines of up to `max_states` states can be numbered on this machine.
    pub fn admits(max_states: usize) -> (b: bool)
        ensures
            b == Self::fits(max_states),
    {
        if max_states > (usize::MAX - 1) / 4 {
            proof {
                lemma_power_at_least_base(rule_choices(max_states as nat), 2 * max_states as nat);
            }
            return false;
        }
        power_fits(4 * max_states + 1, 2 * max_states)
    }

    /// A generator of the machines of 1 to `max_states` states.
    pub fn new(max_states: usize) -> (g: Self)
        requires
            Self::fits(max_states),
        ensures
            g.wf(),
            g.remaining() == machines_from(max_states as nat, 1, 0),
    {
        TuringCountGenerator {
            max_states,
            index_within_nstates: 0,
            total_for_nstates: 0,
            nstates: 0,
        }
    }

    /// Moves on to the machines with one state more.
    fn increment_nstates(&mut self)
        requires
            old(self).wf(),
            old(self).nstates < old(self).max_states,
        ensures
            final(self).wf(),
            final(self).max_states == old(self).max_states,
            final(self).nstates == old(self).nstates + 1,
            final(self).index_within_nstates == 0,
    {
        self.nstates += 1;
        self.index_within_nstates = 0;
        self.total_for_nstates = 1;
        proof {
            lemma_machine_count_increases(self.nstates as nat, self.max_states as nat);
            assert(rule_choices(self.nstates as nat) <= rule_choices(self.nstates as nat)
                * rule_choices(self.nstates as nat)) by (nonlinear_arith);
        }
        let choices = 4 * self.nstates + 1;
        let mut j: usize = 0;
        while j < self.nstates
            invariant
                self.max_states == old(self).max_states,
                self.nstates == old(self).nstates + 1,
                self.index_within_nstates == 0,
                j <= self.nstates <= self.max_states,
                choices == rule_choices(self.nstates as nat),
                choices * choices <= machine_count(self.nstates as nat) <= machine_count(
                    self.max_states as nat,
                ) <= usize::MAX,
                self.total_for_nstates == power(choices as nat, 2 * j as nat),
            decreases self.nstates - j,
        {
            proof {
                let b = choices as nat;
                let p = power(b, 2 * j as nat);
                lemma_power_increases(b, (2 * j + 2) as nat, 2 * self.nstates as nat);
                assert(power(b, (2 * j + 2) as nat) == b * power(b, (2 * j + 1) as nat));
                assert(power(b, (2 * j + 1) as nat) == b * p);
                assert(p * (b * b) == b * (b * p)) by (nonlinear_arith);
            }
            self.total_for_nstates *= choices * choices;
            j += 1;
        }
    }

    /// Takes the lowest digit off `idx` and returns the rule with that number.
    pub fn rule_from_idx(&self, idx: &mut usize) -> (rule: TuringCountRule)
        requires
            self.wf(),
        ensures
            *final(idx) == *old(idx) as int / rule_choices(self.states()) as int,
            rule == rule_of_digit(*old(idx) as int % rule_choices(self.states()) as int),
    {
        proof {
            lemma_machine_count_increases(self.nstates as nat, self.max_states as nat);
            if self.nstates >= 1 {
                assert(rule_choices(self.nstates as nat) <= rule_choices(self.nstates as nat)
                    * rule_choices(self.nstates as nat)) by (nonlinear_arith);
            }
        }
        let rule_idx = *idx % (4 * self.nstates + 1);
        *idx /= 4 * self.nstates + 1;

        let new_state = rule_idx / 4;
        let tape_value = (rule_idx & 2) != 0;
        let move_right = (rule_idx & 1) != 0;
        proof {
            assert(((rule_idx & 2) != 0) == ((rule_idx / 2) % 2 == 1)) by (bit_vector);
            assert(((rule_idx & 1) != 0) == (rule_idx % 2 == 1)) by (bit_vector);
        }

        TuringCountRule { new_state, tape_value, move_right }
    }

    /// The number of states of the machines that are being handed out.
    pub closed spec fn states(&self) -> nat {
        self.nstates as nat
    }
}

impl Generator<TuringCountProgram> for TuringCountGenerator {
    closed spec fn wf(&self) -> bool {
        &&& machine_count(self.max_states as nat) <= usize::MAX
        &&& self.nstates <= self.max_states
        &&& if self.nstates == 0 {
            self.total_for_nstates == 0 && self.index_within_nstates == 0
        } else {
            &&& self.total_for_nstates == machine_count(self.nstates as nat)
            &&& self.index_within_nstates <= self.total_for_nstates
        }
    }

    closed spec fn remaining(&self) -> Seq<(Seq<TuringCountRule>, usize)> {
        machines_from(
            self.max_states as nat,
            if self.nstates == 0 {
                1
            } else {
                self.nstates as nat
            },
            self.index_within_nstates as nat,
        )
    }

    fn next(&mut self) -> (r: Option<(TuringCountProgram, usize)>) {
        let ghost m = self.max_states as nat;
        if self.index_within_nstates >= self.total_for_nstates {
            proof {
                if self.nstates > 0 {
                    assert(machines_from(m, self.nstates as nat, self.index_within_nstates as nat)
                        == machines_from(m, (self.nstates + 1) as nat, 0));
                }
            }
            if self.nstates >= self.max_states {
                return None;
            }
            self.increment_nstates();
            proof {
                lemma_machine_count_increases(self.nstates as nat, m);
            }
        }
        let ghost n = self.nstates as nat;
        let ghost index = self.index_within_nstates as nat;
        let ghost b = rule_choices(n);
        let mut idx = self.index_within_nstates;
        let mut rules: Vec<[TuringCountRule; 2]> = Vec::new();
        let mut istate: usize = 0;
        assert(power(b, 0) == 1);
        assert(power(b, (2 * istate) as nat) == 1);
        while istate < self.nstates
            invariant
                self.wf(),
                n == self.nstates,
                n >= 1,
                b == rule_choices(n),
                istate <= n,
                rules@.len() == istate,
                idx == index as int / power(b, (2 * istate) as nat) as int,
                forall|q: int, v: int|
                    0 <= q < istate && 0 <= v < 2 ==> #[trigger] rules@[q]@[v] == rule_of_digit(
                        digit(index, b, (2 * q + v) as nat),
                    ),
            decreases n - istate,
        {
            proof {
                lemma_power_div(index, b, (2 * istate) as nat);
                lemma_power_div(index, b, (2 * istate + 1) as nat);
            }
            let rule_for_0 = self.rule_from_idx(&mut idx);
            let rule_for_1 = self.rule_from_idx(&mut idx);
            rules.push([rule_for_0, rule_for_1]);
            istate += 1;
        }
        self.index_within_nstates += 1;
        proof {
            assert forall|q: int, v: int| 0 <= q < rules@.len() && 0 <= v < 2 implies (
            #[trigger] rules@[q]@[v]).new_state <= n by {
                let d = digit(index, b, (2 * q + v) as nat);
                assert(0 <= d < b);
            }
        }
        let program = TuringCountProgram { nstates: self.nstates, rules };
        proof {
            assert forall|t: int| 0 <= t < 2 * n implies program@[t] == machine(
                n,
                index,
            )[t] by {
                assert(2 * (t / 2) + t % 2 == t);
            }
            assert(program@ =~= machine(n, index));
            let rest = machines_from(m, n, index + 1);
            assert(machines_from(m, n, index) == seq![(machine(n, index), 1usize)] + rest);
            assert((seq![(machine(n, index), 1usize)] + rest).skip(1) =~= rest);
        }
        Some((program, 1))
    }
}

/// Lengthens a half-tape with cells that hold the symbol 0 until it has a cell at `pos`.
fn extend_half_tape(tape: &mut Vec<bool>, pos: usize)
    requires
        pos < usize::MAX,
    ensures
        final(tape)@.len() > pos,
        final(tape)@.len() >= old(tape)@.len(),
        forall|i: int| 0 <= i < old(tape)@.len() ==> final(tape)@[i] == old(tape)@[i],
        forall|i: int| old(tape)@.len() <= i < final(tape)@.len() ==> !final(tape)@[i],
{
    while tape.len() <= pos
        invariant
            pos < usize::MAX,
            old(tape)@.len() <= tape@.len(),
            tape@.len() <= pos + 1 || tape@.len() == old(tape)@.len(),
            forall|i: int| 0 <= i < old(tape)@.len() ==> tape@[i] == old(tape)@[i],
            forall|i: int| old(tape)@.len() <= i < tape@.len() ==> !tape@[i],
        decreases pos + 1 - tape@.len(),
    {
        tape.push(false);
    }
}

impl CompSystem2 for TuringCount {
    type Output = u64;

    type Program = TuringCountProgram;

    type Gen = TuringCountGenerator;

    open spec fn admits_limit(&self, limit: usize) -> bool {
        TuringCountGenerator::fits(limit)
    }

    open spec fn enumeration(&self, limit: usize) -> Seq<(Seq<TuringCountRule>, usize)> {
        machines_from(limit as nat, 1, 0)
    }

    /// The position of the head is kept in 32 bits and a step moves it by one, so
    /// the step budget must not exceed the greatest position.
    open spec fn runnable(&self, program: Seq<TuringCountRule>, max_steps: usize) -> bool {
        max_steps <= i32::MAX
    }

    open spec fn outcome(&self, program: Seq<TuringCountRule>, max_steps: usize) -> ProgResult<
        u64,
    > {
        turing_run(program, turing_start(), 0, max_steps as nat)
    }

    open spec fn meaningful(output: u64) -> bool {
        output > 0
    }

    open spec fn size_of(program: Seq<TuringCountRule>) -> nat {
        states_of(program)
    }

    proof fn size_is_size_of(program: TuringCountProgram) {
    }

    proof fn enumeration_is_ordered(&self, limit: usize, i: int, j: int) {
        lemma_machines_from_ordered(limit as nat, 1, 0, i, j);
    }

    open spec fn rank(output: u64) -> int {
        output as int
    }

    proof fn rank_tells_apart(a: u64, b: u64) {
    }

    fn output_before(a: &u64, b: &u64) -> (before: bool) {
        *a < *b
    }

    proof fn output_is_key() {
        broadcast use vstd::std_specs::hash::group_hash_axioms;

    }

    proof fn clone_is_same(program: TuringCountProgram, copy: TuringCountProgram) {
        if program != copy {
            assert(call_ensures(<TuringCountProgram as Clone>::clone, (&program,), copy));
        }
    }

    fn execute(&self, program: &TuringCountProgram, max_steps: usize) -> (r: ProgResult<u64>) {
        proof {
            use_type_invariant(program);
        }
        let mut tape_positive: Vec<bool> = vec![false];
        let mut tape_negative: Vec<bool> = vec![false];
        let mut position: i32 = 0;
        let mut output: u64 = 0;
        let mut state: usize = 0;
        let mut step: usize = 0;
        let ghost table = program@;
        let ghost mut st = turing_start();

        while state < program.nstates
            invariant
                table == program@,
                program.rules@.len() == program.nstates,
                states_of(table) == program.nstates,
                step <= max_steps <= i32::MAX,
                st.state == state,
                st.position == position,
                st.output == output,
                -step <= position <= step,
                output <= step,
                holds_symbols(tape_positive@, tape_negative@, st.cells),
                turing_run(table, turing_start(), 0, max_steps as nat) == turing_run(
                    table,
                    st,
                    step as nat,
                    max_steps as nat,
                ),
            decreases max_steps - step,
        {
            if step >= max_steps {
                return ProgResult::Timeout;
            }
            let ghost next = turing_step(table, st);
            let ghost right_before = tape_positive@;
            let ghost left_before = tape_negative@;
            let tape_value: usize = if position >= 0 {
                extend_half_tape(&mut tape_positive, position as usize);
                if tape_positive[position as usize] {
                    1
                } else {
                    0
                }
            } else {
                let pos = (-position - 1) as usize;
                extend_half_tape(&mut tape_negative, pos);
                if tape_negative[pos] {
                    1
                } else {
                    0
                }
            };
            proof {
                assert(symbol_at(st.cells, position as int) == (tape_value == 1));
                assert((2 * state + tape_value) / 2 == state as int && (2 * state + tape_value) % 2
                    == tape_value as int);
            }

            let rule = &program.rules[state][tape_value];
            assert(*rule == rule_for(table, st));

            state = rule.new_state;
            if position >= 0 {
                tape_positive.set(position as usize, rule.tape_value);
            } else {
                tape_negative.set((-position - 1) as usize, rule.tape_value);
            };
            proof {
                assert forall|p: int| #[trigger]
                    symbol_at(next.cells, p) == (if p >= 0 {
                        p < tape_positive@.len() && tape_positive@[p]
                    } else {
                        -p - 1 < tape_negative@.len() && tape_negative@[-p - 1]
                    }) by {
                    if p != position {
                        assert(symbol_at(next.cells, p) == symbol_at(st.cells, p));
                    }
                }
            }

            if rule.move_right {
                position += 1;
            } else {
                position -= 1;
            }

            if state == 0 {
                output += 1;
            }
            proof {
                st = next;
            }

            step += 1;
        }
        ProgResult::Out { output, steps: step }
    }

    fn admits(&self, limit: usize) -> (b: bool) {
        TuringCountGenerator::admits(limit)
    }

    fn accepts(&self, program: &TuringCountProgram, max_steps: usize) -> (b: bool) {
        max_steps <= 0x7fff_ffff
    }

    fn generate(&self, limit: usize) -> (g: TuringCountGenerator) {
        TuringCountGenerator::new(limit)
    }

    fn valid_output(o: &u64) -> (b: bool) {
        *o > 0
    }
}

/// Every numbered machine is a table of rules for its number of states.
pub proof fn lemma_machine_is_table(n: nat, idx: nat)
    ensures
        machine(n, idx).len() == 2 * n,
        states_of(machine(n, idx)) == n,
        is_table(machine(n, idx)),
{
    let table = machine(n, idx);
    assert forall|t: int| 0 <= t < table.len() implies (#[trigger] table[t]).new_state
        <= states_of(table) by {
        lemma_power_positive(rule_choices(n), t as nat);
        let d = digit(idx, rule_choices(n), t as nat);
        assert(0 <= d < rule_choices(n));
    }
}

/// Every machine that the enumeration holds has from `n` to `max_states`
/// states and the weight 1, and is one of the numbered machines.
pub proof fn lemma_machines_from_members(max_states: nat, n: nat, idx: nat, i: int)
    requires
        0 <= i < machines_from(max_states, n, idx).len(),
    ensures
        n <= states_of(machines_from(max_states, n, idx)[i].0) <= max_states,
        machines_from(max_states, n, idx)[i].1 == 1,
        exists|k: nat|
            k < machine_count(states_of(machines_from(max_states, n, idx)[i].0))
                && machines_from(max_states, n, idx)[i].0 == machine(
                states_of(machines_from(max_states, n, idx)[i].0),
                k,
            ),
    decreases max_states + 1 - n, machine_count(n) - idx,
{
    if n > max_states {
    } else if idx >= machine_count(n) {
        lemma_machines_from_members(max_states, n + 1, 0, i);
    } else if i == 0 {
        lemma_machine_is_table(n, idx);
        assert(machines_from(max_states, n, idx)[0].0 == machine(n, idx));
    } else {
        lemma_machines_from_members(max_states, n, idx + 1, i - 1);
    }
}

/// The enumeration is in the order of the sizes: no machine comes before one
/// of fewer states.
pub proof fn lemma_machines_from_ordered(max_states: nat, n: nat, idx: nat, i: int, j: int)
    requires
        0 <= i <= j < machines_from(max_states, n, idx).len(),
    ensures
        states_of(machines_from(max_states, n, idx)[i].0) <= states_of(
            machines_from(max_states, n, idx)[j].0,
        ),
    decreases max_states + 1 - n, machine_count(n) - idx,
{
    if n > max_states {
    } else if idx >= machine_count(n) {
        lemma_machines_from_ordered(max_states, n + 1, 0, i, j);
    } else if i == 0 {
        lemma_machine_is_table(n, idx);
        if j > 0 {
            lemma_machines_from_members(max_states, n, idx + 1, j - 1);
        }
    } else {
        lemma_machines_from_ordered(max_states, n, idx + 1, i - 1, j - 1);
    }
}

/// The number of rules that the exhaustive enumeration chooses from for a
/// machine of `n` states: a new state up to the halting state, a symbol and a direction.
pub open spec fn naive_choices(n: nat) -> nat {
    4 * (n + 1)
}

/// The number of tables that the exhaustive enumeration tries for `n` states.
pub open spec fn naive_count(n: nat) -> nat {
    power(naive_choices(n), 2 * n)
}

/// The rule with the number `d` in the exhaustive enumeration for `n` states:
/// the remainder by `n + 1` is the new state, the next bit is the symbol
/// written, and the bit after that says whether the head moves right.
pub open spec fn naive_rule(d: int, n: nat) -> TuringCountRule {
    let m = (n + 1) as int;
    TuringCountRule {
        new_state: (d % m) as usize,
        tape_value: (d / m) % 2 == 1,
        move_right: ((d / m) / 2) % 2 == 1,
    }
}

/// A rule of a canonical machine of `n` states: of the rules that halt only
/// the one that writes the symbol 0 and moves left is kept.
pub open spec fn rule_is_canonical(rule: TuringCountRule, n: nat) -> bool {
    rule.new_state < n || (!rule.tape_value && !rule.move_right)
}

/// The table with the number `idx` in the exhaustive enumeration for `n` states.
pub open spec fn naive_machine(n: nat, idx: nat) -> Seq<TuringCountRule> {
    Seq::new(2 * n, |t: int| naive_rule(digit(idx, naive_choices(n), t as nat), n))
}

/// Whether all the rules of a table are canonical.
pub open spec fn is_canonical(table: Seq<TuringCountRule>, n: nat) -> bool {
    forall|t: int| 0 <= t < table.len() ==> rule_is_canonical(#[trigger] table[t], n)
}

/// The canonical machines among the tables of `n` states from number `idx`
/// on, then those of more states up to `max_states`, each with the weight 1.
pub open spec fn naive_machines_from(max_states: nat, n: nat, idx: nat) -> Seq<
    (Seq<TuringCountRule>, usize),
>
    decreases max_states + 1 - n, naive_count(n) - idx,
{
    if n > max_states {
        Seq::empty()
    } else if idx >= naive_count(n) {
        naive_machines_from(max_states, n + 1, 0)
    } else if is_canonical(naive_machine(n, idx), n) {
        seq![(naive_machine(n, idx), 1usize)] + naive_machines_from(max_states, n, idx + 1)
    } else {
        naive_machines_from(max_states, n, idx + 1)
    }
}

/// The number of tables grows with the number of states.
pub proof fn lemma_naive_count_increases(n1: nat, n2: nat)
    requires
        n1 <= n2,
    ensures
        1 <= naive_count(n1) <= naive_count(n2),
{
    lemma_power_positive(naive_choices(n1), 2 * n1);
    lemma_power_base_increases(naive_choices(n1), naive_choices(n2), 2 * n1);
    lemma_power_increases(naive_choices(n2), 2 * n1, 2 * n2);
}

/// Enumerates the canonical machines by trying every table in turn.
pub struct TuringCountNaiveGenerator {
    index_within_nstates: usize,
    total_for_nstates: usize,
    max_states: usize,
    nstates: usize,
}

impl TuringCountNaiveGenerator {
    /// Whether the tables of up to `max_states` states can be numbered on this machine.
    pub open spec fn fits(max_states: usize) -> bool {
        naive_count(max_states as nat) <= usize::MAX
    }

    /// Whether the tables of up to `max_states` states can be numbered on this machine.
    pub fn admits(max_states: usize) -> (b: bool)
        ensures
            b == Self::fits(max_states),
    {
        if max_states == 0 {
            assert(power(naive_choices(0), 0) == 1);
            return true;
        }
        if max_states > usize::MAX / 4 - 1 {
            proof {
                lemma_power_at_least_base(naive_choices(max_states as nat), 2 * max_states as nat);
            }
            return false;
        }
        power_fits(4 * (max_states + 1), 2 * max_states)
    }

    /// A generator of the canonical machines of 1 to `max_states` states.
    pub fn new(max_states: usize) -> (g: Self)
        requires
            Self::fits(max_states),
        ensures
            g.wf(),
            g.remaining() == naive_machines_from(max_states as nat, 1, 0),
    {
        TuringCountNaiveGenerator {
            max_states,
            index_within_nstates: 0,
            total_for_nstates: 0,
            nstates: 0,
        }
    }

    /// The number of states of the machines that are being handed out.
    pub closed spec fn states(&self) -> nat {
        self.nstates as nat
    }

    /// Moves on to the machines with one state more.
    fn increment_nstates(&mut self)
        requires
            old(self).wf(),
            old(self).nstates < old(self).max_states,
        ensures
            final(self).wf(),
            final(self).max_states == old(self).max_states,
            final(self).nstates == old(self).nstates + 1,
            final(self).index_within_nstates == 0,
    {
        self.nstates += 1;
        self.index_within_nstates = 0;
        self.total_for_nstates = 1;
        proof {
            lemma_naive_count_increases(self.nstates as nat, self.max_states as nat);
            lemma_power_square(naive_choices(self.nstates as nat), self.nstates as nat);
            let m = self.nstates + 1;
            assert(naive_choices(self.nstates as nat) * naive_choices(self.nstates as nat) == 16
                * m * m) by (nonlinear_arith)
                requires
                    naive_choices(self.nstates as nat) == 4 * m,
            ;
            assert(16 * m <= 16 * m * m) by (nonlinear_arith)
                requires
                    m >= 1,
            ;
        }
        let factor = 16 * (self.nstates + 1) * (self.nstates + 1);
        let mut j: usize = 0;
        while j < self.nstates
            invariant
                self.max_states == old(self).max_states,
                self.nstates == old(self).nstates + 1,
                self.index_within_nstates == 0,
                j <= self.nstates <= self.max_states,
                factor == naive_choices(self.nstates as nat) * naive_choices(self.nstates as nat),
                naive_count(self.nstates as nat) <= naive_count(self.max_states as nat)
                    <= usize::MAX,
                self.total_for_nstates == power(naive_choices(self.nstates as nat), 2 * j as nat),
            decreases self.nstates - j,
        {
            proof {
                let b = naive_choices(self.nstates as nat);
                lemma_power_increases(b, (2 * j + 2) as nat, 2 * self.nstates as nat);
                lemma_power_two_more(b, 2 * j as nat);
            }
            self.total_for_nstates *= factor;
            j += 1;
        }
    }

    /// Takes the lowest digit off `idx` and returns the rule with that number.
    pub fn rule_from_idx(&self, idx: &mut usize) -> (rule: TuringCountRule)
        requires
            self.wf(),
        ensures
            *final(idx) == *old(idx) as int / naive_choices(self.states()) as int,
            rule == naive_rule(*old(idx) as int % naive_choices(self.states()) as int, self.states()),
    {
        proof {
            lemma_naive_count_increases(self.nstates as nat, self.max_states as nat);
            if self.nstates >= 1 {
                lemma_power_square(naive_choices(self.nstates as nat), self.nstates as nat);
            }
            lemma_split_choice(*idx as nat, (self.nstates + 1) as nat);
        }
        let new_state = *idx % (self.nstates + 1);
        *idx /= self.nstates + 1;
        let tape_value = (*idx % 2) != 0;
        *idx /= 2;
        let move_right = (*idx % 2) != 0;
        *idx /= 2;

        TuringCountRule { new_state, tape_value, move_right }
    }

    /// Whether a rule is one of a canonical machine of the current number of states.
    pub fn rule_is_valid(&self, rule: &TuringCountRule) -> (valid: bool)
        ensures
            valid == rule_is_canonical(*rule, self.states()),
    {
        rule.new_state < self.nstates || (!rule.tape_value && !rule.move_right)
    }

    /// The table with the number `index`, or `None` where one of its rules is
    /// not canonical.
    fn table(&self, index: usize) -> (r: Option<TuringCountProgram>)
        requires
            self.wf(),
            self.nstates >= 1,
        ensures
            r is Some == is_canonical(naive_machine(self.states(), index as nat), self.states()),
            r matches Some(program) ==> program@ == naive_machine(self.states(), index as nat),
    {
        let ghost n = self.nstates as nat;
        let ghost b = naive_choices(n);
        let ghost whole = naive_machine(n, index as nat);
        let mut idx = index;
        let mut rules: Vec<[TuringCountRule; 2]> = Vec::new();
        let mut istate: usize = 0;
        assert(power(b, (2 * istate) as nat) == 1);
        while istate < self.nstates
            invariant
                self.wf(),
                n == self.nstates,
                n == self.states(),
                b == naive_choices(n),
                whole == naive_machine(n, index as nat),
                istate <= n,
                rules@.len() == istate,
                idx == index as int / power(b, (2 * istate) as nat) as int,
                forall|q: int, v: int|
                    0 <= q < istate && 0 <= v < 2 ==> #[trigger] rules@[q]@[v] == whole[2 * q + v],
                forall|t: int| 0 <= t < 2 * istate ==> rule_is_canonical(#[trigger] whole[t], n),
            decreases n - istate,
        {
            proof {
                lemma_power_div(index as nat, b, (2 * istate) as nat);
                lemma_power_div(index as nat, b, (2 * istate + 1) as nat);
            }
            let rule_for_0 = self.rule_from_idx(&mut idx);
            assert(rule_for_0 == whole[2 * istate]);
            if !self.rule_is_valid(&rule_for_0) {
                // Don't distinguish between different rules that lead to HALT state
                return None;
            }
            let rule_for_1 = self.rule_from_idx(&mut idx);
            assert(rule_for_1 == whole[2 * istate + 1]);
            if !self.rule_is_valid(&rule_for_1) {
                return None;
            }
            rules.push([rule_for_0, rule_for_1]);
            istate += 1;
        }
        proof {
            assert forall|q: int, v: int| 0 <= q < rules@.len() && 0 <= v < 2 implies (
            #[trigger] rules@[q]@[v]).new_state <= n by {
                assert(rules@[q]@[v] == whole[2 * q + v]);
                let d = digit(index as nat, b, (2 * q + v) as nat);
                assert(0 <= d % ((n + 1) as int) < n + 1);
            }
        }
        let program = TuringCountProgram { nstates: self.nstates, rules };
        proof {
            assert forall|t: int| 0 <= t < 2 * n implies program@[t] == whole[t] by {
                assert(2 * (t / 2) + t % 2 == t);
            }
            assert(program@ =~= whole);
        }
        Some(program)
    }
}

impl Generator<TuringCountProgram> for TuringCountNaiveGenerator {
    closed spec fn wf(&self) -> bool {
        &&& naive_count(self.max_states as nat) <= usize::MAX
        &&& self.nstates <= self.max_states
        &&& if self.nstates == 0 {
            self.total_for_nstates == 0 && self.index_within_nstates == 0
        } else {
            &&& self.total_for_nstates == naive_count(self.nstates as nat)
            &&& self.index_within_nstates <= self.total_for_nstates
        }
    }

    closed spec fn remaining(&self) -> Seq<(Seq<TuringCountRule>, usize)> {
        naive_machines_from(
            self.max_states as nat,
            if self.nstates == 0 {
                1
            } else {
                self.nstates as nat
            },
            self.index_within_nstates as nat,
        )
    }

    fn next(&mut self) -> (r: Option<(TuringCountProgram, usize)>) {
        loop
            invariant
                self.wf(),
                self.remaining() == old(self).remaining(),
            decreases
                    self.max_states - self.nstates,
                    self.total_for_nstates - self.index_within_nstates,
        {
            let ghost m = self.max_states as nat;
            if self.index_within_nstates >= self.total_for_nstates {
                proof {
                    if self.nstates > 0 {
                        assert(naive_machines_from(
                            m,
                            self.nstates as nat,
                            self.index_within_nstates as nat,
                        ) == naive_machines_from(m, (self.nstates + 1) as nat, 0));
                    }
                }
                if self.nstates >= self.max_states {
                    return None;
                }
                self.increment_nstates();
                proof {
                    lemma_naive_count_increases(self.nstates as nat, m);
                }
            }
            let index = self.index_within_nstates;
            self.index_within_nstates += 1;
            let found = self.table(index);
            proof {
                let n = self.nstates as nat;
                let rest = naive_machines_from(m, n, (index + 1) as nat);
                let whole = naive_machine(n, index as nat);
                if found is Some {
                    assert(naive_machines_from(m, n, index as nat) == seq![(whole, 1usize)] + rest);
                    assert((seq![(whole, 1usize)] + rest).skip(1) =~= rest);
                } else {
                    assert(naive_machines_from(m, n, index as nat) == rest);
                }
            }
            match found {
                Some(program) => {
                    return Some((program, 1));
                },
                None => {},
            }
        }
    }
}

/// The letters that name the states.
pub open spec fn state_letters() -> Seq<char> {
    seq!['A', 'B', 'C', 'D', 'E', 'F', 'G', 'H', 'I', 'J']
}

/// The letter that names `state` in a machine of `nstates` states: `Z` for
/// the halting state.
pub open spec fn state_name(nstates: nat, state: nat) -> char {
    if state == nstates {
        'Z'
    } else {
        state_letters()[state as int]
    }
}

/// The letter that names `state` in a machine of `nstates` states.
pub fn get_state_name(nstates: usize, state: usize) -> (c: char)
    requires
        state == nstates || state < 10,
    ensures
        c == state_name(nstates as nat, state as nat),
{
    if state == nstates {
        'Z'
    } else {
        match state {
            0 => 'A',
            1 => 'B',
            2 => 'C',
            3 => 'D',
            4 => 'E',
            5 => 'F',
            6 => 'G',
            7 => 'H',
            8 => 'I',
            _ => 'J',
        }
    }
}

/// The character for a symbol.
pub open spec fn symbol_char(symbol: bool) -> char {
    if symbol {
        '1'
    } else {
        '0'
    }
}

/// What a rule does, written out: `HALT`, or the symbol written, the
/// direction and the letter of the new state.
pub open spec fn action_text(nstates: nat, rule: TuringCountRule) -> Seq<char> {
    if rule.new_state == nstates {
        seq!['H', 'A', 'L', 'T']
    } else {
        seq![
            symbol_char(rule.tape_value),
            if rule.move_right {
                '>'
            } else {
                '<'
            },
            state_name(nstates, rule.new_state as nat),
        ]
    }
}

/// The rule at place `t` of a table written out: a space, the letter of the
/// state, the symbol read, a colon and what the rule does.
pub open spec fn rule_text(table: Seq<TuringCountRule>, t: int) -> Seq<char> {
    seq![' ', state_name(states_of(table), (t / 2) as nat), symbol_char(t % 2 == 1), ':']
        + action_text(states_of(table), table[t])
}

/// The first `upto` rules of a table written out one after the other.
pub open spec fn table_text(table: Seq<TuringCountRule>, upto: int) -> Seq<char>
    decreases upto,
{
    if upto <= 0 {
        Seq::empty()
    } else {
        table_text(table, upto - 1) + rule_text(table, upto - 1)
    }
}

impl TuringCountProgram {
    /// Adds what `rule` does to `text`.
    fn push_action(&self, text: &mut String, rule: &TuringCountRule)
        requires
            self.rules@.len() == self.nstates,
            self.nstates <= 10,
            rule.new_state <= self.nstates,
        ensures
            final(text)@ == old(text)@ + action_text(self.nstates as nat, *rule),
    {
        if rule.new_state == self.nstates {
            push_char(text, 'H');
            push_char(text, 'A');
            push_char(text, 'L');
            push_char(text, 'T');
            assert(text@ =~= old(text)@ + action_text(self.nstates as nat, *rule));
        } else {
            push_char(
                text,
                if rule.tape_value {
                    '1'
                } else {
                    '0'
                },
            );
            push_char(
                text,
                if rule.move_right {
                    '>'
                } else {
                    '<'
                },
            );
            push_char(text, get_state_name(self.nstates, rule.new_state));
            assert(text@ =~= old(text)@ + action_text(self.nstates as nat, *rule));
        }
    }

    /// The machine written out: for each state and each symbol the rule, as
    /// a space, the letter of the state, the symbol read, a colon, and `HALT`
    /// or the symbol written, the direction and the letter of the new state.
    pub fn to_text(&self) -> (text: String)
        requires
            states_of(self@) <= 10,
        ensures
            text@ == table_text(self@, self@.len() as int),
    {
        proof {
            use_type_invariant(self);
        }
        let ghost table = self@;
        let mut text = String::new();
        let mut i: usize = 0;
        while i < self.nstates
            invariant
                table == self@,
                self.rules@.len() == self.nstates,
                self.nstates <= 10,
                states_of(table) == self.nstates,
                forall|q: int, v: int|
                    0 <= q < self.rules@.len() && 0 <= v < 2 ==> (
                    #[trigger] self.rules@[q]@[v]).new_state <= self.nstates,
                i <= self.nstates,
                text@ == table_text(table, 2 * i),
            decreases self.nstates - i,
        {
            let mut v: usize = 0;
            while v < 2
                invariant
                    table == self@,
                    self.rules@.len() == self.nstates,
                    self.nstates <= 10,
                    states_of(table) == self.nstates,
                    forall|q: int, v: int|
                        0 <= q < self.rules@.len() && 0 <= v < 2 ==> (
                        #[trigger] self.rules@[q]@[v]).new_state <= self.nstates,
                    i < self.nstates,
                    v <= 2,
                    text@ == table_text(table, 2 * i + v),
                decreases 2 - v,
            {
                let rule = self.rules[i][v];
                let ghost before = text@;
                assert((2 * i + v) / 2 == i as int && (2 * i + v) % 2 == v as int);
                assert(rule == table[2 * i + v]);
                push_char(&mut text, ' ');
                push_char(&mut text, get_state_name(self.nstates, i));
                push_char(
                    &mut text,
                    if v == 1 {
                        '1'
                    } else {
                        '0'
                    },
                );
                push_char(&mut text, ':');
                self.push_action(&mut text, &rule);
                assert(text@ =~= before + rule_text(table, 2 * i + v));
                v += 1;
            }
            i += 1;
        }
        text
    }
}

/// Where the first rules of two tables are written out the same, they are
/// equally many, and each rule is written out like its counterpart.
pub proof fn lemma_same_text_same_rules(
    t1: Seq<TuringCountRule>,
    t2: Seq<TuringCountRule>,
    upto1: int,
    upto2: int,
)
    requires
        is_table(t1),
        is_table(t2),
        states_of(t1) <= 10,
        states_of(t2) <= 10,
        0 <= upto1 <= t1.len(),
        0 <= upto2 <= t2.len(),
        table_text(t1, upto1) == table_text(t2, upto2),
    ensures
        upto1 == upto2,
        forall|t: int| 0 <= t < upto1 ==> rule_text(t1, t) == rule_text(t2, t),
    decreases upto1,
{
    if upto1 == 0 {
        if upto2 > 0 {
            assert(table_text(t2, upto2).len() > 0);
        }
    } else {
        let a = rule_text(t1, upto1 - 1);
        let head1 = table_text(t1, upto1 - 1);
        assert(table_text(t1, upto1).len() == head1.len() + a.len());
        assert(upto2 > 0);
        let b = rule_text(t2, upto2 - 1);
        let head2 = table_text(t2, upto2 - 1);
        let whole = table_text(t1, upto1);
        assert(whole == head1 + a);
        assert(whole == head2 + b);
        assert(a.last() == whole.last());
        assert(b.last() == whole.last());
        assert(a.len() == b.len());
        assert forall|i: int| 0 <= i < a.len() implies a[i] == b[i] by {
            assert(a[i] == whole[head1.len() + i]);
            assert(b[i] == whole[head2.len() + i]);
        }
        assert(a =~= b);
        assert forall|i: int| 0 <= i < head1.len() implies head1[i] == head2[i] by {
            assert(head1[i] == whole[i]);
            assert(head2[i] == whole[i]);
        }
        assert(head1 =~= head2);
        lemma_same_text_same_rules(t1, t2, upto1 - 1, upto2 - 1);
    }
}

/// The text form of a canonical machine loses nothing: two canonical
/// machines of at most ten states that are written out the same are the
/// same machine.
pub proof fn lemma_table_text_is_lossless(t1: Seq<TuringCountRule>, t2: Seq<TuringCountRule>)
    requires
        is_table(t1),
        is_table(t2),
        is_canonical(t1, states_of(t1)),
        is_canonical(t2, states_of(t2)),
        states_of(t1) <= 10,
        states_of(t2) <= 10,
        table_text(t1, t1.len() as int) == table_text(t2, t2.len() as int),
    ensures
        t1 == t2,
{
    lemma_same_text_same_rules(t1, t2, t1.len() as int, t2.len() as int);
    let n = states_of(t1);
    assert forall|t: int| 0 <= t < t1.len() implies t1[t] == t2[t] by {
        let a = rule_text(t1, t);
        let b = rule_text(t2, t);
        assert(a == b);
        let r1 = t1[t];
        let r2 = t2[t];
        assert(rule_is_canonical(r1, n) && rule_is_canonical(r2, n));
        assert(a[4] == b[4]);
        if r1.new_state != n {
            assert(a[5] == b[5]);
            assert(a[6] == b[6]);
        }
    }
    assert(t1 =~= t2);
}

} // verus!
