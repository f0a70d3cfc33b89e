//! The two enumerations of the Turing machines agree: the one that numbers the
//! canonical machines and the one that tries every table hand out the same
//! machines, and so lead to the same counts of the outputs.
use crate::aggregate::{aggregate, lemma_same_programs_same_counts, observations};
use crate::arith::{
    comes_from, compose, digit, digits, lemma_composed_of_digits, lemma_digits_of_composed,
    lemma_power_positive,
};
use crate::search::{can_be_searched, search_from};
use crate::turing_count::{
    is_canonical, is_table, machine, machine_count, machines_from, naive_choices, naive_count,
    naive_machine, naive_machines_from, naive_rule, rule_choices, rule_is_canonical,
    rule_of_digit, states_of, TuringCount, TuringCountGenerator, TuringCountNaiveGenerator,
    TuringCountRule,
};
use vstd::prelude::*;

verus! {

/// The number of a rule in the numbering of the canonical machines.
pub open spec fn rule_code(rule: TuringCountRule) -> int {
    4 * rule.new_state + if rule.tape_value {
        2int
    } else {
        0int
    } + if rule.move_right {
        1int
    } else {
        0int
    }
}

/// The number of a rule in the exhaustive enumeration for `n` states.
pub open spec fn naive_rule_code(rule: TuringCountRule, n: nat) -> int {
    rule.new_state + (n + 1) * (if rule.tape_value {
        1int
    } else {
        0int
    } + if rule.move_right {
        2int
    } else {
        0int
    })
}

/// A canonical rule is the rule with its number.
pub proof fn lemma_rule_of_code(rule: TuringCountRule, n: nat)
    requires
        rule.new_state <= n,
        rule_is_canonical(rule, n),
    ensures
        0 <= rule_code(rule) < rule_choices(n),
        rule_of_digit(rule_code(rule)) == rule,
{
}

/// The rule with a number below the number of rules is canonical and has that number.
pub proof fn lemma_code_of_rule(d: int, n: nat)
    requires
        0 <= d < rule_choices(n),
        n <= usize::MAX,
    ensures
        rule_of_digit(d).new_state <= n,
        rule_is_canonical(rule_of_digit(d), n),
        rule_code(rule_of_digit(d)) == d,
{
}

/// A rule that does not lead beyond the halting state is the rule with its
/// number in the exhaustive enumeration.
pub proof fn lemma_naive_rule_of_code(rule: TuringCountRule, n: nat)
    requires
        rule.new_state <= n,
    ensures
        0 <= naive_rule_code(rule, n) < naive_choices(n),
        naive_rule(naive_rule_code(rule, n), n) == rule,
{
    let m = (n + 1) as int;
    let c: int = if rule.tape_value {
        1int
    } else {
        0int
    } + if rule.move_right {
        2int
    } else {
        0int
    };
    let d = naive_rule_code(rule, n);
    assert(m * c == c * m) by (nonlinear_arith);
    assert(0 <= c * m <= 3 * m) by (nonlinear_arith)
        requires
            0 <= c <= 3,
            m >= 1,
    ;
    vstd::arithmetic::div_mod::lemma_fundamental_div_mod_converse(d, m, c, rule.new_state as int);
}

/// The rule with a number of the exhaustive enumeration does not lead beyond
/// the halting state and has that number.
pub proof fn lemma_naive_code_of_rule(d: int, n: nat)
    requires
        0 <= d < naive_choices(n),
        n <= usize::MAX,
    ensures
        naive_rule(d, n).new_state <= n,
        naive_rule_code(naive_rule(d, n), n) == d,
{
    let m = (n + 1) as int;
    let c = d / m;
    vstd::arithmetic::div_mod::lemma_fundamental_div_mod(d, m);
    vstd::arithmetic::div_mod::lemma_div_pos_is_pos(d, m);
    assert(c < 4) by (nonlinear_arith)
        requires
            d == m * c + d % m,
            0 <= d % m,
            d < 4 * m,
            m >= 1,
    ;
    assert(0 <= d % m < m);
}

/// The numbers of the rules of a table.
pub open spec fn rule_codes(table: Seq<TuringCountRule>) -> Seq<int> {
    Seq::new(table.len(), |t: int| rule_code(table[t]))
}

/// The numbers of the rules of a table in the exhaustive enumeration.
pub open spec fn naive_rule_codes(table: Seq<TuringCountRule>) -> Seq<int> {
    Seq::new(table.len(), |t: int| naive_rule_code(table[t], states_of(table)))
}

/// The number of a canonical machine among those of its number of states.
pub open spec fn machine_index(table: Seq<TuringCountRule>) -> int {
    compose(rule_codes(table), rule_choices(states_of(table)))
}

/// The number of a table in the exhaustive enumeration for its number of states.
pub open spec fn naive_machine_index(table: Seq<TuringCountRule>) -> int {
    compose(naive_rule_codes(table), naive_choices(states_of(table)))
}

/// The machine with a number is canonical and has that number.
pub proof fn lemma_index_of_machine(n: nat, idx: nat)
    requires
        n <= usize::MAX,
        idx < machine_count(n),
    ensures
        states_of(machine(n, idx)) == n,
        is_table(machine(n, idx)),
        is_canonical(machine(n, idx), n),
        machine_index(machine(n, idx)) == idx,
{
    let table = machine(n, idx);
    let b = rule_choices(n);
    assert forall|t: int| 0 <= t < table.len() implies (#[trigger] table[t]).new_state <= n
        && rule_is_canonical(table[t], n) && rule_codes(table)[t] == digits(idx, b, 2 * n)[t] by {
        lemma_power_positive(b, t as nat);
        lemma_code_of_rule(digit(idx, b, t as nat), n);
    }
    assert(rule_codes(table) =~= digits(idx, b, 2 * n));
    lemma_composed_of_digits(idx, b, 2 * n);
}

/// A canonical machine has a number, and is the machine with that number.
pub proof fn lemma_machine_of_index(table: Seq<TuringCountRule>)
    requires
        is_table(table),
        is_canonical(table, states_of(table)),
    ensures
        0 <= machine_index(table) < machine_count(states_of(table)),
        machine(states_of(table), machine_index(table) as nat) == table,
{
    let n = states_of(table);
    let b = rule_choices(n);
    let codes = rule_codes(table);
    assert forall|t: int| 0 <= t < codes.len() implies 0 <= #[trigger] codes[t] < b by {
        lemma_rule_of_code(table[t], n);
    }
    lemma_digits_of_composed(codes, b);
    let idx = machine_index(table) as nat;
    assert forall|t: int| 0 <= t < table.len() implies machine(n, idx)[t] == table[t] by {
        assert(digit(idx, b, t as nat) == codes[t]);
        lemma_rule_of_code(table[t], n);
    }
    assert(machine(n, idx) =~= table);
}

/// The table with a number in the exhaustive enumeration has that number.
pub proof fn lemma_index_of_naive_machine(n: nat, idx: nat)
    requires
        n <= usize::MAX,
        idx < naive_count(n),
    ensures
        states_of(naive_machine(n, idx)) == n,
        is_table(naive_machine(n, idx)),
        naive_machine_index(naive_machine(n, idx)) == idx,
{
    let table = naive_machine(n, idx);
    let b = naive_choices(n);
    assert forall|t: int| 0 <= t < table.len() implies (#[trigger] table[t]).new_state <= n
        && naive_rule_codes(table)[t] == digits(idx, b, 2 * n)[t] by {
        lemma_power_positive(b, t as nat);
        lemma_naive_code_of_rule(digit(idx, b, t as nat), n);
    }
    assert(naive_rule_codes(table) =~= digits(idx, b, 2 * n));
    lemma_composed_of_digits(idx, b, 2 * n);
}

/// A table has a number in the exhaustive enumeration, and is the table with
/// that number.
pub proof fn lemma_naive_machine_of_index(table: Seq<TuringCountRule>)
    requires
        is_table(table),
    ensures
        0 <= naive_machine_index(table) < naive_count(states_of(table)),
        naive_machine(states_of(table), naive_machine_index(table) as nat) == table,
{
    let n = states_of(table);
    let b = naive_choices(n);
    let codes = naive_rule_codes(table);
    assert forall|t: int| 0 <= t < codes.len() implies 0 <= #[trigger] codes[t] < b by {
        lemma_naive_rule_of_code(table[t], n);
    }
    lemma_digits_of_composed(codes, b);
    let idx = naive_machine_index(table) as nat;
    assert forall|t: int| 0 <= t < table.len() implies naive_machine(n, idx)[t] == table[t] by {
        assert(digit(idx, b, t as nat) == codes[t]);
        lemma_naive_rule_of_code(table[t], n);
    }
    assert(naive_machine(n, idx) =~= table);
}

/// How often the enumeration by numbers holds an entry: once where it is a
/// canonical machine of a size and a number in the range, with the weight 1,
/// and else not at all.
pub proof fn lemma_machines_from_count(
    max_states: nat,
    n: nat,
    idx: nat,
    table: Seq<TuringCountRule>,
    weight: usize,
)
    requires
        max_states <= usize::MAX,
    ensures
        machines_from(max_states, n, idx).to_multiset().count((table, weight)) == (if weight == 1
            && is_table(table) && is_canonical(table, states_of(table)) && comes_from(
            max_states,
            n,
            idx,
            states_of(table),
            machine_index(table),
        ) {
            1nat
        } else {
            0nat
        }),
    decreases max_states + 1 - n, machine_count(n) - idx,
{
    let all = machines_from(max_states, n, idx);
    let x = (table, weight);
    let canonical = weight == 1 && is_table(table) && is_canonical(table, states_of(table));
    if canonical {
        lemma_machine_of_index(table);
    }
    if n > max_states {
        all.to_multiset_ensures();
        assert(all.len() == 0);
        assert(all.to_multiset().len() == 0);
        assert(all.to_multiset().count(x) == 0);
    } else if idx >= machine_count(n) {
        lemma_machines_from_count(max_states, n + 1, 0, table, weight);
    } else {
        let e = (machine(n, idx), 1usize);
        let rest = machines_from(max_states, n, idx + 1);
        lemma_machines_from_count(max_states, n, idx + 1, table, weight);
        lemma_index_of_machine(n, idx);
        vstd::seq_lib::lemma_multiset_commutative(seq![e], rest);
        seq![e].to_multiset_ensures();
        Seq::<(Seq<TuringCountRule>, usize)>::empty().to_multiset_ensures();
        assert(seq![e] =~= Seq::<(Seq<TuringCountRule>, usize)>::empty().push(e));
        assert(seq![e].to_multiset().count(x) == if x == e {
            1nat
        } else {
            0nat
        });
    }
}

/// How often the exhaustive enumeration holds an entry: once where it is a
/// canonical machine of a size and a number in the range, with the weight 1,
/// and else not at all.
pub proof fn lemma_naive_machines_from_count(
    max_states: nat,
    n: nat,
    idx: nat,
    table: Seq<TuringCountRule>,
    weight: usize,
)
    requires
        max_states <= usize::MAX,
    ensures
        naive_machines_from(max_states, n, idx).to_multiset().count((table, weight)) == (if weight
            == 1 && is_table(table) && is_canonical(table, states_of(table)) && comes_from(
            max_states,
            n,
            idx,
            states_of(table),
            naive_machine_index(table),
        ) {
            1nat
        } else {
            0nat
        }),
    decreases max_states + 1 - n, naive_count(n) - idx,
{
    let all = naive_machines_from(max_states, n, idx);
    let x = (table, weight);
    let canonical = weight == 1 && is_table(table) && is_canonical(table, states_of(table));
    if is_table(table) {
        lemma_naive_machine_of_index(table);
    }
    if n > max_states {
        all.to_multiset_ensures();
        assert(all.len() == 0);
        assert(all.to_multiset().len() == 0);
        assert(all.to_multiset().count(x) == 0);
    } else if idx >= naive_count(n) {
        lemma_naive_machines_from_count(max_states, n + 1, 0, table, weight);
    } else {
        lemma_naive_machines_from_count(max_states, n, idx + 1, table, weight);
        lemma_index_of_naive_machine(n, idx);
        if is_canonical(naive_machine(n, idx), n) {
            let e = (naive_machine(n, idx), 1usize);
            let rest = naive_machines_from(max_states, n, idx + 1);
            vstd::seq_lib::lemma_multiset_commutative(seq![e], rest);
            seq![e].to_multiset_ensures();
            Seq::<(Seq<TuringCountRule>, usize)>::empty().to_multiset_ensures();
            assert(seq![e] =~= Seq::<(Seq<TuringCountRule>, usize)>::empty().push(e));
            assert(seq![e].to_multiset().count(x) == if x == e {
                1nat
            } else {
                0nat
            });
        }
    }
}

/// The two enumerations hand out the same machines, each once: the one by
/// numbers and the exhaustive one differ in the order only.
pub proof fn lemma_enumerations_agree(max_states: usize)
    ensures
        machines_from(max_states as nat, 1, 0).to_multiset() == naive_machines_from(
            max_states as nat,
            1,
            0,
        ).to_multiset(),
{
    let first = machines_from(max_states as nat, 1, 0).to_multiset();
    let second = naive_machines_from(max_states as nat, 1, 0).to_multiset();
    assert forall|x: (Seq<TuringCountRule>, usize)| first.count(x) == second.count(x) by {
        lemma_machines_from_count(max_states as nat, 1, 0, x.0, x.1);
        lemma_naive_machines_from_count(max_states as nat, 1, 0, x.0, x.1);
        if is_table(x.0) {
            lemma_naive_machine_of_index(x.0);
            if is_canonical(x.0, states_of(x.0)) {
                lemma_machine_of_index(x.0);
            }
        }
    }
    assert(first =~= second);
}

/// The two enumeration strategies lead to the same statistics of the outputs:
/// the counts after running and registering every machine that the
/// enumeration by numbers hands out are the counts after doing so with every
/// machine that the exhaustive enumeration hands out.
pub proof fn lemma_strategies_agree(comp: TuringCount, max_states: usize, max_steps: usize)
    ensures
        aggregate::<TuringCount>(
            observations(comp, machines_from(max_states as nat, 1, 0), max_steps),
        ).counts == aggregate::<TuringCount>(
            observations(comp, naive_machines_from(max_states as nat, 1, 0), max_steps),
        ).counts,
{
    lemma_enumerations_agree(max_states);
    lemma_same_programs_same_counts::<TuringCount>(
        comp,
        machines_from(max_states as nat, 1, 0),
        naive_machines_from(max_states as nat, 1, 0),
        max_steps,
    );
}

/// Searches the machines of up to `max_states` states with both enumerations
/// and says whether the counts of the outputs are the same. They always are:
/// where both searches can be carried out the answer is `Some(true)`, and
/// else it is `None`.
pub fn strategies_match(max_states: usize, max_steps: usize) -> (r: Option<bool>)
    ensures
        r == (if TuringCountGenerator::fits(max_states) && TuringCountNaiveGenerator::fits(
            max_states,
        ) && can_be_searched(
            TuringCount {  },
            machines_from(max_states as nat, 1, 0),
            max_steps,
        ) && can_be_searched(
            TuringCount {  },
            naive_machines_from(max_states as nat, 1, 0),
            max_steps,
        ) {
            Some(true)
        } else {
            None
        }),
{
    if !TuringCountGenerator::admits(max_states) || !TuringCountNaiveGenerator::admits(
        max_states,
    ) {
        return None;
    }
    let comp = TuringCount::new();
    let by_number = search_from(&comp, TuringCountGenerator::new(max_states), max_steps);
    let by_trial = search_from(&comp, TuringCountNaiveGenerator::new(max_states), max_steps);
    match (by_number, by_trial) {
        (Some(first), Some(second)) => {
            proof {
                lemma_strategies_agree(comp, max_states, max_steps);
            }
            Some(first.matches_outputs(&second))
        },
        _ => None,
    }
}

} // verus!
