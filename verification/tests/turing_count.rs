use busy_beaver::def::{CompSystem2, Generator, ProgResult, Sized};
use busy_beaver::stat::Stat;
use busy_beaver::turing_count::{
    get_state_name, TuringCount, TuringCountGenerator, TuringCountNaiveGenerator,
    TuringCountProgram, TuringCountRule,
};

fn rule(new_state: usize, tape_value: bool, move_right: bool) -> TuringCountRule {
    TuringCountRule { new_state, tape_value, move_right }
}

fn machine(rules: Vec<[TuringCountRule; 2]>) -> TuringCountProgram {
    match TuringCountProgram::from_rules(rules) {
        Some(program) => program,
        None => panic!("a rule leads beyond the halting state"),
    }
}

#[test]
fn turing_count_results_match() {
    let comp = TuringCount::new();

    for max_size in 1..=3 {
        let mut gen1 = comp.generate(max_size);
        let mut stat1: Stat<TuringCount> = Stat::new();

        while let Some((program, weight)) = gen1.next() {
            let result = comp.execute(&program, 100);
            stat1.register(&program, &result, weight);
        }

        let mut gen2 = TuringCountNaiveGenerator::new(max_size);
        let mut stat2: Stat<TuringCount> = Stat::new();

        while let Some((program, weight)) = gen2.next() {
            let result = comp.execute(&program, 100);
            stat2.register(&program, &result, weight);
        }

        assert!(stat1.matches_outputs(&stat2));
    }
}

#[test]
fn machine_that_halts_at_once_gives_zero_in_one_step() {
    let halting = machine(vec![[rule(1, false, false), rule(1, false, false)]]);
    let comp = TuringCount::new();
    for budget in [1, 2, 100] {
        assert!(matches!(
            comp.execute(&halting, budget),
            ProgResult::Out { output: 0, steps: 1 }
        ));
    }
    assert!(matches!(comp.execute(&halting, 0), ProgResult::Timeout));
}

#[test]
fn machine_without_states_has_halted() {
    let empty = machine(Vec::new());
    assert!(matches!(
        TuringCount::new().execute(&empty, 0),
        ProgResult::Out { output: 0, steps: 0 }
    ));
}

#[test]
fn entries_into_the_first_state_are_counted() {
    // A0: 1>B  A1: HALT  B0: 1<A  B1: HALT
    let two = machine(vec![
        [rule(1, true, true), rule(2, false, false)],
        [rule(0, true, false), rule(2, false, false)],
    ]);
    let comp = TuringCount::new();
    assert!(matches!(comp.execute(&two, 100), ProgResult::Out { output: 1, steps: 3 }));
    assert!(matches!(comp.execute(&two, 3), ProgResult::Out { output: 1, steps: 3 }));
    assert!(matches!(comp.execute(&two, 2), ProgResult::Timeout));
}

#[test]
fn machine_that_stays_in_its_state_times_out() {
    let runner = machine(vec![[rule(0, true, true), rule(1, false, false)]]);
    assert!(matches!(TuringCount::new().execute(&runner, 100), ProgResult::Timeout));
}

#[test]
fn head_works_on_both_sides_of_the_origin() {
    // A0: 1<B  A1: 1>B  B0: 1>A  B1: HALT
    // A at 0 writes 1, goes left; B at -1 writes 1, goes right; A at 0 reads 1,
    // goes right; B at 1 writes 1, goes right; A at 2 writes 1, goes left; B at 1
    // reads 1 and halts.
    let both = machine(vec![
        [rule(1, true, false), rule(1, true, true)],
        [rule(0, true, true), rule(2, false, false)],
    ]);
    assert!(matches!(
        TuringCount::new().execute(&both, 100),
        ProgResult::Out { output: 2, steps: 6 }
    ));
}

#[test]
fn rules_beyond_the_halting_state_are_refused() {
    assert!(TuringCountProgram::from_rules(vec![[rule(2, false, false), rule(0, false, false)]])
        .is_none());
    assert!(TuringCountProgram::from_rules(vec![[rule(1, true, true), rule(0, false, false)]])
        .is_some());
}

#[test]
fn machine_size_is_its_number_of_states() {
    assert_eq!(machine(Vec::new()).size(), 0);
    let two = machine(vec![
        [rule(1, true, true), rule(2, false, false)],
        [rule(0, true, false), rule(2, false, false)],
    ]);
    assert_eq!(two.size(), 2);
    assert_eq!(two.clone().size(), 2);
}

#[test]
fn machine_is_written_out_rule_by_rule() {
    let two = machine(vec![
        [rule(1, true, true), rule(2, false, false)],
        [rule(0, true, false), rule(1, false, true)],
    ]);
    assert_eq!(two.to_text(), " A0:1>B A1:HALT B0:1<A B1:0>B");
    assert_eq!(two.clone().to_text(), " A0:1>B A1:HALT B0:1<A B1:0>B");
    assert_eq!(machine(Vec::new()).to_text(), "");
}

#[test]
fn states_are_named_by_letters() {
    assert_eq!(get_state_name(3, 0), 'A');
    assert_eq!(get_state_name(3, 2), 'C');
    assert_eq!(get_state_name(3, 3), 'Z');
    assert_eq!(get_state_name(10, 9), 'J');
    assert_eq!(get_state_name(10, 10), 'Z');
    assert_eq!(get_state_name(12, 12), 'Z');
}

#[test]
fn generator_numbers_the_machines_of_one_state() {
    let mut generator = TuringCountGenerator::new(1);
    let mut texts = Vec::new();
    while let Some((program, weight)) = generator.next() {
        assert_eq!(weight, 1);
        assert_eq!(program.size(), 1);
        texts.push(program.to_text());
    }
    assert_eq!(texts.len(), 25);
    assert_eq!(texts[0], " A0:0<A A1:0<A");
    assert_eq!(texts[1], " A0:0>A A1:0<A");
    assert_eq!(texts[2], " A0:1<A A1:0<A");
    assert_eq!(texts[3], " A0:1>A A1:0<A");
    assert_eq!(texts[4], " A0:HALT A1:0<A");
    assert_eq!(texts[5], " A0:0<A A1:0>A");
    assert_eq!(texts[24], " A0:HALT A1:HALT");
    assert!(generator.next().is_none());
    assert!(generator.next().is_none());
}

#[test]
fn generator_counts_the_machines_by_states() {
    let mut generator = TuringCountGenerator::new(2);
    let mut by_size = [0usize; 3];
    let mut last = 0;
    while let Some((program, _)) = generator.next() {
        assert!(last <= program.size());
        last = program.size();
        by_size[program.size()] += 1;
    }
    // (4 n + 1) to the power 2 n
    assert_eq!(by_size, [0, 25, 6561]);
}

#[test]
fn exhaustive_generator_keeps_the_canonical_machines() {
    let mut generator = TuringCountNaiveGenerator::new(1);
    let mut texts = Vec::new();
    while let Some((program, weight)) = generator.next() {
        assert_eq!(weight, 1);
        texts.push(program.to_text());
    }
    assert_eq!(texts.len(), 25);
    assert_eq!(texts[0], " A0:0<A A1:0<A");
    assert_eq!(texts[1], " A0:HALT A1:0<A");
    assert_eq!(texts[2], " A0:1<A A1:0<A");
    assert_eq!(texts[3], " A0:0>A A1:0<A");
    assert_eq!(texts[4], " A0:1>A A1:0<A");
    assert!(generator.next().is_none());
}

#[test]
fn both_generators_hand_out_the_same_machines() {
    for max_states in 0..3 {
        let mut first = Vec::new();
        let mut generator = TuringCountGenerator::new(max_states);
        while let Some((program, _)) = generator.next() {
            first.push(program.to_text());
        }
        let mut second = Vec::new();
        let mut naive = TuringCountNaiveGenerator::new(max_states);
        while let Some((program, _)) = naive.next() {
            second.push(program.to_text());
        }
        first.sort();
        second.sort();
        assert_eq!(first, second);
    }
}

#[test]
fn rule_is_taken_off_the_index() {
    let mut generator = TuringCountGenerator::new(2);
    let first = generator.next();
    assert!(first.is_some());
    // one state: five rules, the number 4 * new_state + 2 * symbol + direction
    let mut idx = 3 + 5 * 4;
    let low = generator.rule_from_idx(&mut idx);
    assert_eq!(low, rule(0, true, true));
    assert_eq!(idx, 4);
    let high = generator.rule_from_idx(&mut idx);
    assert_eq!(high, rule(1, false, false));
    assert_eq!(idx, 0);
}

#[test]
fn exhaustive_rule_is_taken_off_the_index() {
    let mut generator = TuringCountNaiveGenerator::new(2);
    assert!(generator.next().is_some());
    // one state: the new state modulo 2, then the symbol, then the direction
    let mut idx = 1 + 2 * 1 + 4 * 0 + 8 * 1;
    let low = generator.rule_from_idx(&mut idx);
    assert_eq!(low, rule(1, true, false));
    assert!(!generator.rule_is_valid(&low));
    assert_eq!(idx, 1);
    let high = generator.rule_from_idx(&mut idx);
    assert_eq!(high, rule(1, false, false));
    assert!(generator.rule_is_valid(&high));
    assert_eq!(idx, 0);
}

#[test]
fn turing_only_positive_outputs_count() {
    assert!(!TuringCount::valid_output(&0));
    assert!(TuringCount::valid_output(&7));
}

#[test]
fn both_strategies_give_the_same_counts() {
    assert_eq!(busy_beaver::turing_agree::strategies_match(0, 100), Some(true));
    assert_eq!(busy_beaver::turing_agree::strategies_match(1, 100), Some(true));
    assert_eq!(busy_beaver::turing_agree::strategies_match(2, 100), Some(true));
    assert_eq!(busy_beaver::turing_agree::strategies_match(2, 0), Some(true));
}

#[test]
fn strategies_are_not_compared_where_a_search_cannot_be_carried_out() {
    assert_eq!(busy_beaver::turing_agree::strategies_match(7, 100), None);
    assert_eq!(busy_beaver::turing_agree::strategies_match(1, usize::MAX), None);
}

#[test]
fn rule_is_written_out_with_the_number_of_its_state() {
    assert_eq!(rule(0, false, false).to_text(), "0(0)<");
    assert_eq!(rule(3, true, true).to_text(), "3(1)>");
    assert_eq!(rule(10, true, false).to_text(), "10(1)<");
    assert_eq!(rule(4095, false, true).to_text(), "4095(0)>");
}
