use busy_beaver::bf_count::BfCount;
use busy_beaver::bf_num0::BfNum0;
use busy_beaver::def::{CompSystem2, Generator, ProgResult};
use busy_beaver::search::{round, search, search_from, step_budget, Round};
use busy_beaver::stat::Stat;
use busy_beaver::turing_count::TuringCount;

#[test]
fn search_registers_every_program_of_the_enumeration() {
    let comp = BfCount::new();
    let found = match search(&comp, 5, 1000) {
        Some(stat) => stat,
        None => panic!("the search can be carried out"),
    };
    let mut by_hand: Stat<BfCount> = Stat::new();
    let mut generator = comp.generate(5);
    while let Some((program, weight)) = generator.next() {
        let result = comp.execute(&program, 1000);
        by_hand.register(&program, &result, weight);
    }
    assert!(found.matches_outputs(&by_hand));
    assert_eq!(found.error_count(), by_hand.error_count());
    assert_eq!(found.timeout_count(), by_hand.timeout_count());
    assert_eq!(found.invalid_output_count(), by_hand.invalid_output_count());
    assert_eq!(found.runs(), by_hand.runs());
    assert_eq!(found.runs(), &vec![0, 4, 17, 76, 354, 1704]);
}

#[test]
fn search_keeps_a_shortest_witness_for_each_output() {
    let comp = BfCount::new();
    let found = match search(&comp, 5, 1000) {
        Some(stat) => stat,
        None => panic!("the search can be carried out"),
    };
    let mut generator = comp.generate(5);
    while let Some((program, _)) = generator.next() {
        if let ProgResult::Out { output, .. } = comp.execute(&program, 1000) {
            if BfCount::valid_output(&output) {
                let witness = match found.outputs.get(&output) {
                    Some(entry) => entry.min_program.to_text(),
                    None => panic!("every output that counts is recorded"),
                };
                assert!(witness.len() <= program.to_text().len());
            }
        }
    }
    let rows = found.rows();
    assert_eq!(rows.first().map(|r| r.0), Some(1));
    assert_eq!(rows.last().map(|r| r.0), Some(5));
    assert_eq!(found.outputs.get(&5).map(|e| e.min_program.to_text()), Some(".....".to_string()));
}

#[test]
fn search_of_the_numeric_machine_finds_the_increments() {
    let found = match search(&BfNum0::new(), 4, 1000) {
        Some(stat) => stat,
        None => panic!("the search can be carried out"),
    };
    assert_eq!(found.rows().iter().map(|r| r.0).collect::<Vec<_>>(), [1, 2, 3, 4]);
    assert_eq!(found.outputs.get(&4).map(|e| e.count), Some(1));
}

#[test]
fn search_is_refused_where_the_model_cannot_run_for_the_budget() {
    assert!(search(&BfNum0::new(), 2, usize::MAX).is_none());
    assert!(search(&TuringCount::new(), 1, usize::MAX).is_none());
    assert!(search(&BfCount::new(), 2, usize::MAX).is_some());
}

#[test]
fn search_is_refused_where_the_programs_cannot_be_numbered() {
    assert!(search(&BfCount::new(), 29, 10).is_none());
    assert!(search(&BfCount::new(), 25, 10).is_none());
    assert!(search(&TuringCount::new(), 7, 10).is_none());
    assert!(search(&TuringCount::new(), usize::MAX, 10).is_none());
}

#[test]
fn limits_that_fit_are_admitted() {
    assert!(BfCount::new().admits(0));
    assert!(BfCount::new().admits(11));
    assert!(BfCount::new().admits(12));
    assert!(!BfCount::new().admits(29));
    assert!(BfNum0::new().admits(12));
    assert!(TuringCount::new().admits(0));
    assert!(TuringCount::new().admits(3));
    assert!(!TuringCount::new().admits(7));
}

#[test]
fn search_of_the_turing_machines_counts_entries_into_the_first_state() {
    let found = match search(&TuringCount::new(), 2, 100) {
        Some(stat) => stat,
        None => panic!("the search can be carried out"),
    };
    assert_eq!(found.runs(), &vec![0, 25, 6561]);
    assert_eq!(found.error_count(), 0);
    let rows = found.rows();
    assert_eq!(rows.first().map(|r| r.0), Some(1));
    for pair in rows.windows(2) {
        assert!(pair[0].0 < pair[1].0);
    }
}

#[test]
fn search_from_a_generator_goes_on_where_it_stands() {
    let comp = BfCount::new();
    let mut generator = comp.generate(2);
    for _ in 0..4 {
        assert!(generator.next().is_some());
    }
    let found = match search_from(&comp, generator, 1000) {
        Some(stat) => stat,
        None => panic!("the search can be carried out"),
    };
    assert_eq!(found.runs(), &vec![0, 0, 17]);
    assert_eq!(found.rows(), [(1, 4), (2, 1)]);
}

#[test]
fn step_budget_is_four_times_the_longest_run_and_a_thousand_at_least() {
    assert_eq!(step_budget(0), Some(1000));
    assert_eq!(step_budget(250), Some(1000));
    assert_eq!(step_budget(251), Some(1004));
    assert_eq!(step_budget(1000), Some(4000));
    assert_eq!(step_budget(usize::MAX / 4), Some(usize::MAX - 3));
    assert_eq!(step_budget(usize::MAX / 4 + 1), None);
}

#[test]
fn rounds_run_the_programs_one_by_one() {
    let comp = BfCount::new();
    let mut generator = comp.generate(1);
    let mut stat: Stat<BfCount> = Stat::new();
    let mut max_steps = 0;
    // "+" runs one step and gives no output that counts
    match round(&comp, &mut generator, &mut stat, &mut max_steps) {
        Round::Ran { program, result, new_output, longest } => {
            assert_eq!(program.to_text(), "+");
            assert!(matches!(result, ProgResult::Out { output: 0, steps: 1 }));
            assert!(!new_output);
            assert!(longest);
        }
        _ => panic!("a program was run"),
    }
    assert_eq!(max_steps, 1);
    // "." gives the output 1 in one step
    match round(&comp, &mut generator, &mut stat, &mut max_steps) {
        Round::Ran { program, result, new_output, longest } => {
            assert_eq!(program.to_text(), ".");
            assert!(matches!(result, ProgResult::Out { output: 1, steps: 1 }));
            assert!(new_output);
            assert!(!longest);
        }
        _ => panic!("a program was run"),
    }
    // "<" is an error
    match round(&comp, &mut generator, &mut stat, &mut max_steps) {
        Round::Ran { result, new_output, longest, .. } => {
            assert!(matches!(result, ProgResult::Error));
            assert!(!new_output);
            assert!(!longest);
        }
        _ => panic!("a program was run"),
    }
    assert!(matches!(round(&comp, &mut generator, &mut stat, &mut max_steps), Round::Ran { .. }));
    assert!(matches!(round(&comp, &mut generator, &mut stat, &mut max_steps), Round::Done));
    assert!(matches!(round(&comp, &mut generator, &mut stat, &mut max_steps), Round::Done));
    assert_eq!(max_steps, 1);
    assert_eq!(stat.error_count(), 1);
    assert_eq!(stat.invalid_output_count(), 2);
    assert_eq!(stat.rows(), [(1, 1)]);
}

#[test]
fn round_is_stuck_where_the_budget_is_too_large_for_the_model() {
    let comp = BfNum0::new();
    let mut generator = comp.generate(1);
    let mut stat: Stat<BfNum0> = Stat::new();
    let mut max_steps = usize::MAX / 8;
    assert!(matches!(round(&comp, &mut generator, &mut stat, &mut max_steps), Round::Stuck));
    let mut max_steps = usize::MAX;
    assert!(matches!(round(&comp, &mut generator, &mut stat, &mut max_steps), Round::Stuck));
    assert!(stat.rows().is_empty());
}
