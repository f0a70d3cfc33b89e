use arrayvec::ArrayVec;
use busy_beaver::bf_count::BfCount;
use busy_beaver::brainfuck::{BfNaiveGenerator, BfRawInstruction, BfSource};
use busy_beaver::def::{CompSystem2, Generator, ProgResult};
use busy_beaver::stat::Stat;

fn source(text: &str) -> BfSource {
    let mut items = ArrayVec::new();
    for c in text.chars() {
        items.push(match c {
            '+' => BfRawInstruction::Plus,
            '.' => BfRawInstruction::Print,
            '<' => BfRawInstruction::Left,
            '>' => BfRawInstruction::Right,
            '[' => BfRawInstruction::StartLoop,
            ']' => BfRawInstruction::EndLoop,
            _ => panic!("not an instruction of this machine"),
        });
    }
    BfSource(items)
}

fn run(text: &str, max_steps: usize) -> ProgResult<u64> {
    BfCount::new().execute(&source(text), max_steps)
}

#[test]
fn bf_count_results_match() {
    let comp = BfCount::new();

    for max_size in 1..9 {
        let mut gen1 = comp.generate(max_size);
        let mut stat1: Stat<BfCount> = Stat::new();

        while let Some((program, weight)) = gen1.next() {
            let result = comp.execute(&program, 1000);
            stat1.register(&program, &result, weight);
        }

        let mut gen2 = BfNaiveGenerator::new(max_size, false, true);
        let mut stat2: Stat<BfCount> = Stat::new();

        while let Some((program, weight)) = gen2.next() {
            let result = comp.execute(&program, 1000);
            stat2.register(&program, &result, weight);
        }

        assert!(stat1.matches_outputs(&stat2));
    }
}

#[test]
fn flip_then_output_gives_one_in_two_steps() {
    for budget in [2, 3, 10, 1000] {
        assert!(matches!(run("+.", budget), ProgResult::Out { output: 1, steps: 2 }));
    }
}

#[test]
fn a_budget_below_the_length_times_out() {
    assert!(matches!(run("+.", 1), ProgResult::Timeout));
    assert!(matches!(run("+.", 0), ProgResult::Timeout));
}

#[test]
fn left_move_at_the_start_is_an_error_whatever_the_budget() {
    for budget in [0, 1, 2, 1000] {
        assert!(matches!(run("<", budget), ProgResult::Error));
        assert!(matches!(run("<+.", budget), ProgResult::Error));
    }
}

#[test]
fn left_move_at_the_origin_later_is_an_error() {
    assert!(matches!(run("><<", 1000), ProgResult::Error));
    assert!(matches!(run("><", 1000), ProgResult::Out { output: 0, steps: 2 }));
}

#[test]
fn straight_text_runs_one_step_for_each_instruction() {
    assert!(matches!(run("", 0), ProgResult::Out { output: 0, steps: 0 }));
    assert!(matches!(run("++++", 4), ProgResult::Out { output: 0, steps: 4 }));
    assert!(matches!(run("....", 4), ProgResult::Out { output: 4, steps: 4 }));
    assert!(matches!(run("+.>.+.", 6), ProgResult::Out { output: 3, steps: 6 }));
    assert!(matches!(run("+.>.+.", 1000), ProgResult::Out { output: 3, steps: 6 }));
    assert!(matches!(run("+.>.+.", 5), ProgResult::Timeout));
}

#[test]
fn loop_is_skipped_on_an_unset_cell() {
    assert!(matches!(run("[.]", 1000), ProgResult::Out { output: 0, steps: 1 }));
    assert!(matches!(run("[.].", 1000), ProgResult::Out { output: 1, steps: 2 }));
}

#[test]
fn loop_runs_until_the_cell_is_unset() {
    assert!(matches!(run("+[.+]", 1000), ProgResult::Out { output: 1, steps: 6 }));
    assert!(matches!(run("+[.+]", 6), ProgResult::Out { output: 1, steps: 6 }));
    assert!(matches!(run("+[.+]", 5), ProgResult::Timeout));
}

#[test]
fn endless_loop_times_out() {
    assert!(matches!(run("+[.]", 1000), ProgResult::Timeout));
    assert!(matches!(run("+[]", 7), ProgResult::Timeout));
}

#[test]
fn nested_loops_follow_their_jumps() {
    // cell 0 set, cell 1 set: the inner loop clears cell 1, the outer loop clears cell 0.
    assert!(matches!(run("+>+<[>[.+]<+]", 1000), ProgResult::Out { output: 1, steps: 15 }));
}

#[test]
fn only_positive_outputs_count() {
    assert!(!BfCount::valid_output(&0));
    assert!(BfCount::valid_output(&1));
    assert!(BfCount::valid_output(&u64::MAX));
}

#[test]
fn tape_is_extended_with_unset_cells() {
    let mut tape = vec![true];
    BfCount::maybe_extend_tape(&mut tape, 3);
    assert_eq!(tape, [true, false, false, false]);
    BfCount::maybe_extend_tape(&mut tape, 1);
    assert_eq!(tape, [true, false, false, false]);
    let mut empty: Vec<bool> = Vec::new();
    BfCount::maybe_extend_tape(&mut empty, 0);
    assert_eq!(empty, [false]);
}

#[test]
fn best_outputs_of_short_texts() {
    let comp = BfCount::new();
    let mut generator = comp.generate(3);
    let mut stat: Stat<BfCount> = Stat::new();
    let mut best = 0;
    while let Some((program, weight)) = generator.next() {
        let result = comp.execute(&program, 1000);
        if let ProgResult::Out { output, .. } = result {
            if output > best {
                best = output;
            }
        }
        stat.register(&program, &result, weight);
    }
    assert_eq!(best, 3);
    assert_eq!(stat.outputs.get(&3).map(|s| s.min_program.to_text()), Some("...".to_string()));
    assert_eq!(stat.outputs.get(&3).map(|s| s.count), Some(1));
    assert_eq!(stat.runs(), &vec![0, 4, 17, 76]);
}
