use arrayvec::ArrayVec;
use busy_beaver::bf_num0::BfNum0;
use busy_beaver::brainfuck::{BfNaiveGenerator, BfRawInstruction, BfSource};
use busy_beaver::def::{CompSystem2, Generator, ProgResult};
use busy_beaver::stat::Stat;

fn numeric(text: &str) -> BfSource {
    let mut items = ArrayVec::new();
    for c in text.chars() {
        items.push(match c {
            '+' => BfRawInstruction::Plus,
            '-' => BfRawInstruction::Minus,
            '<' => BfRawInstruction::Left,
            '>' => BfRawInstruction::Right,
            '[' => BfRawInstruction::StartLoop,
            ']' => BfRawInstruction::EndLoop,
            _ => panic!("not an instruction of this machine"),
        });
    }
    BfSource(items)
}

fn run_numeric(text: &str, max_steps: usize) -> ProgResult<i64> {
    BfNum0::new().execute(&numeric(text), max_steps)
}

#[test]
fn bf_num0_results_match() {
    let comp = BfNum0::new();

    for max_size in 1..9 {
        let mut gen1 = comp.generate(max_size);
        let mut stat1: Stat<BfNum0> = Stat::new();

        while let Some((program, weight)) = gen1.next() {
            let result = comp.execute(&program, 1000);
            stat1.register(&program, &result, weight);
        }

        let mut gen2 = BfNaiveGenerator::new(max_size, true, false);
        let mut stat2: Stat<BfNum0> = Stat::new();

        while let Some((program, weight)) = gen2.next() {
            let result = comp.execute(&program, 1000);
            stat2.register(&program, &result, weight);
        }

        assert!(stat1.matches_outputs(&stat2));
    }
}

#[test]
fn increments_give_their_number_in_as_many_steps() {
    assert!(matches!(run_numeric("+", 1), ProgResult::Out { output: 1, steps: 1 }));
    assert!(matches!(run_numeric("+++", 3), ProgResult::Out { output: 3, steps: 3 }));
    assert!(matches!(run_numeric("+++", 1000), ProgResult::Out { output: 3, steps: 3 }));
    assert!(matches!(run_numeric("+++", 2), ProgResult::Timeout));
}

#[test]
fn a_first_cell_that_is_not_positive_is_an_error() {
    assert!(matches!(run_numeric("", 1000), ProgResult::Error));
    assert!(matches!(run_numeric("-", 1000), ProgResult::Error));
    assert!(matches!(run_numeric("+-", 1000), ProgResult::Error));
    assert!(matches!(run_numeric(">+", 1000), ProgResult::Error));
    assert!(matches!(run_numeric("+[-]", 1000), ProgResult::Error));
}

#[test]
fn numeric_left_move_at_the_start_is_an_error_whatever_the_budget() {
    for budget in [0, 1, 2, 1000] {
        assert!(matches!(run_numeric("<", budget), ProgResult::Error));
        assert!(matches!(run_numeric("<+", budget), ProgResult::Error));
    }
}

#[test]
fn the_output_is_read_from_the_first_cell() {
    assert!(matches!(run_numeric("+>++", 1000), ProgResult::Out { output: 1, steps: 4 }));
    assert!(matches!(run_numeric("++-", 1000), ProgResult::Out { output: 1, steps: 3 }));
}

#[test]
fn numeric_loop_counts_down() {
    // cell 1 counts down from 2 and each round adds 2 to cell 0
    assert!(matches!(
        run_numeric(">++[<++>-]", 1000),
        ProgResult::Out { output: 4, steps: 18 }
    ));
    assert!(matches!(run_numeric(">++[<++>-]", 17), ProgResult::Timeout));
}

#[test]
fn numeric_loop_on_negative_cell_keeps_running() {
    assert!(matches!(run_numeric("-[-]", 1000), ProgResult::Timeout));
    assert!(matches!(run_numeric("-[+]", 1000), ProgResult::Error));
}

#[test]
fn numeric_only_positive_outputs_count() {
    assert!(!BfNum0::valid_output(&0));
    assert!(!BfNum0::valid_output(&-1));
    assert!(!BfNum0::valid_output(&i64::MIN));
    assert!(BfNum0::valid_output(&1));
}

#[test]
fn numeric_tape_is_extended_with_zeros() {
    let mut tape = vec![5, -2];
    BfNum0::maybe_extend_tape(&mut tape, 4);
    assert_eq!(tape, [5, -2, 0, 0, 0]);
    BfNum0::maybe_extend_tape(&mut tape, 0);
    assert_eq!(tape, [5, -2, 0, 0, 0]);
}

#[test]
fn numeric_compile_keeps_the_length() {
    let program = BfNum0::compile(&numeric("+[-]"));
    assert_eq!(program.len(), 4);
}

#[test]
fn best_numeric_outputs_of_short_texts() {
    let comp = BfNum0::new();
    let mut generator = comp.generate(4);
    let mut stat: Stat<BfNum0> = Stat::new();
    while let Some((program, weight)) = generator.next() {
        let result = comp.execute(&program, 1000);
        stat.register(&program, &result, weight);
    }
    let best = stat.outputs.keys().max().copied();
    assert_eq!(best, Some(4));
    assert_eq!(stat.outputs.get(&4).map(|s| s.min_program.to_text()), Some("++++".to_string()));
    assert_eq!(stat.outputs.get(&1).map(|s| s.min_program.to_text()), Some("+".to_string()));
    assert_eq!(stat.invalid_output_count(), 0);
}
