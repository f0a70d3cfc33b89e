use arrayvec::ArrayVec;
use busy_beaver::brainfuck::{compile, BfNaiveGenerator, BfRawInstruction, BfSource, Instruction};
use busy_beaver::def::{Generator, Sized};

fn source(text: &str) -> BfSource {
    let mut items = ArrayVec::new();
    for c in text.chars() {
        items.push(match c {
            '+' => BfRawInstruction::Plus,
            '-' => BfRawInstruction::Minus,
            '.' => BfRawInstruction::Print,
            '<' => BfRawInstruction::Left,
            '>' => BfRawInstruction::Right,
            '[' => BfRawInstruction::StartLoop,
            ']' => BfRawInstruction::EndLoop,
            _ => panic!("not an instruction"),
        });
    }
    BfSource(items)
}

fn all_texts(mut generator: BfNaiveGenerator) -> Vec<String> {
    let mut texts = Vec::new();
    while let Some((program, weight)) = generator.next() {
        assert_eq!(weight, 1);
        texts.push(program.to_text());
    }
    texts
}

#[test]
fn source_renders_each_instruction_by_its_glyph() {
    assert_eq!(source("+-.<>[]").to_text(), "+-.<>[]");
    assert_eq!(source("").to_text(), "");
}

#[test]
fn source_size_is_its_length() {
    assert_eq!(source("").size(), 0);
    assert_eq!(source("+[.]").size(), 4);
}

#[test]
fn source_clone_keeps_the_text() {
    let first = source("+[>.<]");
    let copy = first.clone();
    assert_eq!(copy.to_text(), "+[>.<]");
    assert_eq!(copy.size(), 6);
}

#[test]
fn paired_loops_are_recognised() {
    assert!(source("").is_balanced());
    assert!(source("+.").is_balanced());
    assert!(source("[]").is_balanced());
    assert!(source("[[]][]").is_balanced());
    assert!(source("+[>[-]<]").is_balanced());
}

#[test]
fn unpaired_loops_are_recognised() {
    assert!(!source("[").is_balanced());
    assert!(!source("]").is_balanced());
    assert!(!source("][").is_balanced());
    assert!(!source("[]]").is_balanced());
    assert!(!source("[[]").is_balanced());
}

#[test]
fn compile_resolves_nested_jumps() {
    let program = compile(&source("+[>[-]<]"));
    let expected = [
        Instruction::Plus,
        Instruction::StartLoop(8),
        Instruction::Right,
        Instruction::StartLoop(6),
        Instruction::Minus,
        Instruction::EndLoop(3),
        Instruction::Left,
        Instruction::EndLoop(1),
    ];
    assert_eq!(program.as_slice(), &expected[..]);
}

#[test]
fn compile_resolves_loops_side_by_side() {
    let program = compile(&source("[][.]"));
    let expected = [
        Instruction::StartLoop(2),
        Instruction::EndLoop(0),
        Instruction::StartLoop(5),
        Instruction::Print,
        Instruction::EndLoop(2),
    ];
    assert_eq!(program.as_slice(), &expected[..]);
}

#[test]
fn compiled_jumps_agree_with_a_bracket_counter() {
    let mut generator = BfNaiveGenerator::new(6, false, true);
    while let Some((program, _)) = generator.next() {
        let compiled = compile(&program);
        for (p, inst) in compiled.iter().enumerate() {
            if let Instruction::StartLoop(target) = *inst {
                let mut open = 0;
                let mut q = p;
                loop {
                    match program.0[q] {
                        BfRawInstruction::StartLoop => open += 1,
                        BfRawInstruction::EndLoop => open -= 1,
                        _ => {}
                    }
                    q += 1;
                    if open == 0 {
                        break;
                    }
                }
                assert_eq!(target, q);
                assert_eq!(compiled[target - 1], Instruction::EndLoop(p));
            }
            if let Instruction::EndLoop(target) = *inst {
                assert_eq!(compiled[target], Instruction::StartLoop(p + 1));
            }
        }
    }
}

#[test]
fn generator_lists_texts_by_length_then_number() {
    let texts = all_texts(BfNaiveGenerator::new(2, false, true));
    let expected = [
        "+", ".", "<", ">", "++", "+.", "+<", "+>", ".+", "..", ".<", ".>", "<+", "<.", "<<",
        "<>", ">+", ">.", "><", ">>", "[]",
    ];
    assert_eq!(texts, expected);
}

#[test]
fn generator_with_decrement_uses_its_alphabet() {
    let texts = all_texts(BfNaiveGenerator::new(1, true, false));
    assert_eq!(texts, ["+", "-", "<", ">"]);
    let texts = all_texts(BfNaiveGenerator::new(1, true, true));
    assert_eq!(texts, ["+", "-", ".", "<", ">"]);
    let texts = all_texts(BfNaiveGenerator::new(1, false, false));
    assert_eq!(texts, ["+", "<", ">"]);
}

#[test]
fn generator_counts_follow_the_recurrence() {
    // count[0] = 1, count[L] = 4 * count[L - 1] + sum of count[k] * count[L - k - 2]
    let expected = [4usize, 17, 76, 354];
    let texts = all_texts(BfNaiveGenerator::new(4, false, true));
    for (i, want) in expected.iter().enumerate() {
        assert_eq!(texts.iter().filter(|t| t.len() == i + 1).count(), *want);
    }
    assert_eq!(texts.len(), 451);
}

#[test]
fn generator_hands_out_only_paired_texts_once_each() {
    let texts = all_texts(BfNaiveGenerator::new(5, true, false));
    for pair in texts.windows(2) {
        assert!(pair[0].len() <= pair[1].len());
        assert_ne!(pair[0], pair[1]);
    }
    let mut sorted = texts.clone();
    sorted.sort();
    sorted.dedup();
    assert_eq!(sorted.len(), texts.len());
    for text in texts.iter() {
        assert!(source(text).is_balanced());
    }
    assert!(texts.contains(&"[[]]".to_string()));
    assert!(texts.contains(&"[][]".to_string()));
    assert!(texts.contains(&"+[-]".to_string()));
}

#[test]
fn generator_stays_empty_once_it_is_exhausted() {
    let mut generator = BfNaiveGenerator::new(1, false, true);
    for _ in 0..4 {
        assert!(generator.next().is_some());
    }
    assert!(generator.next().is_none());
    assert!(generator.next().is_none());
    let mut empty = BfNaiveGenerator::new(0, false, true);
    assert!(empty.next().is_none());
    assert!(empty.next().is_none());
}

#[test]
fn generator_gives_the_same_sequence_again() {
    let first = all_texts(BfNaiveGenerator::new(4, true, false));
    let second = all_texts(BfNaiveGenerator::new(4, true, false));
    assert_eq!(first, second);
}

#[test]
fn source_is_built_from_a_slice_that_fits() {
    let built = BfSource::from_slice(&[
        BfRawInstruction::Plus,
        BfRawInstruction::StartLoop,
        BfRawInstruction::Minus,
        BfRawInstruction::EndLoop,
    ]);
    assert_eq!(built.map(|s| s.to_text()), Some("+[-]".to_string()));
    assert_eq!(BfSource::from_slice(&[]).map(|s| s.to_text()), Some(String::new()));
    assert!(BfSource::from_slice(&[BfRawInstruction::Plus; 28]).is_some());
    assert!(BfSource::from_slice(&[BfRawInstruction::Plus; 29]).is_none());
}
