use busy_beaver::bf_successor::BfSuccessorGenerator;
use busy_beaver::brainfuck::BfNaiveGenerator;
use busy_beaver::def::Generator;

fn successor_texts(max_len: usize, has_minus: bool, has_print: bool) -> Vec<String> {
    let mut generator = BfSuccessorGenerator::new(max_len, has_minus, has_print);
    let mut texts = Vec::new();
    while let Some((program, weight)) = generator.next() {
        assert_eq!(weight, 1);
        texts.push(program.to_text());
    }
    assert!(generator.next().is_none());
    assert!(generator.next().is_none());
    texts
}

fn trial_texts(max_len: usize, has_minus: bool, has_print: bool) -> Vec<String> {
    let mut generator = BfNaiveGenerator::new(max_len, has_minus, has_print);
    let mut texts = Vec::new();
    while let Some((program, _)) = generator.next() {
        texts.push(program.to_text());
    }
    texts
}

#[test]
fn successor_generator_lists_texts_by_length_then_number() {
    let texts = successor_texts(2, false, true);
    let expected = [
        "+", ".", "<", ">", "++", "+.", "+<", "+>", ".+", "..", ".<", ".>", "<+", "<.", "<<",
        "<>", ">+", ">.", "><", ">>", "[]",
    ];
    assert_eq!(texts, expected);
}

#[test]
fn successor_closes_the_open_loops_at_the_end() {
    let texts = successor_texts(4, false, true);
    let at = |text: &str| match texts.iter().position(|t| t == text) {
        Some(place) => place,
        None => panic!("the text is handed out"),
    };
    assert_eq!(texts[at("+>>>") + 1], "+>[]");
    assert_eq!(texts[at(">>>>") + 1], ">>[]");
    assert_eq!(texts[at(">>[]") + 1], ">[+]");
    assert_eq!(texts[at(">[>]") + 1], ">[]+");
    assert_eq!(texts[at("[>>]") + 1], "[>]+");
    assert_eq!(texts[at("[>]>") + 1], "[[]]");
    assert_eq!(texts[at("[[]]") + 1], "[]++");
    assert_eq!(texts[at("[]>>") + 1], "[][]");
    assert_eq!(texts.last().map(|t| t.as_str()), Some("[][]"));
    assert_eq!(texts[at(">>>") + 1], ">[]");
    assert_eq!(texts[at(">[]") + 1], "[+]");
    assert_eq!(texts[at("[]>") + 1], "++++");
}

#[test]
fn successor_generator_hands_out_the_sequence_of_the_exhaustive_one() {
    for (has_minus, has_print) in [(false, true), (true, false), (true, true), (false, false)] {
        for max_len in 0..7 {
            assert_eq!(
                successor_texts(max_len, has_minus, has_print),
                trial_texts(max_len, has_minus, has_print)
            );
        }
    }
}

#[test]
fn successor_generator_needs_no_numbering() {
    let mut generator = BfSuccessorGenerator::new(28, true, true);
    let mut count = 0;
    let mut last = String::new();
    while count < 100000 {
        match generator.next() {
            Some((program, _)) => last = program.to_text(),
            None => panic!("there are more texts"),
        }
        count += 1;
    }
    // 5, 26, 140, 777, 4425 and 25755 texts have the lengths 1 to 6
    assert_eq!(last.len(), 7);
}

#[test]
fn successor_generator_of_nothing_is_empty() {
    assert!(successor_texts(0, false, true).is_empty());
}
