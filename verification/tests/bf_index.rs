use busy_beaver::bf_count::BfCount;
use busy_beaver::bf_agree::strategies_match;
use busy_beaver::bf_index::BfIndexGenerator;
use busy_beaver::bf_num0::BfNum0;
use busy_beaver::brainfuck::BfNaiveGenerator;
use busy_beaver::def::Generator;

fn index_texts(max_len: usize, has_minus: bool, has_print: bool) -> Vec<String> {
    let mut generator = match BfIndexGenerator::new(max_len, has_minus, has_print) {
        Some(generator) => generator,
        None => panic!("the counts fit"),
    };
    let mut texts = Vec::new();
    while let Some((program, weight)) = generator.next() {
        assert_eq!(weight, 1);
        texts.push(program.to_text());
    }
    assert!(generator.next().is_none());
    texts
}

fn exhaustive_texts(max_len: usize, has_minus: bool, has_print: bool) -> Vec<String> {
    let mut generator = BfNaiveGenerator::new(max_len, has_minus, has_print);
    let mut texts = Vec::new();
    while let Some((program, _)) = generator.next() {
        texts.push(program.to_text());
    }
    texts
}

#[test]
fn index_generator_lists_plain_heads_before_loops() {
    let texts = index_texts(2, false, true);
    let expected = [
        "+", ".", "<", ">", "++", "+.", "+<", "+>", ".+", "..", ".<", ".>", "<+", "<.", "<<",
        "<>", ">+", ">.", "><", ">>", "[]",
    ];
    assert_eq!(texts, expected);
}

#[test]
fn index_generator_orders_loops_by_the_length_of_the_body() {
    let texts = index_texts(3, false, true);
    let of_three: Vec<&String> = texts.iter().filter(|t| t.len() == 3).collect();
    assert_eq!(of_three.len(), 76);
    // 4 * 17 texts begin with a plain instruction, then come the loops
    assert_eq!(of_three[0], "+++");
    assert_eq!(of_three[16], "+[]");
    assert_eq!(of_three[67], ">[]");
    assert_eq!(&of_three[68..], ["[]+", "[].", "[]<", "[]>", "[+]", "[.]", "[<]", "[>]"]);
}

#[test]
fn index_generator_counts_follow_the_recurrence() {
    let expected = [4usize, 17, 76, 354, 1704];
    let texts = index_texts(5, false, true);
    for (i, want) in expected.iter().enumerate() {
        assert_eq!(texts.iter().filter(|t| t.len() == i + 1).count(), *want);
    }
    for pair in texts.windows(2) {
        assert!(pair[0].len() <= pair[1].len());
    }
}

#[test]
fn index_generator_hands_out_the_texts_of_the_exhaustive_one() {
    for (has_minus, has_print) in [(false, true), (true, false), (true, true), (false, false)] {
        for max_len in 0..6 {
            let mut first = index_texts(max_len, has_minus, has_print);
            let mut second = exhaustive_texts(max_len, has_minus, has_print);
            first.sort();
            second.sort();
            assert_eq!(first, second);
        }
    }
}

#[test]
fn index_generator_is_refused_where_the_counts_do_not_fit() {
    assert!(BfIndexGenerator::new(29, false, true).is_none());
    assert!(BfIndexGenerator::new(28, true, true).is_none());
    assert!(BfIndexGenerator::new(12, true, true).is_some());
    assert!(BfIndexGenerator::new(0, false, false).is_some());
}

#[test]
fn text_strategies_give_the_same_counts() {
    for max_len in 0..7 {
        assert_eq!(strategies_match(&BfCount::new(), false, true, max_len, 1000), Some(true));
        assert_eq!(strategies_match(&BfNum0::new(), true, false, max_len, 1000), Some(true));
    }
}

#[test]
fn text_strategies_are_not_compared_where_a_search_cannot_be_carried_out() {
    assert_eq!(strategies_match(&BfCount::new(), false, true, 29, 10), None);
    assert_eq!(strategies_match(&BfCount::new(), true, false, 1, 10), None);
    assert_eq!(strategies_match(&BfNum0::new(), true, false, 2, usize::MAX), None);
}

#[test]
fn index_generator_reaches_a_text_by_its_number() {
    let mut generator = match BfIndexGenerator::new(5, false, true) {
        Some(generator) => generator,
        None => panic!("the counts fit"),
    };
    let texts = index_texts(5, false, true);
    assert_eq!(texts.len(), 4 + 17 + 76 + 354 + 1704);
    for index in [0, 1, 3, 4, 20, 21, 96, 97, 450, 451, 2000, 2154] {
        assert_eq!(generator.nth(index).map(|p| p.to_text()), Some(texts[index].clone()));
    }
    assert!(generator.nth(2155).is_none());
    assert!(generator.nth(usize::MAX).is_none());
    assert!(generator.next().is_some());
    assert_eq!(generator.nth(0).map(|p| p.to_text()), Some("+".to_string()));
    assert_eq!(generator.nth(2154).map(|p| p.to_text()), Some("[[>]]".to_string()));
}
