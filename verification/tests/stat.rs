use arrayvec::ArrayVec;
use busy_beaver::bf_count::BfCount;
use busy_beaver::brainfuck::{BfRawInstruction, BfSource};
use busy_beaver::def::ProgResult;
use busy_beaver::stat::{total_of, Stat};

fn text(glyphs: &str) -> BfSource {
    let mut items = ArrayVec::new();
    for c in glyphs.chars() {
        items.push(match c {
            '+' => BfRawInstruction::Plus,
            '.' => BfRawInstruction::Print,
            '<' => BfRawInstruction::Left,
            '>' => BfRawInstruction::Right,
            '[' => BfRawInstruction::StartLoop,
            ']' => BfRawInstruction::EndLoop,
            _ => panic!("not an instruction of this machine"),
        });
    }
    BfSource(items)
}

fn out(output: u64, steps: usize) -> ProgResult<u64> {
    ProgResult::Out { output, steps }
}

#[test]
fn new_statistics_hold_nothing() {
    let stat: Stat<BfCount> = Stat::new();
    assert_eq!(stat.error_count(), 0);
    assert_eq!(stat.timeout_count(), 0);
    assert_eq!(stat.invalid_output_count(), 0);
    assert!(stat.outputs.is_empty());
    assert!(stat.runs().is_empty());
}

#[test]
fn registering_twice_doubles_the_count_and_is_new_only_once() {
    let mut stat: Stat<BfCount> = Stat::new();
    let program = text("+.");
    assert!(stat.register(&program, &out(1, 2), 3));
    assert_eq!(stat.outputs.get(&1).map(|s| s.count), Some(3));
    assert!(!stat.register(&program, &out(1, 2), 3));
    assert_eq!(stat.outputs.get(&1).map(|s| s.count), Some(6));
    assert_eq!(stat.outputs.len(), 1);
    assert_eq!(stat.runs(), &vec![0, 0, 2]);
}

#[test]
fn errors_and_timeouts_add_their_weights() {
    let mut stat: Stat<BfCount> = Stat::new();
    assert!(!stat.register(&text("<"), &ProgResult::Error, 2));
    assert!(!stat.register(&text("<"), &ProgResult::Error, 2));
    assert!(!stat.register(&text("+[]"), &ProgResult::Timeout, 5));
    assert_eq!(stat.error_count(), 4);
    assert_eq!(stat.timeout_count(), 5);
    assert_eq!(stat.invalid_output_count(), 0);
    assert!(stat.outputs.is_empty());
    assert_eq!(stat.runs(), &vec![0, 2, 0, 1]);
}

#[test]
fn outputs_that_do_not_count_are_tallied_apart() {
    let mut stat: Stat<BfCount> = Stat::new();
    assert!(!stat.register(&text("+"), &out(0, 1), 4));
    assert!(!stat.register(&text("+"), &out(0, 1), 4));
    assert_eq!(stat.invalid_output_count(), 8);
    assert!(stat.outputs.is_empty());
    assert_eq!(stat.runs(), &vec![0, 2]);
}

#[test]
fn the_first_program_of_an_output_stays_its_witness() {
    let mut stat: Stat<BfCount> = Stat::new();
    assert!(stat.register(&text(".."), &out(2, 2), 1));
    assert!(!stat.register(&text("+.."), &out(2, 3), 1));
    assert!(!stat.register(&text(">.."), &out(2, 3), 1));
    assert!(stat.register(&text("..."), &out(3, 3), 1));
    assert_eq!(stat.outputs.get(&2).map(|s| s.min_program.to_text()), Some("..".to_string()));
    assert_eq!(stat.outputs.get(&2).map(|s| s.count), Some(3));
    assert_eq!(stat.outputs.get(&3).map(|s| s.min_program.to_text()), Some("...".to_string()));
    assert_eq!(stat.outputs.get(&3).map(|s| s.count), Some(1));
    assert_eq!(stat.runs(), &vec![0, 0, 1, 3]);
}

#[test]
fn weight_zero_still_records_the_output() {
    let mut stat: Stat<BfCount> = Stat::new();
    assert!(stat.register(&text("."), &out(1, 1), 0));
    assert!(!stat.register(&text("."), &out(1, 1), 0));
    assert_eq!(stat.outputs.get(&1).map(|s| s.count), Some(0));
}

#[test]
fn statistics_match_on_equal_counts_whatever_the_order() {
    let mut first: Stat<BfCount> = Stat::new();
    first.register(&text("."), &out(1, 1), 1);
    first.register(&text(".."), &out(2, 2), 1);
    first.register(&text("+."), &out(1, 2), 1);
    first.register(&text("<"), &ProgResult::Error, 1);
    let mut second: Stat<BfCount> = Stat::new();
    second.register(&text("+."), &out(1, 2), 2);
    second.register(&text(".."), &out(2, 2), 1);
    assert!(first.matches_outputs(&second));
    assert!(second.matches_outputs(&first));
    assert!(first.matches_outputs(&first));
}

#[test]
fn statistics_differ_on_a_count_or_an_output() {
    let mut first: Stat<BfCount> = Stat::new();
    first.register(&text("."), &out(1, 1), 1);
    let mut second: Stat<BfCount> = Stat::new();
    second.register(&text("."), &out(1, 1), 2);
    assert!(!first.matches_outputs(&second));
    let mut third: Stat<BfCount> = Stat::new();
    third.register(&text("."), &out(1, 1), 1);
    third.register(&text(".."), &out(2, 2), 1);
    assert!(!first.matches_outputs(&third));
    assert!(!third.matches_outputs(&first));
    let empty: Stat<BfCount> = Stat::new();
    assert!(!first.matches_outputs(&empty));
    assert!(!empty.matches_outputs(&first));
    assert!(empty.matches_outputs(&empty));
}

#[test]
fn room_is_refused_where_a_counter_would_overflow() {
    let mut stat: Stat<BfCount> = Stat::new();
    assert!(stat.has_room(&text("."), &out(1, 1), usize::MAX));
    stat.register(&text("."), &out(1, 1), usize::MAX);
    assert!(!stat.has_room(&text("."), &out(1, 1), 1));
    assert!(stat.has_room(&text("."), &out(1, 1), 0));
    assert!(stat.has_room(&text(".."), &out(2, 2), usize::MAX));
    assert!(stat.has_room(&text("<"), &ProgResult::Error, usize::MAX));
    stat.register(&text("<"), &ProgResult::Error, 1);
    assert!(!stat.has_room(&text("<"), &ProgResult::Error, usize::MAX));
    assert!(stat.has_room(&text("<"), &ProgResult::Timeout, usize::MAX));
    assert!(stat.has_room(&text("+"), &out(0, 1), usize::MAX));
}

#[test]
fn rows_come_in_the_ascending_order_of_the_outputs() {
    let mut stat: Stat<BfCount> = Stat::new();
    for (glyphs, output, weight) in [("...", 3, 1), (".", 1, 2), (".....", 5, 1), ("..", 2, 4), ("+.", 1, 3)] {
        stat.register(&text(glyphs), &out(output, glyphs.len()), weight);
    }
    stat.register(&text("<"), &ProgResult::Error, 1);
    stat.register(&text("+"), &out(0, 1), 1);
    assert_eq!(stat.rows(), [(1, 5), (2, 4), (3, 1), (5, 1)]);
    let empty: Stat<BfCount> = Stat::new();
    assert!(empty.rows().is_empty());
}

#[test]
fn witness_and_count_are_read_by_output() {
    let mut stat: Stat<BfCount> = Stat::new();
    stat.register(&text(".."), &out(2, 2), 3);
    stat.register(&text("+.."), &out(2, 3), 4);
    assert_eq!(stat.count(&2), Some(7));
    assert_eq!(stat.witness(&2).map(|p| p.to_text()), Some("..".to_string()));
    assert_eq!(stat.count(&1), None);
    assert!(stat.witness(&1).is_none());
}

#[test]
fn total_is_the_sum_of_the_counts() {
    let mut stat: Stat<BfCount> = Stat::new();
    assert_eq!(total_of(&stat.rows()), Some(0));
    stat.register(&text("."), &out(1, 1), 5);
    stat.register(&text(".."), &out(2, 2), 7);
    stat.register(&text("<"), &ProgResult::Error, 100);
    assert_eq!(total_of(&stat.rows()), Some(12));
    stat.register(&text("..."), &out(3, 3), usize::MAX - 12);
    assert_eq!(total_of(&stat.rows()), Some(usize::MAX));
    stat.register(&text("...."), &out(4, 4), 1);
    assert_eq!(total_of(&stat.rows()), None);
}
