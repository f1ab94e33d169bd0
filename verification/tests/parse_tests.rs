use std::collections::HashSet;
use unit_splitter_core::group::Group;
use unit_splitter_core::inventory;
use unit_splitter_core::parse::{find_overlaps, Token, Tokenizer};
use unit_splitter_core::range::Range;

fn collect_tokens(source: &str) -> Vec<Token<'_>> {
    let mut tokenizer = Tokenizer::new(source);
    let mut tokens = Vec::new();
    loop {
        match tokenizer.get_next_token() {
            Ok(Some(token)) => tokens.push(token),
            Ok(None) => break,
            Err(pos) => panic!("unexpected character at {}", pos),
        }
    }
    tokens
}

#[test]
fn parse_one_group() {
    let expected = Group::new("A".into(), vec![Range::new(1, 50)]);
    assert_eq!(inventory::parse("A=1-50"), Ok(vec![expected]));
}

#[test]
fn parse_no_groups() {
    let expected = Group::new("".into(), vec![Range::new(1, 50)]);
    assert_eq!(inventory::parse("1-50"), Ok(vec![expected]));
}

#[test]
fn parse_first_group_is_unnamed() {
    let expected = vec![
        Group::new("".into(), vec![Range::new(1, 50)]),
        Group::new("B".into(), vec![Range::new(51, 100)]),
        Group::new("C".into(), vec![Range::new(101, 150)]),
    ];
    assert_eq!(inventory::parse("1-50, B=51-100, C=101-150"), Ok(expected));
}

#[test]
fn parse_multiple_groups() {
    let expected = vec![
        Group::new("A".into(), vec![Range::new(1, 50)]),
        Group::new("B".into(), vec![Range::new(51, 100)]),
        Group::new("C".into(), vec![Range::new(101, 150)]),
    ];
    assert_eq!(inventory::parse("A=1-50, B=51-100, C=101-150"), Ok(expected));
}

#[test]
fn parse_multiple_ranges() {
    let expected = Group::new(
        "".into(),
        vec![
            Range::new(1, 7),
            Range::new(8, 8),
            Range::new(10, 10),
            Range::new(11, 50),
        ],
    );
    assert_eq!(inventory::parse("1-7,8,10,11-50"), Ok(vec![expected]));
}

#[test]
fn parse_ambiguous_group_unit_name() {
    let expected = vec![
        Group::new("995N".into(), vec![Range::new(1, 50)]),
        Group::new("998N".into(), vec![Range::new(51, 100)]),
    ];
    assert_eq!(inventory::parse("995N=1-50, 998N=51-100"), Ok(expected));
}

#[test]
fn parse_group_name_is_a_number() {
    let expected = vec![
        Group::new("995".into(), vec![Range::new(1, 50)]),
        Group::new("998".into(), vec![Range::new(51, 100)]),
    ];
    assert_eq!(inventory::parse("995=1-50, 998=51-100"), Ok(expected));
}

#[test]
fn overlapping_ranges_are_detected() {
    let ranges = vec![Range::new(1, 50), Range::new(51, 100), Range::new(50, 50)];
    assert_eq!(find_overlaps(&ranges).len(), 1);
}

#[test]
fn geeksforgeeks_example() {
    let ranges = vec![
        Range::new(1, 5),
        Range::new(3, 7),
        Range::new(2, 6),
        Range::new(10, 15),
        Range::new(5, 6),
        Range::new(4, 100),
    ];

    let mut conflicts = HashSet::new();
    conflicts.insert((Range::new(3, 7), Range::new(1, 5)));
    conflicts.insert((Range::new(2, 6), Range::new(1, 5)));
    conflicts.insert((Range::new(2, 6), Range::new(3, 7)));
    conflicts.insert((Range::new(5, 6), Range::new(1, 5)));
    conflicts.insert((Range::new(5, 6), Range::new(3, 7)));
    conflicts.insert((Range::new(5, 6), Range::new(2, 6)));
    conflicts.insert((Range::new(4, 100), Range::new(1, 5)));
    conflicts.insert((Range::new(4, 100), Range::new(3, 7)));
    conflicts.insert((Range::new(4, 100), Range::new(2, 6)));
    conflicts.insert((Range::new(4, 100), Range::new(10, 15)));
    conflicts.insert((Range::new(4, 100), Range::new(5, 6)));

    let overlaps: HashSet<(Range, Range)> = find_overlaps(&ranges).into_iter().collect();

    println!("Expected Conflicts:");
    for c in conflicts.iter() {
        println!(
            "\t[{},{}] should conflict with [{},{}]",
            c.0.first(),
            c.0.last(),
            c.1.first(),
            c.1.last()
        );
    }

    println!("\nConflicts:");
    for c in overlaps.iter() {
        println!(
            "\t[{},{}] conflicts with [{},{}]",
            c.0.first(),
            c.0.last(),
            c.1.first(),
            c.1.last()
        );
    }

    assert_eq!(overlaps, conflicts);
}

#[test]
fn tokenize_first_group_is_unnamed() {
    let source = "1-50, B=51-100, C=101-150";
    let expected = vec![
        Token::number(&source, 0, 1),
        Token::hyphen(&source, 1),
        Token::number(&source, 2, 2),
        Token::name(&source, 6, 1),
        Token::equals(&source, 7),
        Token::number(&source, 8, 2),
        Token::hyphen(&source, 10),
        Token::number(&source, 11, 3),
        Token::name(&source, 16, 1),
        Token::equals(&source, 17),
        Token::number(&source, 18, 3),
        Token::hyphen(&source, 21),
        Token::number(&source, 22, 3),
    ];
    for expected_token in expected.iter() {
        println!(
            "({}, {}): {}",
            expected_token.start_pos(),
            expected_token.text().len(),
            expected_token.text()
        );
    }
    let tokens: Vec<Token> = collect_tokens(&source);
    assert_eq!(tokens, expected);
}

#[test]
fn invalid_missing_group_name() {
    let input = "=1-10";
    let _tokens: Vec<Token> = collect_tokens(input);
}

#[test]
fn index_reports_overlap_and_no_false_overlap() {
    // [1,5] then [3,7] must conflict; [1,5] then [6,10] must not
    assert!(inventory::parse("1-5,3-7").is_err());
    assert!(inventory::parse("1-5,6-10").is_ok());
    assert_eq!(find_overlaps(&[Range::new(1, 5), Range::new(3, 7)]).len(), 1);
    assert_eq!(find_overlaps(&[Range::new(1, 5), Range::new(6, 10)]).len(), 0);
}
