use unit_splitter_core::group::Group;
use unit_splitter_core::inventory::{parse, InventoryParseError, OwnedSpan};
use unit_splitter_core::range::Range;

#[test]
fn inventory_one_group() {
    let result = parse("A=1-50");
    let expected = vec![Group::new("A".to_string(), vec![Range::new(1, 50)])];
    assert_eq!(result, Ok(expected));
}

#[test]
fn inventory_no_groups() {
    let result = parse("1-50");
    let expected = vec![Group::new("".to_string(), vec![Range::new(1, 50)])];
    assert_eq!(result, Ok(expected));
}

#[test]
fn inventory_first_group_is_unnamed() {
    let result = parse("1-50, B=51-100, C=101-150");
    let expected = vec![
        Group::new("".to_string(), vec![Range::new(1, 50)]),
        Group::new("B".to_string(), vec![Range::new(51, 100)]),
        Group::new("C".to_string(), vec![Range::new(101, 150)]),
    ];
    assert_eq!(result, Ok(expected));
}

#[test]
fn inventory_multiple_groups() {
    let result = parse("A=1-50, B=51-100, C=101-150");
    let expected = vec![
        Group::new("A".to_string(), vec![Range::new(1, 50)]),
        Group::new("B".to_string(), vec![Range::new(51, 100)]),
        Group::new("C".to_string(), vec![Range::new(101, 150)]),
    ];
    assert_eq!(result, Ok(expected));
}

#[test]
fn inventory_multiple_ranges() {
    let result = parse("1-7,8,10,11-50");
    let expected = vec![Group::new(
        "".to_string(),
        vec![
            Range::new(1, 7),
            Range::new(8, 8),
            Range::new(10, 10),
            Range::new(11, 50),
        ],
    )];
    assert_eq!(result, Ok(expected));
}

#[test]
fn inventory_ambiguous_group_unit_name() {
    let result = parse("995N=1-50, 998N=51-100");
    let expected = vec![
        Group::new("995N".to_string(), vec![Range::new(1, 50)]),
        Group::new("998N".to_string(), vec![Range::new(51, 100)]),
    ];
    assert_eq!(result, Ok(expected));
}

#[test]
fn inventory_group_name_is_a_number() {
    let result = parse("995=1-50, 998=51-100");
    let expected = vec![
        Group::new("995".to_string(), vec![Range::new(1, 50)]),
        Group::new("998".to_string(), vec![Range::new(51, 100)]),
    ];
    assert_eq!(result, Ok(expected));
}

#[test]
fn parse_units_into_types() {
    let result = parse("1-10,12");
    let expected = vec![Group::new(
        "".to_string(),
        vec![Range::new(1, 10), Range::num(12)],
    )];
    assert_eq!(result, Ok(expected));
}

#[test]
fn overlapping_ranges() {
    let result = parse("1-10,5");
    assert_eq!(
        result,
        Err(vec![InventoryParseError::OverlappingRange {
            first: OwnedSpan::new(0, 4, "1-10".into()),
            overlap: OwnedSpan::new(5, 6, "5".into()),
        }])
    );
}

#[test]
fn duplicate_groups() {
    let result = parse("A=1-10, A=11-20");
    assert_eq!(
        result,
        Err(vec![InventoryParseError::DuplicateGroup {
            first: OwnedSpan::new(0, 1, "A".into()),
            duplicate: OwnedSpan::new(8, 9, "A".into()),
        }])
    );
}

#[test]
fn decreasing_range() {
    let result = parse("20-11");
    assert_eq!(
        result,
        Err(vec![InventoryParseError::DecreasingRange {
            range: OwnedSpan::new(0, 5, "20-11".into()),
        }])
    );
}

#[test]
fn errors_accumulate() {
    // a decreasing range and an overlap are both reported from one parse
    let result = parse("A=20-11,1-10,5");
    assert_eq!(
        result,
        Err(vec![
            InventoryParseError::DecreasingRange {
                range: OwnedSpan::new(2, 7, "20-11".into()),
            },
            InventoryParseError::OverlappingRange {
                first: OwnedSpan::new(8, 12, "1-10".into()),
                overlap: OwnedSpan::new(13, 14, "5".into()),
            },
        ])
    );
}

#[test]
fn overlap_reported_across_groups_is_not_an_error() {
    // groups are independent unit pools: the same numbers may recur
    let result = parse("A=1-10, B=5-15");
    assert!(result.is_ok());
}

#[test]
fn adjacent_ranges_do_not_overlap() {
    let result = parse("1-5,6-10");
    assert!(result.is_ok());
}

#[test]
fn empty_input_is_a_syntax_error() {
    let result = parse("");
    match result {
        Err(errors) => {
            assert_eq!(errors.len(), 1);
            assert!(matches!(
                errors[0],
                InventoryParseError::Syntax { position: 0, .. }
            ));
        }
        Ok(_) => panic!("empty input must not parse"),
    }
}

#[test]
fn group_without_units_is_a_syntax_error() {
    let result = parse("A=");
    match result {
        Err(errors) => {
            assert_eq!(errors.len(), 1);
            assert!(matches!(errors[0], InventoryParseError::Syntax { .. }));
        }
        Ok(_) => panic!("a group needs at least one unit"),
    }
}

#[test]
fn unit_number_too_large_is_a_syntax_error() {
    let result = parse("A=99999999999");
    match result {
        Err(errors) => {
            assert_eq!(errors.len(), 1);
            assert!(matches!(errors[0], InventoryParseError::Syntax { .. }));
        }
        Ok(_) => panic!("the number does not fit a unit number"),
    }
}

#[test]
fn counts_equal_distinct_units() {
    // every unit written once: counts sum to the number of distinct units
    let groups = parse("1-7,8,10,11-50").expect("parses");
    let total: u32 = groups.iter().map(|g| g.count()).sum();
    assert_eq!(total, 49);
}
