use unit_splitter_core::group::Group;
use unit_splitter_core::range::Range;

#[test]
fn group_it_works() {
    let range = Range::new(1, 50);
    let _group = Group::new("A".into(), vec![range]);
}

#[test]
fn format_no_name() {
    let group = Group::new("".into(), vec![Range::new(1, 50), Range::num(61)]);
    let mut s = String::new();
    group.write_to_string(&mut s);
    assert_eq!(s, "1-50,61");
}

#[test]
fn format_with_name() {
    let group = Group::new("A".into(), vec![Range::new(1, 50), Range::num(61)]);
    let mut s = String::new();
    group.write_to_string(&mut s);
    assert_eq!(s, "A=1-50,61");
}

#[test]
fn group_count_sums_ranges() {
    let group = Group::new("A".into(), vec![Range::new(1, 7), Range::num(9), Range::new(20, 29)]);
    assert_eq!(group.count(), 7 + 1 + 10);
}

#[test]
fn rendered_group_parses_back() {
    // a concrete round trip: render, re-parse, compare
    let group = Group::new("A".into(), vec![Range::new(1, 50), Range::num(61)]);
    let mut s = String::new();
    group.write_to_string(&mut s);
    let parsed = unit_splitter_core::inventory::parse(&s).expect("rendering parses back");
    assert_eq!(parsed, vec![group]);
}

#[test]
fn rendered_unnamed_group_parses_back() {
    let group = Group::new("".into(), vec![Range::new(2, 4), Range::num(9)]);
    let mut s = String::new();
    group.write_to_string(&mut s);
    let parsed = unit_splitter_core::inventory::parse(&s).expect("rendering parses back");
    assert_eq!(parsed, vec![group]);
}
