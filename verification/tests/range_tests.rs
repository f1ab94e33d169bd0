use unit_splitter_core::range::Range;

#[test]
fn range_it_works() {
    let range = Range::new(1, 50);
    assert_eq!(range.count(), 50);
}

#[test]
fn count_of_one() {
    let range = Range::new(1, 1);
    assert_eq!(range.count(), 1);
}

#[test]
fn split() {
    let range = Range::new(1, 10);
    assert_eq!(
        range.split(5),
        (Some(Range::new(1, 5)), Some(Range::new(6, 10)), 0)
    );
}

#[test]
fn format_single() {
    let range = Range::new(696, 696);
    let mut s = String::new();
    range.write_to_string(&mut s);
    assert_eq!(s, "696");
}

#[test]
fn format_range() {
    let range = Range::new(1, 10);
    let mut s = String::new();
    range.write_to_string(&mut s);
    assert_eq!(s, "1-10");
}

#[test]
fn split_whole_range_with_deficit() {
    let range = Range::new(1, 10);
    assert_eq!(range.split(32), (Some(Range::new(1, 10)), None, 22));
}

#[test]
fn split_exact() {
    let range = Range::new(1, 10);
    assert_eq!(range.split(10), (Some(Range::new(1, 10)), None, 0));
}

#[test]
fn split_nothing() {
    let range = Range::new(1, 10);
    assert_eq!(range.split(0), (None, Some(Range::new(1, 10)), 0));
}

#[test]
fn overlaps_is_symmetric() {
    let a = Range::new(1, 5);
    let b = Range::new(3, 7);
    let c = Range::new(6, 10);
    assert!(a.overlaps(&b));
    assert!(b.overlaps(&a));
    assert!(!a.overlaps(&c));
    assert!(!c.overlaps(&a));
}
