//! Library-wide laws: what holds of every inventory a successful parse
//! returns, and of rendering a group back to text.

use vstd::prelude::*;
use crate::group::{seq_count, spec_render_group, GroupModel};
use crate::inventory::{
    spec_accept, spec_empty_acc, spec_groups, spec_header_dup_errs, spec_header_name,
    spec_header_seen, spec_overlap_errs, spec_parse_inventory, spec_units, spec_units_start,
    spec_starts_unit, InventoryErrorModel, InventoryOutcome, SpanModel, UnitAcc,
};
use crate::parse::{Expectation, SpecToken};
use crate::range::{lemma_unit_set_count, Range};

verus! {

/// No two of the ranges share a unit number.
pub open spec fn pairwise_disjoint(ranges: Seq<Range>) -> bool {
    forall|a: int, b: int|
        0 <= a < b < ranges.len() ==> !(#[trigger] ranges[a]).spec_overlaps(#[trigger] ranges[b])
}

/// Every range runs upward.
pub open spec fn all_upward(ranges: Seq<Range>) -> bool {
    forall|a: int| 0 <= a < ranges.len() ==> (#[trigger] ranges[a]).wf()
}

/// The distinct unit numbers the ranges cover.
pub open spec fn units_of(ranges: Seq<Range>) -> Set<int>
    decreases ranges.len(),
{
    if ranges.len() == 0 {
        Set::empty()
    } else {
        ranges[0].unit_set().union(units_of(ranges.drop_first()))
    }
}

/// Ranges that do not overlap cover disjoint unit numbers.
proof fn lemma_no_overlap_disjoint(a: Range, b: Range)
    requires
        a.wf(),
        b.wf(),
        !a.spec_overlaps(b),
    ensures
        a.unit_set().disjoint(b.unit_set()),
{
    assert forall|x: int| a.unit_set().contains(x) implies !b.unit_set().contains(x) by {}
}

/// Two finite disjoint sets have as many elements together as apart.
proof fn lemma_disjoint_union_len<A>(s1: Set<A>, s2: Set<A>)
    requires
        s1.finite(),
        s2.finite(),
        s1.disjoint(s2),
    ensures
        s1.union(s2).finite(),
        s1.union(s2).len() == s1.len() + s2.len(),
    decreases s1.len(),
{
    if s1.is_empty() {
        assert(s1.union(s2) =~= s2);
    } else {
        let a = s1.choose();
        assert(!s2.contains(a));
        assert(s1.union(s2).remove(a) =~= s1.remove(a).union(s2));
        assert(s1.remove(a).disjoint(s2));
        lemma_disjoint_union_len(s1.remove(a), s2);
        assert(s1.union(s2) =~= s1.union(s2).remove(a).insert(a));
    }
}

/// A range that overlaps none of a list covers none of its units.
proof fn lemma_units_of_disjoint(r: Range, ranges: Seq<Range>)
    requires
        r.wf(),
        all_upward(ranges),
        forall|k: int| 0 <= k < ranges.len() ==> !r.spec_overlaps(#[trigger] ranges[k]),
    ensures
        r.unit_set().disjoint(units_of(ranges)),
    decreases ranges.len(),
{
    if ranges.len() > 0 {
        lemma_no_overlap_disjoint(r, ranges[0]);
        assert(all_upward(ranges.drop_first()));
        lemma_units_of_disjoint(r, ranges.drop_first());
    }
}

/// Pairwise disjoint upward ranges cover exactly as many distinct unit
/// numbers as their counts say.
pub proof fn lemma_disjoint_ranges_count(ranges: Seq<Range>)
    requires
        all_upward(ranges),
        pairwise_disjoint(ranges),
    ensures
        units_of(ranges).finite(),
        units_of(ranges).len() == seq_count(ranges),
    decreases ranges.len(),
{
    if ranges.len() == 0 {
    } else {
        let r = ranges[0];
        let rest = ranges.drop_first();
        assert(all_upward(rest));
        assert(pairwise_disjoint(rest)) by {
            assert forall|a: int, b: int|
                0 <= a < b < rest.len() implies !(#[trigger] rest[a]).spec_overlaps(
                #[trigger] rest[b]) by {
                assert(rest[a] == ranges[a + 1]);
                assert(rest[b] == ranges[b + 1]);
            }
        }
        lemma_disjoint_ranges_count(rest);
        assert forall|k: int| 0 <= k < rest.len() implies !r.spec_overlaps(
            #[trigger] rest[k],
        ) by {
            assert(rest[k] == ranges[k + 1]);
        }
        lemma_units_of_disjoint(r, rest);
        lemma_unit_set_count(r);
        lemma_disjoint_union_len(r.unit_set(), units_of(rest));
    }
}

/// A unit's overlap report is empty exactly when the new range overlaps
/// none of the accepted ones.
proof fn lemma_overlap_errs_empty(
    ranges: Seq<Range>,
    spans: Seq<SpanModel>,
    r: Range,
    sp: SpanModel,
)
    ensures
        (spec_overlap_errs(ranges, spans, r, sp).len() == 0 <==> forall|k: int|
            0 <= k < ranges.len() ==> !(#[trigger] ranges[k]).spec_overlaps(r)),
    decreases ranges.len(),
{
    if ranges.len() > 0 {
        lemma_overlap_errs_empty(ranges.drop_first(), spans.drop_first(), r, sp);
        assert forall|k: int|
            0 <= k < ranges.drop_first().len() implies ranges.drop_first()[k] == ranges[k
            + 1] by {}
        if spec_overlap_errs(ranges, spans, r, sp).len() == 0 {
            assert forall|k: int| 0 <= k < ranges.len() implies !(#[trigger] ranges[k]).spec_overlaps(
                r,
            ) by {
                if k > 0 {
                    assert(ranges[k] == ranges.drop_first()[k - 1]);
                }
            }
        }
    }
}

/// Reading units only appends problem reports.
#[verifier::rlimit(100)]
proof fn lemma_units_errs_monotone(s: Seq<char>, toks: Seq<SpecToken>, i: int, acc: UnitAcc)
    requires
        0 <= i,
    ensures
        (match spec_units(s, toks, i, acc) {
            Ok(pair) => pair.0.errs.len() >= acc.errs.len(),
            Err(_) => true,
        }),
    decreases toks.len() - i,
{
    reveal(spec_units);
    if i >= toks.len() || crate::inventory::spec_is_header(toks, i) {
    } else if toks[i].kind == crate::parse::TokenKind::Identifier || toks[i].kind
        == crate::parse::TokenKind::Equals || toks[i].kind == crate::parse::TokenKind::Hyphen {
    } else if i + 1 < toks.len() && toks[i + 1].kind == crate::parse::TokenKind::Hyphen {
        if i + 2 < toks.len() && toks[i + 2].kind == crate::parse::TokenKind::Number {
            let a = crate::parse::spec_digits_val(s.subrange(toks[i].start, toks[i].end));
            let b = crate::parse::spec_digits_val(
                s.subrange(toks[i + 2].start, toks[i + 2].end),
            );
            let sp = crate::inventory::span_of(s, toks[i].start, toks[i + 2].end);
            if a <= u32::MAX && b <= u32::MAX {
                if a > b {
                    lemma_units_errs_monotone(
                        s,
                        toks,
                        i + 3,
                        UnitAcc {
                            ranges: acc.ranges,
                            spans: acc.spans,
                            errs: acc.errs.push(
                                InventoryErrorModel::DecreasingRange { range: sp },
                            ),
                        },
                    );
                } else {
                    lemma_units_errs_monotone(
                        s,
                        toks,
                        i + 3,
                        spec_accept(acc, Range { first: a as u32, last: b as u32 }, sp),
                    );
                }
            }
        }
    } else {
        let a = crate::parse::spec_digits_val(s.subrange(toks[i].start, toks[i].end));
        let sp = crate::inventory::span_of(s, toks[i].start, toks[i].end);
        if a <= u32::MAX {
            lemma_units_errs_monotone(
                s,
                toks,
                i + 1,
                spec_accept(acc, Range { first: a as u32, last: a as u32 }, sp),
            );
        }
    }
}

/// When a group's unit list produces no problem reports, its accepted ranges
/// run upward and are pairwise disjoint.
#[verifier::rlimit(100)]
proof fn lemma_units_disjoint(s: Seq<char>, toks: Seq<SpecToken>, i: int, acc: UnitAcc)
    requires
        0 <= i,
        crate::parse::spec_tokens_wf(s, toks),
        acc.ranges.len() == acc.spans.len(),
        all_upward(acc.ranges),
        pairwise_disjoint(acc.ranges),
    ensures
        (match spec_units(s, toks, i, acc) {
            Ok(pair) => pair.0.errs.len() == acc.errs.len() ==> all_upward(pair.0.ranges)
                && pairwise_disjoint(pair.0.ranges),
            Err(_) => true,
        }),
    decreases toks.len() - i, 0int,
{
    reveal(spec_units);
    if i >= toks.len() || crate::inventory::spec_is_header(toks, i) {
    } else if toks[i].kind == crate::parse::TokenKind::Identifier || toks[i].kind
        == crate::parse::TokenKind::Equals || toks[i].kind == crate::parse::TokenKind::Hyphen {
    } else {
        let is_pair = i + 1 < toks.len() && toks[i + 1].kind == crate::parse::TokenKind::Hyphen;
        let a = crate::parse::spec_digits_val(s.subrange(toks[i].start, toks[i].end));
        assert(crate::parse::spec_token_site(s, toks[i]));
        crate::parse::lemma_digits_val_nonneg(s.subrange(toks[i].start, toks[i].end));
        if is_pair {
            if i + 2 < toks.len() && toks[i + 2].kind == crate::parse::TokenKind::Number {
                let b = crate::parse::spec_digits_val(
                    s.subrange(toks[i + 2].start, toks[i + 2].end),
                );
                assert(crate::parse::spec_token_site(s, toks[i + 2]));
                crate::parse::lemma_digits_val_nonneg(
                    s.subrange(toks[i + 2].start, toks[i + 2].end),
                );
                let sp = crate::inventory::span_of(s, toks[i].start, toks[i + 2].end);
                if a <= u32::MAX && b <= u32::MAX {
                    if a > b {
                        let acc2 = UnitAcc {
                            ranges: acc.ranges,
                            spans: acc.spans,
                            errs: acc.errs.push(
                                InventoryErrorModel::DecreasingRange { range: sp },
                            ),
                        };
                        lemma_units_errs_monotone(s, toks, i + 3, acc2);
                        lemma_units_disjoint(s, toks, i + 3, acc2);
                    } else {
                        lemma_accept_step(
                            s,
                            toks,
                            i + 3,
                            acc,
                            Range { first: a as u32, last: b as u32 },
                            sp,
                        );
                    }
                }
            }
        } else {
            let sp = crate::inventory::span_of(s, toks[i].start, toks[i].end);
            if a <= u32::MAX {
                lemma_accept_step(s, toks, i + 1, acc, Range { first: a as u32, last: a as u32 }, sp);
            }
        }
    }
}

/// One accepted unit keeps the list upward and disjoint when it reports no
/// overlaps.
#[verifier::rlimit(100)]
proof fn lemma_accept_step(
    s: Seq<char>,
    toks: Seq<SpecToken>,
    next: int,
    acc: UnitAcc,
    r: Range,
    sp: SpanModel,
)
    requires
        0 <= next,
        crate::parse::spec_tokens_wf(s, toks),
        r.wf(),
        acc.ranges.len() == acc.spans.len(),
        all_upward(acc.ranges),
        pairwise_disjoint(acc.ranges),
    ensures
        (match spec_units(s, toks, next, spec_accept(acc, r, sp)) {
            Ok(pair) => pair.0.errs.len() == acc.errs.len() ==> all_upward(pair.0.ranges)
                && pairwise_disjoint(pair.0.ranges),
            Err(_) => true,
        }),
    decreases toks.len() - next, 1int,
{
    let acc2 = spec_accept(acc, r, sp);
    lemma_units_errs_monotone(s, toks, next, acc2);
    match spec_units(s, toks, next, acc2) {
        Ok(pair) => {
            if pair.0.errs.len() == acc.errs.len() {
                // then the overlap report was empty, so the new range is
                // disjoint from every accepted one
                assert(acc2.errs.len() >= acc.errs.len());
                assert(spec_overlap_errs(acc.ranges, acc.spans, r, sp).len() == 0);
                lemma_overlap_errs_empty(acc.ranges, acc.spans, r, sp);
                assert(all_upward(acc2.ranges)) by {
                    assert forall|k: int| 0 <= k < acc2.ranges.len() implies (
                    #[trigger] acc2.ranges[k]).wf() by {
                        if k < acc.ranges.len() {
                            assert(acc2.ranges[k] == acc.ranges[k]);
                        } else {
                            assert(acc2.ranges[k] == r);
                        }
                    }
                }
                assert(pairwise_disjoint(acc2.ranges)) by {
                    assert forall|x: int, y: int|
                        0 <= x < y < acc2.ranges.len() implies !(
                    #[trigger] acc2.ranges[x]).spec_overlaps(#[trigger] acc2.ranges[y]) by {
                        if y < acc.ranges.len() {
                            assert(acc2.ranges[x] == acc.ranges[x]);
                            assert(acc2.ranges[y] == acc.ranges[y]);
                        } else {
                            assert(acc2.ranges[y] == r);
                            assert(acc2.ranges[x] == acc.ranges[x]);
                            assert(!acc.ranges[x].spec_overlaps(r));
                            crate::range::lemma_overlaps_symmetric(acc.ranges[x], r);
                        }
                    }
                }
                lemma_units_disjoint(s, toks, next, acc2);
            }
        },
        Err(_) => {},
    }
}

/// Every group of a valid inventory lists each of its unit numbers once:
/// its ranges run upward and are pairwise disjoint.
#[verifier::rlimit(100)]
proof fn lemma_groups_valid_disjoint(
    s: Seq<char>,
    toks: Seq<SpecToken>,
    i: int,
    seen: Seq<(Seq<char>, SpanModel)>,
    groups: Seq<GroupModel>,
    errs: Seq<InventoryErrorModel>,
)
    requires
        0 <= i,
        crate::parse::spec_tokens_wf(s, toks),
        forall|g: int|
            0 <= g < groups.len() ==> all_upward((#[trigger] groups[g]).ranges)
                && pairwise_disjoint(groups[g].ranges),
    ensures
        (match spec_groups(s, toks, i, seen, groups, errs) {
            InventoryOutcome::Valid { groups: gs } => forall|g: int|
                0 <= g < gs.len() ==> all_upward((#[trigger] gs[g]).ranges) && pairwise_disjoint(
                    gs[g].ranges,
                ),
            _ => true,
        }),
    decreases toks.len() - i,
{
    reveal(spec_groups);
    if i >= toks.len() {
    } else if !spec_starts_unit(toks, spec_units_start(toks, i)) {
    } else {
        let ustart = spec_units_start(toks, i);
        crate::inventory::lemma_spec_units_progress(s, toks, ustart, spec_empty_acc());
        match spec_units(s, toks, ustart, spec_empty_acc()) {
            Err(_) => {},
            Ok(pair) => {
                let acc = pair.0;
                let next = pair.1;
                lemma_units_errs_monotone(s, toks, ustart, spec_empty_acc());
                lemma_units_disjoint(s, toks, ustart, spec_empty_acc());
                let gname = spec_header_name(s, toks, i);
                let groups2 = groups.push(GroupModel { name: gname, ranges: acc.ranges });
                let errs2 = errs + spec_header_dup_errs(s, toks, i, seen) + acc.errs;
                match spec_groups(s, toks, next, spec_header_seen(s, toks, i, seen), groups2, errs2) {
                    InventoryOutcome::Valid { .. } => {
                        lemma_groups_errs_monotone(
                            s,
                            toks,
                            next,
                            spec_header_seen(s, toks, i, seen),
                            groups2,
                            errs2,
                        );
                        // a valid outcome carries no reports at all, so this
                        // group's own report list is empty
                        assert(errs2.len() == 0);
                        assert(acc.errs.len() == 0);
                        assert(all_upward(acc.ranges) && pairwise_disjoint(acc.ranges));
                        assert forall|g: int|
                            0 <= g < groups2.len() implies all_upward(
                            (#[trigger] groups2[g]).ranges) && pairwise_disjoint(
                            groups2[g].ranges,
                        ) by {
                            if g < groups.len() {
                                assert(groups2[g] == groups[g]);
                            } else {
                                assert(groups2[g] == (GroupModel { name: gname, ranges: acc.ranges }));
                            }
                        }
                        lemma_groups_valid_disjoint(
                            s,
                            toks,
                            next,
                            spec_header_seen(s, toks, i, seen),
                            groups2,
                            errs2,
                        );
                    },
                    _ => {},
                }
            },
        }
    }
}

/// A valid outcome reports no problems: the accumulated list was and stays
/// empty.
#[verifier::rlimit(100)]
proof fn lemma_groups_errs_monotone(
    s: Seq<char>,
    toks: Seq<SpecToken>,
    i: int,
    seen: Seq<(Seq<char>, SpanModel)>,
    groups: Seq<GroupModel>,
    errs: Seq<InventoryErrorModel>,
)
    requires
        0 <= i,
    ensures
        (match spec_groups(s, toks, i, seen, groups, errs) {
            InventoryOutcome::Valid { .. } => errs.len() == 0,
            _ => true,
        }),
    decreases toks.len() - i,
{
    reveal(spec_groups);
    if i >= toks.len() {
    } else if !spec_starts_unit(toks, spec_units_start(toks, i)) {
    } else {
        let ustart = spec_units_start(toks, i);
        crate::inventory::lemma_spec_units_progress(s, toks, ustart, spec_empty_acc());
        match spec_units(s, toks, ustart, spec_empty_acc()) {
            Err(_) => {},
            Ok(pair) => {
                let gname = spec_header_name(s, toks, i);
                lemma_groups_errs_monotone(
                    s,
                    toks,
                    pair.1,
                    spec_header_seen(s, toks, i, seen),
                    groups.push(GroupModel { name: gname, ranges: pair.0.ranges }),
                    errs + spec_header_dup_errs(s, toks, i, seen) + pair.0.errs,
                );
            },
        }
    }
}

/// For every valid inventory text, each returned group counts exactly the
/// distinct unit numbers its unit list wrote: within a group no number is
/// listed twice, so counts and distinct units agree.
#[verifier::rlimit(100)]
pub proof fn lemma_valid_inventory_counts_distinct_units(s: Seq<char>)
    requires
        spec_parse_inventory(s) is Valid,
    ensures
        (match spec_parse_inventory(s) {
            InventoryOutcome::Valid { groups } => forall|g: int|
                0 <= g < groups.len() ==> {
                    &&& pairwise_disjoint((#[trigger] groups[g]).ranges)
                    &&& units_of(groups[g].ranges).finite()
                    &&& seq_count(groups[g].ranges) == units_of(groups[g].ranges).len()
                },
            _ => true,
        }),
{
    crate::parse::lemma_tokens_wf(s, 0int);
    match crate::parse::spec_tokenize_from(s, 0int) {
        Err(_) => {},
        Ok(toks) => {
            if toks.len() > 0 {
                lemma_groups_valid_disjoint(
                    s,
                    toks,
                    0,
                    Seq::empty(),
                    Seq::empty(),
                    Seq::empty(),
                );
                match spec_groups(s, toks, 0, Seq::empty(), Seq::empty(), Seq::empty()) {
                    InventoryOutcome::Valid { groups } => {
                        assert forall|g: int| 0 <= g < groups.len() implies {
                            &&& pairwise_disjoint((#[trigger] groups[g]).ranges)
                            &&& units_of(groups[g].ranges).finite()
                            &&& seq_count(groups[g].ranges) == units_of(groups[g].ranges).len()
                        } by {
                            lemma_disjoint_ranges_count(groups[g].ranges);
                        }
                    },
                    _ => {},
                }
            }
        },
    }
}

/// The distinct unit numbers over a whole inventory.
pub open spec fn units_of_groups(groups: Seq<GroupModel>) -> Set<int>
    decreases groups.len(),
{
    if groups.len() == 0 {
        Set::empty()
    } else {
        units_of(groups[0].ranges).union(units_of_groups(groups.drop_first()))
    }
}

/// When no unit number recurs anywhere — within groups a valid parse
/// guarantees it, across groups it is assumed — summing the groups' counts
/// gives exactly the number of distinct unit numbers in the text.
pub proof fn lemma_inventory_total_counts_distinct_units(s: Seq<char>, groups: Seq<GroupModel>)
    requires
        spec_parse_inventory(s) == (InventoryOutcome::Valid { groups }),
        forall|a: int, b: int|
            0 <= a < b < groups.len() ==> units_of((#[trigger] groups[a]).ranges).disjoint(
                units_of((#[trigger] groups[b]).ranges),
            ),
    ensures
        units_of_groups(groups).finite(),
        crate::split::groups_total(groups) == units_of_groups(groups).len(),
{
    lemma_valid_inventory_counts_distinct_units(s);
    assert forall|g: int|
        0 <= g < groups.len() implies units_of((#[trigger] groups[g]).ranges).finite()
        && seq_count(groups[g].ranges) == units_of(groups[g].ranges).len() by {
        assert(match spec_parse_inventory(s) {
            InventoryOutcome::Valid { groups: gs } => gs == groups,
            _ => false,
        });
    }
    lemma_total_from_disjoint_groups(groups);
}

/// Summing counts over groups with disjoint, internally disjoint unit sets
/// counts each distinct unit once.
proof fn lemma_total_from_disjoint_groups(groups: Seq<GroupModel>)
    requires
        forall|g: int|
            0 <= g < groups.len() ==> units_of((#[trigger] groups[g]).ranges).finite()
                && seq_count(groups[g].ranges) == units_of(groups[g].ranges).len(),
        forall|a: int, b: int|
            0 <= a < b < groups.len() ==> units_of((#[trigger] groups[a]).ranges).disjoint(
                units_of((#[trigger] groups[b]).ranges),
            ),
    ensures
        units_of_groups(groups).finite(),
        crate::split::groups_total(groups) == units_of_groups(groups).len(),
    decreases groups.len(),
{
    if groups.len() > 0 {
        let rest = groups.drop_first();
        assert forall|g: int|
            0 <= g < rest.len() implies units_of((#[trigger] rest[g]).ranges).finite()
            && seq_count(rest[g].ranges) == units_of(rest[g].ranges).len() by {
            assert(rest[g] == groups[g + 1]);
        }
        assert forall|a: int, b: int|
            0 <= a < b < rest.len() implies units_of((#[trigger] rest[a]).ranges).disjoint(
            units_of((#[trigger] rest[b]).ranges)) by {
            assert(rest[a] == groups[a + 1]);
            assert(rest[b] == groups[b + 1]);
        }
        lemma_total_from_disjoint_groups(rest);
        lemma_groups_units_disjoint(groups[0], rest);
        lemma_disjoint_union_len(units_of(groups[0].ranges), units_of_groups(rest));
    }
}

/// A group whose units are disjoint from each following group's units is
/// disjoint from their union.
proof fn lemma_groups_units_disjoint(g: GroupModel, rest: Seq<GroupModel>)
    requires
        forall|b: int|
            0 <= b < rest.len() ==> units_of(g.ranges).disjoint(
                units_of((#[trigger] rest[b]).ranges),
            ),
    ensures
        units_of(g.ranges).disjoint(units_of_groups(rest)),
    decreases rest.len(),
{
    if rest.len() > 0 {
        assert forall|b: int|
            0 <= b < rest.drop_first().len() implies units_of(g.ranges).disjoint(
            units_of((#[trigger] rest.drop_first()[b]).ranges)) by {
            assert(rest.drop_first()[b] == rest[b + 1]);
        }
        lemma_groups_units_disjoint(g, rest.drop_first());
    }
}

/// The decimal rendering of a number reads back as that number: its
/// characters are digits and their value is the number itself.
pub proof fn lemma_decimal_round_trip(n: int)
    requires
        0 <= n,
    ensures
        crate::parse::all_digits(crate::range::spec_dec(n)),
        crate::range::spec_dec(n).len() >= 1,
        crate::parse::spec_digits_val(crate::range::spec_dec(n)) == n,
    decreases n,
{
    let d = crate::range::spec_dec(n);
    if n < 10 {
        assert(d =~= seq![crate::range::spec_digit_char(n)]);
        lemma_digit_char_val(n);
        assert(d.drop_last() =~= Seq::<char>::empty());
        assert(d.last() == crate::range::spec_digit_char(n));
        assert(crate::parse::spec_digits_val(Seq::<char>::empty()) == 0);
        assert(crate::parse::spec_digits_val(d) == crate::parse::spec_digits_val(d.drop_last())
            * 10 + crate::parse::spec_digit_val(d.last()));
        assert(crate::parse::all_digits(d)) by {
            assert(forall|k: int| 0 <= k < d.len() ==> d[k] == crate::range::spec_digit_char(n));
        }
    } else {
        lemma_decimal_round_trip(n / 10);
        lemma_digit_char_val(n % 10);
        let head = crate::range::spec_dec(n / 10);
        assert(d == head.push(crate::range::spec_digit_char(n % 10)));
        assert(d.drop_last() =~= head);
        assert(d.last() == crate::range::spec_digit_char(n % 10));
        assert(crate::parse::spec_digits_val(d) == crate::parse::spec_digits_val(head) * 10
            + crate::parse::spec_digit_val(crate::range::spec_digit_char(n % 10)));
        assert(crate::parse::all_digits(d)) by {
            assert forall|k: int| 0 <= k < d.len() implies crate::parse::spec_is_digit(
                #[trigger] d[k],
            ) by {
                if k < head.len() {
                    assert(d[k] == head[k]);
                }
            }
        }
    }
}

/// Each digit character stands for its digit.
proof fn lemma_digit_char_val(d: int)
    requires
        0 <= d < 10,
    ensures
        crate::parse::spec_is_digit(crate::range::spec_digit_char(d)),
        crate::parse::spec_digit_val(crate::range::spec_digit_char(d)) == d,
{
}

/// A digit run with a terminator scans to one number token covering it.
proof fn lemma_scan_number_run(s: Seq<char>, start: int, j: int, e: int)
    requires
        0 <= start < j <= e <= s.len(),
        forall|k: int| j <= k < e ==> crate::parse::spec_is_digit(#[trigger] s[k]),
        e == s.len() || crate::parse::spec_is_whitespace(s[e]) || s[e] == '-' || s[e] == '=',
    ensures
        crate::parse::spec_scan_number(s, start, j) == (crate::parse::Scan::Found {
            kind: crate::parse::TokenKind::Number,
            start,
            end: e,
        }),
    decreases e - j,
{
    if j < e {
        assert(crate::parse::spec_is_digit(s[j]));
        lemma_scan_number_run(s, start, j + 1, e);
    }
}

/// An identifier run with a terminator scans to one name token covering it.
proof fn lemma_scan_name_run(s: Seq<char>, start: int, j: int, e: int)
    requires
        0 <= start < j <= e <= s.len(),
        forall|k: int| j <= k < e ==> crate::parse::spec_is_identifier(#[trigger] s[k]),
        e == s.len() || crate::parse::spec_is_whitespace(s[e]) || s[e] == '=',
    ensures
        crate::parse::spec_scan_name(s, start, j) == (crate::parse::Scan::Found {
            kind: crate::parse::TokenKind::Identifier,
            start,
            end: e,
        }),
    decreases e - j,
{
    if j < e {
        assert(crate::parse::spec_is_identifier(s[j]));
        lemma_scan_name_run(s, start, j + 1, e);
    }
}

/// Tokenization is unmoved by a leading separator.
proof fn lemma_tokenize_skip_sep(s: Seq<char>, i: int)
    requires
        0 <= i < s.len(),
        crate::parse::spec_is_whitespace(s[i]),
    ensures
        crate::parse::spec_tokenize_from(s, i) == crate::parse::spec_tokenize_from(s, i + 1),
        crate::parse::spec_scan(s, i) == crate::parse::spec_scan(s, i + 1),
{
    crate::parse::lemma_scan_bounds(s, i + 1);
}

/// How many characters the decimal rendering of `n` takes.
pub open spec fn dec_len(n: int) -> int {
    crate::range::spec_dec(n).len() as int
}

/// The compact text of a range list, first range first.
pub open spec fn render_front(ranges: Seq<Range>) -> Seq<char>
    decreases ranges.len(),
{
    if ranges.len() == 0 {
        Seq::empty()
    } else if ranges.len() == 1 {
        crate::range::spec_render_range(ranges[0])
    } else {
        crate::range::spec_render_range(ranges[0]) + seq![','] + render_front(ranges.drop_first())
    }
}

proof fn lemma_render_front_push(ranges: Seq<Range>, r: Range)
    ensures
        render_front(ranges.push(r)) == if ranges.len() == 0 {
            crate::range::spec_render_range(r)
        } else {
            render_front(ranges) + seq![','] + crate::range::spec_render_range(r)
        },
    decreases ranges.len(),
{
    let pushed = ranges.push(r);
    if ranges.len() == 0 {
        assert(pushed[0] == r);
    } else {
        assert(pushed[0] == ranges[0]);
        assert(pushed.drop_first() =~= ranges.drop_first().push(r));
        lemma_render_front_push(ranges.drop_first(), r);
        if ranges.len() == 1 {
            assert(render_front(ranges) == crate::range::spec_render_range(ranges[0]));
        } else {
            assert(crate::range::spec_render_range(ranges[0]) + seq![','] + (render_front(
                ranges.drop_first(),
            ) + seq![','] + crate::range::spec_render_range(r)) =~= (
            crate::range::spec_render_range(ranges[0]) + seq![','] + render_front(
                ranges.drop_first(),
            )) + seq![','] + crate::range::spec_render_range(r));
        }
    }
}

/// The two range-list renderings agree: joining back to front or front to
/// back writes the same text.
pub proof fn lemma_render_front_equiv(ranges: Seq<Range>)
    ensures
        crate::group::spec_render_ranges(ranges) == render_front(ranges),
    decreases ranges.len(),
{
    if ranges.len() >= 2 {
        lemma_render_front_equiv(ranges.drop_last());
        assert(ranges == ranges.drop_last().push(ranges.last())) by {
            assert(ranges =~= ranges.drop_last().push(ranges.last()));
        }
        lemma_render_front_push(ranges.drop_last(), ranges.last());
    }
}

/// The tokens the compact text of one range scans to, starting at `p`.
pub open spec fn range_tokens(r: Range, p: int) -> Seq<SpecToken> {
    if r.first == r.last {
        seq![
            SpecToken {
                kind: crate::parse::TokenKind::Number,
                start: p,
                end: p + dec_len(r.first as int),
            },
        ]
    } else {
        seq![
            SpecToken {
                kind: crate::parse::TokenKind::Number,
                start: p,
                end: p + dec_len(r.first as int),
            },
            SpecToken {
                kind: crate::parse::TokenKind::Hyphen,
                start: p + dec_len(r.first as int),
                end: p + dec_len(r.first as int) + 1,
            },
            SpecToken {
                kind: crate::parse::TokenKind::Number,
                start: p + dec_len(r.first as int) + 1,
                end: p + dec_len(r.first as int) + 1 + dec_len(r.last as int),
            },
        ]
    }
}

/// The length of the compact text of one range.
pub open spec fn range_text_len(r: Range) -> int {
    if r.first == r.last {
        dec_len(r.first as int)
    } else {
        dec_len(r.first as int) + 1 + dec_len(r.last as int)
    }
}

/// The tokens the compact text of a range list scans to, starting at `p`.
pub open spec fn units_tokens(ranges: Seq<Range>, p: int) -> Seq<SpecToken>
    decreases ranges.len(),
{
    if ranges.len() == 0 {
        Seq::empty()
    } else {
        range_tokens(ranges[0], p) + units_tokens(
            ranges.drop_first(),
            p + range_text_len(ranges[0]) + 1,
        )
    }
}

/// After one range's text and the comma that follows it, the rest of the
/// text renders the remaining ranges.
proof fn lemma_tail_after_range(s: Seq<char>, p: int, ranges: Seq<Range>)
    requires
        ranges.len() >= 2,
        0 <= p <= s.len(),
        s.subrange(p, s.len() as int) == render_front(ranges),
    ensures
        p + range_text_len(ranges[0]) + 1 <= s.len(),
        s.subrange(p + range_text_len(ranges[0]) + 1, s.len() as int) == render_front(
            ranges.drop_first(),
        ),
{
    let r = ranges[0];
    let rr = crate::range::spec_render_range(r);
    let rl = range_text_len(r);
    let rest = ranges.drop_first();
    let tail = s.subrange(p, s.len() as int);
    lemma_decimal_round_trip(r.first as int);
    lemma_decimal_round_trip(r.last as int);
    assert(rr.len() == rl);
    assert(tail == rr + seq![','] + render_front(rest));
    assert forall|m: int| 0 <= m < tail.len() implies tail[m] == s[p + m] by {}
    assert(s.subrange(p + rl + 1, s.len() as int) =~= render_front(rest)) by {
        assert forall|m: int|
            0 <= m < s.len() - (p + rl + 1) implies s.subrange(p + rl + 1, s.len() as int)[m]
            == render_front(rest)[m] by {
            assert(tail[rl + 1 + m] == ((rr + seq![',']) + render_front(rest))[rl + 1 + m]);
        }
    }
}

/// After one range's tokens, the remaining tokens are those of the remaining
/// ranges.
proof fn lemma_toks_after_range(toks: Seq<SpecToken>, k: int, ranges: Seq<Range>, p: int)
    requires
        ranges.len() >= 1,
        0 <= k <= toks.len(),
        toks.subrange(k, toks.len() as int) == units_tokens(ranges, p),
    ensures
        ({
            let step = range_tokens(ranges[0], p).len() as int;
            &&& k + step <= toks.len()
            &&& toks.subrange(k + step, toks.len() as int) == units_tokens(
                ranges.drop_first(),
                p + range_text_len(ranges[0]) + 1,
            )
        }),
{
    let rem = toks.subrange(k, toks.len() as int);
    let ntoks = units_tokens(ranges, p);
    let step = range_tokens(ranges[0], p).len() as int;
    let rest_toks = units_tokens(ranges.drop_first(), p + range_text_len(ranges[0]) + 1);
    assert(ntoks == range_tokens(ranges[0], p) + rest_toks);
    assert forall|m: int| 0 <= m < rem.len() implies rem[m] == toks[k + m] by {}
    assert(toks.subrange(k + step, toks.len() as int) =~= rest_toks) by {
        assert forall|m: int|
            0 <= m < toks.len() - (k + step) implies toks.subrange(
            k + step,
            toks.len() as int,
        )[m] == rest_toks[m] by {
            assert(rem[step + m] == ntoks[step + m]);
            assert(ntoks[step + m] == rest_toks[m]);
        }
    }
}

/// One unit token (or number-hyphen-number triple) carrying the bounds of
/// `r` advances the unit reader by accepting exactly `r`.
proof fn lemma_units_step(s: Seq<char>, toks: Seq<SpecToken>, k: int, acc: UnitAcc, r: Range)
    requires
        0 <= k < toks.len(),
        !crate::inventory::spec_is_header(toks, k),
        toks[k].kind == crate::parse::TokenKind::Number,
        r.wf(),
        crate::parse::spec_digits_val(s.subrange(toks[k].start, toks[k].end)) == r.first as int,
        (if r.first == r.last {
            !(k + 1 < toks.len() && toks[k + 1].kind == crate::parse::TokenKind::Hyphen)
        } else {
            &&& k + 2 < toks.len()
            &&& toks[k + 1].kind == crate::parse::TokenKind::Hyphen
            &&& toks[k + 2].kind == crate::parse::TokenKind::Number
            &&& crate::parse::spec_digits_val(s.subrange(toks[k + 2].start, toks[k + 2].end))
                == r.last as int
        }),
    ensures
        spec_units(s, toks, k, acc) == spec_units(
            s,
            toks,
            if r.first == r.last {
                k + 1
            } else {
                k + 3
            },
            spec_accept(
                acc,
                r,
                if r.first == r.last {
                    crate::inventory::span_of(s, toks[k].start, toks[k].end)
                } else {
                    crate::inventory::span_of(s, toks[k].start, toks[k + 2].end)
                },
            ),
        ),
{
    reveal(spec_units);
}

/// The rendered text of a nonempty range list tokenizes to exactly its unit
/// tokens: numbers, hyphens and nothing else.
#[verifier::rlimit(100)]
proof fn lemma_tokenize_units(s: Seq<char>, p: int, ranges: Seq<Range>)
    requires
        ranges.len() > 0,
        all_upward(ranges),
        0 <= p <= s.len(),
        s.subrange(p, s.len() as int) == render_front(ranges),
    ensures
        crate::parse::spec_tokenize_from(s, p) == Ok::<Seq<SpecToken>, int>(
            units_tokens(ranges, p),
        ),
    decreases ranges.len(),
{
    let r = ranges[0];
    let tail = s.subrange(p, s.len() as int);
    let rr = crate::range::spec_render_range(r);
    let d1 = crate::range::spec_dec(r.first as int);
    let l1 = dec_len(r.first as int);
    lemma_decimal_round_trip(r.first as int);
    lemma_decimal_round_trip(r.last as int);
    let rl = range_text_len(r);
    assert(rr.len() == rl);
    assert forall|k: int| 0 <= k < tail.len() implies tail[k] == s[p + k] by {}
    if ranges.len() == 1 {
        assert(tail == rr);
        assert(p + rl == s.len());
    } else {
        assert(tail == rr + seq![','] + render_front(ranges.drop_first()));
        assert(tail[rl] == ',') by {
            assert((rr + seq![','])[rl] == ',');
        }
        assert(s[p + rl] == ',');
    }
    assert forall|k: int| 0 <= k < rl implies tail[k] == rr[k] by {
        if ranges.len() > 1 {
            assert((rr + seq![','])[k] == rr[k]);
        }
    }
    assert forall|k: int| 0 <= k < l1 implies s[p + k] == d1[k] by {
        assert(tail[k] == rr[k]);
        if r.first != r.last {
            assert(rr[k] == (d1 + seq!['-'])[k]);
        }
    }
    assert(crate::parse::spec_is_digit(s[p])) by {
        assert(s[p] == d1[0]);
    }
    assert forall|k: int| p + 1 <= k < p + l1 implies crate::parse::spec_is_digit(
        #[trigger] s[k],
    ) by {
        assert(s[k] == d1[k - p]);
    }
    let tok1 = SpecToken { kind: crate::parse::TokenKind::Number, start: p, end: p + l1 };
    if r.first == r.last {
        // one number, then the end of the range's text
        assert(p + l1 == s.len() || crate::parse::spec_is_whitespace(s[p + l1])) by {
            if ranges.len() > 1 {
                assert(s[p + l1] == ',');
            }
        }
        lemma_scan_number_run(s, p, p + 1, p + l1);
        if ranges.len() == 1 {
            assert(crate::parse::spec_tokenize_from(s, p + l1) == Ok::<Seq<SpecToken>, int>(
                Seq::empty(),
            ));
            assert(units_tokens(ranges.drop_first(), p + rl + 1) == Seq::<SpecToken>::empty());
            assert(seq![tok1] + Seq::<SpecToken>::empty() =~= units_tokens(ranges, p));
        } else {
            let rest = ranges.drop_first();
            assert(all_upward(rest)) by {
                assert(forall|k: int| 0 <= k < rest.len() ==> rest[k] == ranges[k + 1]);
            }
            assert(s.subrange(p + rl + 1, s.len() as int) =~= render_front(rest)) by {
                assert forall|k: int|
                    0 <= k < s.len() - (p + rl + 1) implies s.subrange(
                    p + rl + 1,
                    s.len() as int,
                )[k] == render_front(rest)[k] by {
                    assert(tail[rl + 1 + k] == ((rr + seq![',']) + render_front(rest))[rl + 1
                        + k]);
                }
            }
            lemma_tokenize_units(s, p + rl + 1, rest);
            lemma_tokenize_skip_sep(s, p + rl);
            assert(seq![tok1] + units_tokens(rest, p + rl + 1) =~= units_tokens(ranges, p));
        }
    } else {
        // a number, a hyphen, a second number
        let d2 = crate::range::spec_dec(r.last as int);
        let l2 = dec_len(r.last as int);
        assert(rr == d1 + seq!['-'] + d2);
        assert(s[p + l1] == '-') by {
            assert(tail[l1] == rr[l1]);
            assert(rr[l1] == ((d1 + seq!['-'])[l1]));
        }
        lemma_scan_number_run(s, p, p + 1, p + l1);
        let tok2 = SpecToken {
            kind: crate::parse::TokenKind::Hyphen,
            start: p + l1,
            end: p + l1 + 1,
        };
        let tok3 = SpecToken {
            kind: crate::parse::TokenKind::Number,
            start: p + l1 + 1,
            end: p + rl,
        };
        assert forall|k: int| 0 <= k < l2 implies s[p + l1 + 1 + k] == d2[k] by {
            assert(tail[l1 + 1 + k] == rr[l1 + 1 + k]);
            assert(rr[l1 + 1 + k] == d2[k]);
        }
        assert(crate::parse::spec_is_digit(s[p + l1 + 1])) by {
            assert(s[p + l1 + 1] == d2[0]);
        }
        assert forall|k: int| p + l1 + 2 <= k < p + rl implies crate::parse::spec_is_digit(
            #[trigger] s[k],
        ) by {
            assert(s[k] == d2[k - (p + l1 + 1)]);
        }
        assert(p + rl == s.len() || crate::parse::spec_is_whitespace(s[p + rl])) by {
            if ranges.len() > 1 {
                assert(s[p + rl] == ',');
            }
        }
        lemma_scan_number_run(s, p + l1 + 1, p + l1 + 2, p + rl);
        assert(crate::parse::spec_scan(s, p + l1) == (crate::parse::Scan::Found {
            kind: crate::parse::TokenKind::Hyphen,
            start: p + l1,
            end: p + l1 + 1,
        }));
        if ranges.len() == 1 {
            assert(crate::parse::spec_tokenize_from(s, p + rl) == Ok::<Seq<SpecToken>, int>(
                Seq::empty(),
            ));
            assert(units_tokens(ranges.drop_first(), p + rl + 1) == Seq::<SpecToken>::empty());
            assert(seq![tok1] + (seq![tok2] + (seq![tok3] + Seq::<SpecToken>::empty()))
                =~= units_tokens(ranges, p));
        } else {
            let rest = ranges.drop_first();
            assert(all_upward(rest)) by {
                assert(forall|k: int| 0 <= k < rest.len() ==> rest[k] == ranges[k + 1]);
            }
            assert(s.subrange(p + rl + 1, s.len() as int) =~= render_front(rest)) by {
                assert forall|k: int|
                    0 <= k < s.len() - (p + rl + 1) implies s.subrange(
                    p + rl + 1,
                    s.len() as int,
                )[k] == render_front(rest)[k] by {
                    assert(tail[rl + 1 + k] == ((rr + seq![',']) + render_front(rest))[rl + 1
                        + k]);
                }
            }
            lemma_tokenize_units(s, p + rl + 1, rest);
            lemma_tokenize_skip_sep(s, p + rl);
            assert(seq![tok1] + (seq![tok2] + (seq![tok3] + units_tokens(rest, p + rl + 1)))
                =~= units_tokens(ranges, p));
        }
    }
}

/// Reading the unit tokens of a rendered range list accepts exactly those
/// ranges, in order, with no problem reports, and stops at the end.
#[verifier::rlimit(100)]
proof fn lemma_units_grammar(
    s: Seq<char>,
    toks: Seq<SpecToken>,
    k: int,
    acc: UnitAcc,
    ranges: Seq<Range>,
    p: int,
)
    requires
        0 <= k <= toks.len(),
        0 <= p <= s.len(),
        s.subrange(p, s.len() as int) == render_front(ranges),
        toks.subrange(k, toks.len() as int) == units_tokens(ranges, p),
        all_upward(ranges),
        all_upward(acc.ranges),
        pairwise_disjoint(acc.ranges + ranges),
        acc.ranges.len() == acc.spans.len(),
    ensures
        (match spec_units(s, toks, k, acc) {
            Ok(pair) => pair.0.ranges == acc.ranges + ranges && pair.0.errs == acc.errs
                && pair.0.ranges.len() == pair.0.spans.len() && pair.1 == toks.len(),
            Err(_) => false,
        }),
    decreases ranges.len(),
{
    let rem = toks.subrange(k, toks.len() as int);
    assert forall|m: int| 0 <= m < rem.len() implies rem[m] == toks[k + m] by {}
    if ranges.len() == 0 {
        assert(rem.len() == 0);
        assert(k == toks.len());
        assert(acc.ranges + Seq::<Range>::empty() =~= acc.ranges);
        assert(spec_units(s, toks, k, acc) == Ok::<(UnitAcc, int), (int, Expectation)>(
            (acc, k),
        )) by {
            reveal(spec_units);
        }
    } else {
        let r = ranges[0];
        let tail = s.subrange(p, s.len() as int);
        let rr = crate::range::spec_render_range(r);
        let d1 = crate::range::spec_dec(r.first as int);
        let l1 = dec_len(r.first as int);
        let rl = range_text_len(r);
        lemma_decimal_round_trip(r.first as int);
        lemma_decimal_round_trip(r.last as int);
        assert(rr.len() == rl);
        let rest = ranges.drop_first();
        if ranges.len() == 1 {
            assert(tail == rr);
            assert(p + rl == s.len());
        } else {
            assert(tail == rr + seq![','] + render_front(rest));
            assert(tail.len() == rl + 1 + render_front(rest).len());
        }
        assert(p + rl <= s.len());
        assert forall|m: int| 0 <= m < tail.len() implies tail[m] == s[p + m] by {}
        assert forall|m: int| 0 <= m < rl implies tail[m] == rr[m] by {
            if ranges.len() > 1 {
                assert(tail[m] == ((rr + seq![',']) + render_front(rest))[m]);
                assert((rr + seq![','])[m] == rr[m]);
            }
        }
        // the first number token carries the range's first bound
        assert(s.subrange(p, p + l1) =~= d1) by {
            assert forall|m: int| 0 <= m < l1 implies s.subrange(p, p + l1)[m] == d1[m] by {
                assert(s.subrange(p, p + l1)[m] == s[p + m]);
                assert(tail[m] == s[p + m]);
                assert(tail[m] == rr[m]);
                if r.first != r.last {
                    assert(rr[m] == ((d1 + seq!['-']) + crate::range::spec_dec(
                        r.last as int,
                    ))[m]);
                    assert(rr[m] == (d1 + seq!['-'])[m]);
                }
            }
        }
        let ntoks = units_tokens(ranges, p);
        assert(all_upward(rest)) by {
            assert(forall|m: int| 0 <= m < rest.len() ==> rest[m] == ranges[m + 1]);
        }
        let nk: int = if r.first == r.last {
            k + 1
        } else {
            k + 3
        };
        assert(rem[0] == ntoks[0]);
        assert(toks[k].kind == crate::parse::TokenKind::Number);
        assert(toks[k].start == p && toks[k].end == p + l1);
        // the token after this range's tokens, if any, is a number again
        if r.first == r.last {
            if rem.len() > 1 {
                assert(rem[1] == ntoks[1]);
                assert(ntoks[1] == units_tokens(rest, p + rl + 1)[0]);
                assert(rest.len() > 0);
                assert(units_tokens(rest, p + rl + 1)[0] == range_tokens(
                    rest[0],
                    p + rl + 1,
                )[0]);
                assert(toks[k + 1].kind == crate::parse::TokenKind::Number);
            }
        } else {
            assert(ntoks == range_tokens(r, p) + units_tokens(rest, p + rl + 1));
            assert(range_tokens(r, p).len() == 3);
            assert(rem.len() >= 3);
            assert(k + 2 < toks.len());
            assert(rem[1] == ntoks[1]);
            assert(rem[2] == ntoks[2]);
            assert(toks[k + 1] == rem[1] && toks[k + 2] == rem[2]);
            assert(toks[k + 1].kind == crate::parse::TokenKind::Hyphen);
            assert(toks[k + 2].kind == crate::parse::TokenKind::Number);
            assert(toks[k + 2].start == p + l1 + 1 && toks[k + 2].end == p + rl);
        }
        assert(!crate::inventory::spec_is_header(toks, k));
        let a = crate::parse::spec_digits_val(s.subrange(toks[k].start, toks[k].end));
        assert(a == r.first) by {
            assert(s.subrange(toks[k].start, toks[k].end) == d1);
        }
        let sp_new: SpanModel = if r.first == r.last {
            crate::inventory::span_of(s, toks[k].start, toks[k].end)
        } else {
            crate::inventory::span_of(s, toks[k].start, toks[k + 2].end)
        };
        let rebuilt = Range { first: a as u32, last: if r.first == r.last { a as u32 } else {
            crate::parse::spec_digits_val(s.subrange(toks[k + 2].start, toks[k + 2].end)) as u32
        } };
        if r.first != r.last {
            let d2 = crate::range::spec_dec(r.last as int);
            let l2 = dec_len(r.last as int);
            assert(s.subrange(toks[k + 2].start, toks[k + 2].end) =~= d2) by {
                assert forall|m: int| 0 <= m < l2 implies s.subrange(
                    p + l1 + 1,
                    p + rl,
                )[m] == d2[m] by {
                    assert(tail[l1 + 1 + m] == rr[l1 + 1 + m]);
                    assert(rr[l1 + 1 + m] == d2[m]);
                }
            }
            assert(crate::parse::spec_digits_val(s.subrange(toks[k + 2].start, toks[k + 2].end))
                == r.last);
        }
        assert(rebuilt == r);
        // the new range overlaps none of the accepted ones, so no report
        let both = acc.ranges + ranges;
        assert forall|m: int| 0 <= m < acc.ranges.len() implies !(
        #[trigger] acc.ranges[m]).spec_overlaps(r) by {
            assert(both[m] == acc.ranges[m]);
            assert(both[acc.ranges.len() as int] == r);
        }
        lemma_overlap_errs_empty(acc.ranges, acc.spans, r, sp_new);
        let acc2 = spec_accept(acc, r, sp_new);
        assert(acc2.errs =~= acc.errs) by {
            assert(spec_overlap_errs(acc.ranges, acc.spans, r, sp_new) =~= Seq::<
                InventoryErrorModel,
            >::empty());
            assert(acc.errs + Seq::<InventoryErrorModel>::empty() =~= acc.errs);
        }
        if r.first == r.last {
            assert(!(k + 1 < toks.len() && toks[k + 1].kind
                == crate::parse::TokenKind::Hyphen)) by {
                if k + 1 < toks.len() {
                    assert(rem.len() > 1);
                    assert(toks[k + 1].kind == crate::parse::TokenKind::Number);
                }
            }
        }
        lemma_units_step(s, toks, k, acc, r);
        assert(spec_units(s, toks, k, acc) == spec_units(s, toks, nk, acc2));
        assert(all_upward(acc2.ranges)) by {
            assert forall|m: int| 0 <= m < acc2.ranges.len() implies (
            #[trigger] acc2.ranges[m]).wf() by {
                if m < acc.ranges.len() {
                    assert(acc2.ranges[m] == acc.ranges[m]);
                } else {
                    assert(acc2.ranges[m] == r);
                }
            }
        }
        assert(acc2.ranges + rest =~= acc.ranges + ranges);
        if rest.len() > 0 {
            // set up the text and the tokens for the remaining ranges
            lemma_tail_after_range(s, p, ranges);
            lemma_toks_after_range(toks, k, ranges, p);
            assert(range_tokens(r, p).len() == nk - k);
            lemma_units_grammar(s, toks, nk, acc2, rest, p + rl + 1);
        } else {
            // this was the last range: the tokens are spent
            assert(units_tokens(rest, p + rl + 1) == Seq::<SpecToken>::empty());
            assert(ntoks =~= range_tokens(r, p) + Seq::<SpecToken>::empty());
            assert(ntoks.len() == nk - k);
            assert(rem.len() == toks.len() - k);
            assert(nk == toks.len());
            assert(spec_units(s, toks, nk, acc2) == Ok::<(UnitAcc, int), (int, Expectation)>(
                (acc2, nk),
            )) by {
                reveal(spec_units);
            }
        }
    }
}

/// A usable group name: identifier characters, no leading `-`, and no `-`
/// before its first letter, so that it reads back as one name token.
pub open spec fn valid_group_name(name: Seq<char>) -> bool {
    &&& name.len() > 0
    &&& (forall|k: int| 0 <= k < name.len() ==> crate::parse::spec_is_identifier(#[trigger] name[k]))
    &&& (crate::parse::spec_is_digit(name[0]) || crate::parse::spec_is_letter(name[0]))
    &&& {
        let dp = crate::requests::spec_digits_end(name, 0, name.len() as int);
        dp == name.len() || crate::parse::spec_is_letter(name[dp])
    }
}

/// A digit run inside a name keeps scanning as a number until it either ends
/// the name or meets the letter that turns it into a name token.
proof fn lemma_scan_name_header(s: Seq<char>, e: int)
    requires
        0 < e < s.len(),
        s[e] == '=',
        valid_group_name(s.subrange(0, e)),
    ensures
        (match crate::parse::spec_scan(s, 0) {
            crate::parse::Scan::Found { kind, start, end } => start == 0 && end == e && (kind
                == crate::parse::TokenKind::Number || kind == crate::parse::TokenKind::Identifier),
            _ => false,
        }),
{
    let name = s.subrange(0, e);
    assert forall|m: int| 0 <= m < e implies s[m] == name[m] by {}
    let dp = crate::requests::spec_digits_end(name, 0, e);
    crate::requests::lemma_digits_end_bounds(name, 0, e);
    if crate::parse::spec_is_digit(s[0]) {
        assert(dp > 0) by {
            reveal_with_fuel(crate::requests::spec_digits_end, 2);
        }
        lemma_scan_digit_prefix(s, name, 0, 1, dp, e);
    } else {
        assert(crate::parse::spec_is_letter(s[0]));
        assert forall|m: int| 1 <= m < e implies crate::parse::spec_is_identifier(
            #[trigger] s[m],
        ) by {
            assert(s[m] == name[m]);
        }
        lemma_scan_name_run(s, 0, 1, e);
    }
}

/// Walks the digit prefix of a name: the scan stays a number through the
/// digits and becomes a name at the first letter.
proof fn lemma_scan_digit_prefix(s: Seq<char>, name: Seq<char>, start: int, j: int, dp: int, e: int)
    requires
        name == s.subrange(0, e),
        valid_group_name(name),
        0 < e < s.len(),
        s[e] == '=',
        dp == crate::requests::spec_digits_end(name, 0, e),
        0 <= dp <= e,
        start == 0,
        0 < j <= dp,
    ensures
        (match crate::parse::spec_scan_number(s, start, j) {
            crate::parse::Scan::Found { kind, start: st, end } => st == 0 && end == e && (kind
                == crate::parse::TokenKind::Number || kind == crate::parse::TokenKind::Identifier),
            _ => false,
        }),
    decreases e - j,
{
    assert forall|m: int| 0 <= m < e implies s[m] == name[m] by {}
    crate::requests::lemma_digits_end_all_digits_prefix(name, 0, e);
    if j < dp {
        assert(crate::parse::spec_is_digit(s[j])) by {
            assert(name.subrange(0, dp)[j] == name[j]);
            assert(name[j] == s[j]);
        }
        lemma_scan_digit_prefix(s, name, start, j + 1, dp, e);
    } else {
        // j == dp: either the name is all digits and `=` ends the number,
        // or a letter turns it into a name token
        if dp == e {
            lemma_scan_number_run(s, start, j, e);
        } else {
            assert(crate::parse::spec_is_letter(name[dp]));
            assert(crate::parse::spec_is_digit(s[j]) == false) by {
                assert(s[j] == name[dp]);
            }
            assert forall|m: int| dp + 1 <= m < e implies crate::parse::spec_is_identifier(
                #[trigger] s[m],
            ) by {
                assert(s[m] == name[m]);
            }
            lemma_scan_name_run(s, start, dp + 1, e);
        }
    }
}

/// Rendering a group to its compact text form and re-parsing that text
/// yields exactly that group. The group must have at least one range, its
/// ranges must run upward and be pairwise disjoint, and its name must be
/// empty or a usable name — exactly what every parsed group satisfies.
pub proof fn lemma_group_round_trip(g: GroupModel)
    requires
        g.ranges.len() > 0,
        all_upward(g.ranges),
        pairwise_disjoint(g.ranges),
        g.name.len() == 0 || valid_group_name(g.name),
    ensures
        spec_parse_inventory(spec_render_group(g)) == (InventoryOutcome::Valid {
            groups: seq![g],
        }),
{
    if g.name.len() == 0 {
        lemma_group_round_trip_unnamed(g);
    } else {
        lemma_group_round_trip_named(g);
    }
}

/// The round trip for an unnamed group.
#[verifier::rlimit(100)]
proof fn lemma_group_round_trip_unnamed(g: GroupModel)
    requires
        g.ranges.len() > 0,
        all_upward(g.ranges),
        pairwise_disjoint(g.ranges),
        g.name.len() == 0,
    ensures
        spec_parse_inventory(spec_render_group(g)) == (InventoryOutcome::Valid {
            groups: seq![g],
        }),
{
    reveal_with_fuel(spec_groups, 3);
    let s = spec_render_group(g);
    lemma_render_front_equiv(g.ranges);
    let acc0 = spec_empty_acc();
    assert(acc0.ranges + g.ranges =~= g.ranges);
    if g.name.len() == 0 {
        assert(s == render_front(g.ranges));
        assert(s.subrange(0, s.len() as int) =~= s);
        lemma_tokenize_units(s, 0, g.ranges);
        let toks = units_tokens(g.ranges, 0);
        assert(toks.len() > 0) by {
            assert(toks == range_tokens(g.ranges[0], 0) + units_tokens(
                g.ranges.drop_first(),
                range_text_len(g.ranges[0]) + 1,
            ));
        }
        assert(toks[0] == range_tokens(g.ranges[0], 0)[0]);
        assert(toks[0].kind == crate::parse::TokenKind::Number);
        if toks.len() > 1 {
            assert(toks[1] == (range_tokens(g.ranges[0], 0) + units_tokens(
                g.ranges.drop_first(),
                range_text_len(g.ranges[0]) + 1,
            ))[1]);
            if g.ranges[0].first != g.ranges[0].last {
                assert(toks[1].kind == crate::parse::TokenKind::Hyphen);
            } else {
                assert(range_tokens(g.ranges[0], 0).len() == 1);
                if g.ranges.drop_first().len() == 0 {
                    assert(units_tokens(
                        g.ranges.drop_first(),
                        range_text_len(g.ranges[0]) + 1,
                    ) == Seq::<SpecToken>::empty());
                    assert(false);
                }
                assert(toks[1] == units_tokens(
                    g.ranges.drop_first(),
                    range_text_len(g.ranges[0]) + 1,
                )[0]);
                assert(toks[1] == range_tokens(
                    g.ranges.drop_first()[0],
                    range_text_len(g.ranges[0]) + 1,
                )[0]);
                assert(toks[1].kind == crate::parse::TokenKind::Number);
            }
        }
        assert(!crate::inventory::spec_is_header(toks, 0));
        assert(spec_units_start(toks, 0) == 0);
        assert(spec_starts_unit(toks, 0));
        assert(toks.subrange(0, toks.len() as int) =~= toks);
        lemma_units_grammar(s, toks, 0, acc0, g.ranges, 0);
        match spec_units(s, toks, 0, acc0) {
            Ok(pair) => {
                assert(pair.0.ranges == g.ranges);
                assert(pair.0.errs == Seq::<InventoryErrorModel>::empty());
                let gm = GroupModel { name: spec_header_name(s, toks, 0), ranges: pair.0.ranges };
                assert(spec_header_name(s, toks, 0) == Seq::<char>::empty());
                assert(g.name =~= Seq::<char>::empty());
                assert(gm =~= g);
                let groups1 = Seq::<GroupModel>::empty().push(gm);
                assert(groups1 =~= seq![g]);
                let errs1 = Seq::<InventoryErrorModel>::empty() + spec_header_dup_errs(
                    s,
                    toks,
                    0,
                    Seq::empty(),
                ) + pair.0.errs;
                assert(errs1 =~= Seq::<InventoryErrorModel>::empty());
                assert(spec_groups(s, toks, 0, Seq::empty(), Seq::empty(), Seq::empty())
                    == spec_groups(
                    s,
                    toks,
                    pair.1,
                    spec_header_seen(s, toks, 0, Seq::empty()),
                    groups1,
                    errs1,
                ));
                assert(pair.1 == toks.len());
                assert(spec_groups(
                    s,
                    toks,
                    pair.1,
                    spec_header_seen(s, toks, 0, Seq::empty()),
                    groups1,
                    errs1,
                ) == (InventoryOutcome::Valid { groups: groups1 }));
            },
            Err(_) => {
                assert(false);
            },
        }
    }
}

/// The round trip for a named group.
#[verifier::rlimit(100)]
proof fn lemma_group_round_trip_named(g: GroupModel)
    requires
        g.ranges.len() > 0,
        all_upward(g.ranges),
        pairwise_disjoint(g.ranges),
        valid_group_name(g.name),
    ensures
        spec_parse_inventory(spec_render_group(g)) == (InventoryOutcome::Valid {
            groups: seq![g],
        }),
{
    reveal_with_fuel(spec_groups, 3);
    let s = spec_render_group(g);
    lemma_render_front_equiv(g.ranges);
    let acc0 = spec_empty_acc();
    assert(acc0.ranges + g.ranges =~= g.ranges);
    {
        let e = g.name.len() as int;
        let units_text = render_front(g.ranges);
        assert(s == g.name + seq!['='] + units_text) by {
            assert(spec_render_group(g) == g.name + seq!['='] + crate::group::spec_render_ranges(
                g.ranges,
            ));
        }
        assert(units_text.len() > 0) by {
            if g.ranges.len() == 1 {
                lemma_decimal_round_trip(g.ranges[0].first as int);
            }
        }
        assert forall|m: int| 0 <= m < e implies s[m] == g.name[m] by {
            assert(s[m] == ((g.name + seq!['=']) + units_text)[m]);
            assert((g.name + seq!['='])[m] == g.name[m]);
        }
        assert(s[e] == '=') by {
            assert(s[e] == ((g.name + seq!['=']) + units_text)[e]);
            assert((g.name + seq!['='])[e] == '=');
        }
        assert(s.subrange(0, e) =~= g.name);
        assert(e < s.len());
        lemma_scan_name_header(s, e);
        assert(s.subrange(e + 1, s.len() as int) =~= units_text) by {
            assert forall|m: int|
                0 <= m < s.len() - (e + 1) implies s.subrange(e + 1, s.len() as int)[m]
                == units_text[m] by {
                assert(s[e + 1 + m] == ((g.name + seq!['=']) + units_text)[e + 1 + m]);
            }
        }
        lemma_tokenize_units(s, e + 1, g.ranges);
        let utoks = units_tokens(g.ranges, e + 1);
        let scan0 = crate::parse::spec_scan(s, 0);
        let tok0 = SpecToken { kind: scan0->Found_kind, start: 0, end: e };
        assert(crate::parse::spec_scan(s, e) == (crate::parse::Scan::Found {
            kind: crate::parse::TokenKind::Equals,
            start: e,
            end: e + 1,
        }));
        let eqtok = SpecToken { kind: crate::parse::TokenKind::Equals, start: e, end: e + 1 };
        assert(crate::parse::spec_tokenize_from(s, e) == Ok::<Seq<SpecToken>, int>(
            seq![eqtok] + utoks,
        ));
        let toks = seq![tok0] + (seq![eqtok] + utoks);
        assert(crate::parse::spec_tokenize_from(s, 0int) == Ok::<Seq<SpecToken>, int>(toks));
        assert(utoks.len() > 0) by {
            assert(utoks == range_tokens(g.ranges[0], e + 1) + units_tokens(
                g.ranges.drop_first(),
                e + 1 + range_text_len(g.ranges[0]) + 1,
            ));
        }
        assert(toks.len() >= 3);
        assert(toks[0] == tok0);
        assert(toks[1] == eqtok);
        assert(crate::inventory::spec_is_header(toks, 0));
        assert(spec_units_start(toks, 0) == 2);
        assert forall|m: int| 0 <= m < utoks.len() implies toks[2 + m] == utoks[m] by {
            assert(toks[2 + m] == (seq![eqtok] + utoks)[1 + m]);
        }
        assert(toks[2].kind == crate::parse::TokenKind::Number) by {
            assert(utoks[0] == range_tokens(g.ranges[0], e + 1)[0]);
        }
        if toks.len() > 3 {
            assert(toks[3] == utoks[1]);
            if g.ranges[0].first != g.ranges[0].last {
                assert(utoks[1] == range_tokens(g.ranges[0], e + 1)[1]);
                assert(toks[3].kind == crate::parse::TokenKind::Hyphen);
            } else {
                assert(range_tokens(g.ranges[0], e + 1).len() == 1);
                if g.ranges.drop_first().len() == 0 {
                    assert(units_tokens(
                        g.ranges.drop_first(),
                        e + 1 + range_text_len(g.ranges[0]) + 1,
                    ) == Seq::<SpecToken>::empty());
                    assert(false);
                }
                assert(utoks[1] == units_tokens(
                    g.ranges.drop_first(),
                    e + 1 + range_text_len(g.ranges[0]) + 1,
                )[0]);
                assert(utoks[1] == range_tokens(
                    g.ranges.drop_first()[0],
                    e + 1 + range_text_len(g.ranges[0]) + 1,
                )[0]);
                assert(toks[3].kind == crate::parse::TokenKind::Number);
            }
        }
        assert(!crate::inventory::spec_is_header(toks, 2));
        assert(spec_starts_unit(toks, 2));
        assert(toks.subrange(2, toks.len() as int) =~= utoks);
        lemma_units_grammar(s, toks, 2, acc0, g.ranges, e + 1);
        match spec_units(s, toks, 2, acc0) {
            Ok(pair) => {
                assert(pair.0.ranges == g.ranges);
                assert(pair.0.errs == Seq::<InventoryErrorModel>::empty());
                assert(spec_header_name(s, toks, 0) == g.name) by {
                    assert(toks[0].start == 0 && toks[0].end == e);
                }
                let gm = GroupModel { name: spec_header_name(s, toks, 0), ranges: pair.0.ranges };
                assert(gm =~= g);
                assert(!crate::inventory::spec_seen_contains(
                    Seq::<(Seq<char>, SpanModel)>::empty(),
                    g.name,
                ));
                let groups1 = Seq::<GroupModel>::empty().push(gm);
                assert(groups1 =~= seq![g]);
                let errs1 = Seq::<InventoryErrorModel>::empty() + spec_header_dup_errs(
                    s,
                    toks,
                    0,
                    Seq::empty(),
                ) + pair.0.errs;
                assert(errs1 =~= Seq::<InventoryErrorModel>::empty());
                assert(spec_groups(s, toks, 0, Seq::empty(), Seq::empty(), Seq::empty())
                    == spec_groups(
                    s,
                    toks,
                    pair.1,
                    spec_header_seen(s, toks, 0, Seq::empty()),
                    groups1,
                    errs1,
                ));
                assert(pair.1 == toks.len());
                assert(spec_groups(
                    s,
                    toks,
                    pair.1,
                    spec_header_seen(s, toks, 0, Seq::empty()),
                    groups1,
                    errs1,
                ) == (InventoryOutcome::Valid { groups: groups1 }));
            },
            Err(_) => {
                assert(false);
            },
        }
    }
}

} // verus!
