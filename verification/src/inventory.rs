//! The inventory parser: turns text like `A=1-50, B=51-100` into an ordered
//! list of groups, validating unit numbers against overlaps, group names
//! against duplicates, and ranges against decreasing bounds.
//!
//! Semantic problems accumulate: one parse reports every overlapping range,
//! duplicate name and decreasing range it finds. A syntax error stops the
//! parse at once, since a malformed token stream cannot be continued.

use vstd::prelude::*;
use vstd::string::StrSliceExecFns;
use crate::group::{Group, GroupModel};
use crate::interval_tree::{overlap_pred, IntervalTree};
use crate::parse::{
    lemma_tokens_wf, parse_u32, spec_digits_val, spec_token_site, spec_tokenize_from,
    spec_tokens_wf, tokenize, Expectation, SpecToken, Token, TokenKind,
};
use crate::range::Range;

verus! {

/// The grammar anchor for inventory text; see [`parse`].
pub struct InventoryParser;

/// The mathematical content of an [`OwnedSpan`].
pub struct SpanModel {
    pub start: int,
    pub end: int,
    pub text: Seq<char>,
}

/// The piece of source text between two character positions.
pub open spec fn span_of(s: Seq<char>, start: int, end: int) -> SpanModel {
    SpanModel { start, end, text: s.subrange(start, end) }
}

/// A piece of the source text, copied out so error values can own it: its
/// character positions and the text between them.
#[derive(PartialEq, Clone, Debug)]
pub struct OwnedSpan {
    start: usize,
    end: usize,
    text: String,
}

impl View for OwnedSpan {
    type V = SpanModel;

    closed spec fn view(&self) -> SpanModel {
        SpanModel { start: self.start as int, end: self.end as int, text: self.text@ }
    }
}

impl OwnedSpan {
    pub fn new(start: usize, end: usize, text: String) -> (r: Self)
        ensures
            r@ == (SpanModel { start: start as int, end: end as int, text: text@ }),
    {
        Self { start, end, text }
    }

    /// The position where this text starts in the original string.
    pub fn start(&self) -> (r: usize)
        ensures
            r == self@.start,
    {
        self.start
    }

    /// The position just past this text in the original string.
    pub fn end(&self) -> (r: usize)
        ensures
            r == self@.end,
    {
        self.end
    }

    /// The text this span covers.
    pub fn text(&self) -> (r: &str)
        ensures
            r@ == self@.text,
    {
        self.text.as_str()
    }
}

/// The mathematical content of an [`InventoryParseError`].
pub enum InventoryErrorModel {
    Syntax { position: int, expected: Expectation },
    DuplicateGroup { first: SpanModel, duplicate: SpanModel },
    OverlappingRange { first: SpanModel, overlap: SpanModel },
    DecreasingRange { range: SpanModel },
}

/// One problem found while parsing inventory text.
#[derive(Debug, PartialEq, Clone)]
pub enum InventoryParseError {
    /// The token stream is malformed at this position.
    Syntax { position: usize, expected: Expectation },
    /// Two groups carry the same name; both name spans are reported.
    DuplicateGroup { first: OwnedSpan, duplicate: OwnedSpan },
    /// Two units of one group share a unit number; both unit spans are
    /// reported.
    OverlappingRange { first: OwnedSpan, overlap: OwnedSpan },
    /// A range runs downward, as in `20-11`.
    DecreasingRange { range: OwnedSpan },
}

impl View for InventoryParseError {
    type V = InventoryErrorModel;

    open spec fn view(&self) -> InventoryErrorModel {
        match self {
            InventoryParseError::Syntax { position, expected } => InventoryErrorModel::Syntax {
                position: *position as int,
                expected: *expected,
            },
            InventoryParseError::DuplicateGroup { first, duplicate } => (
            InventoryErrorModel::DuplicateGroup { first: first@, duplicate: duplicate@ }),
            InventoryParseError::OverlappingRange { first, overlap } => (
            InventoryErrorModel::OverlappingRange { first: first@, overlap: overlap@ }),
            InventoryParseError::DecreasingRange { range } => (
            InventoryErrorModel::DecreasingRange { range: range@ }),
        }
    }
}

/// The views of a list of inventory errors.
pub open spec fn errors_view(es: Seq<InventoryParseError>) -> Seq<InventoryErrorModel> {
    es.map_values(|e: InventoryParseError| e@)
}

/// The views of a list of groups.
pub open spec fn inventory_view(gs: Seq<Group>) -> Seq<GroupModel> {
    gs.map_values(|g: Group| g@)
}

/// What parsing inventory text yields.
pub enum InventoryOutcome {
    /// The token stream is malformed: the parse stops at once with this one
    /// error.
    Syntax { position: int, expected: Expectation },
    /// The text is readable but breaks the rules: every problem found, in
    /// source order. No group list is returned.
    Invalid { errs: Seq<InventoryErrorModel> },
    /// The groups, in declaration order.
    Valid { groups: Seq<GroupModel> },
}

/// The accumulated state of one group's unit list: the ranges accepted so
/// far, the text span of each, and the problems found so far.
pub struct UnitAcc {
    pub ranges: Seq<Range>,
    pub spans: Seq<SpanModel>,
    pub errs: Seq<InventoryErrorModel>,
}

/// One overlap error for every earlier accepted unit that shares a number
/// with the new range, in the order the units were written.
pub open spec fn spec_overlap_errs(
    ranges: Seq<Range>,
    spans: Seq<SpanModel>,
    r: Range,
    sp: SpanModel,
) -> Seq<InventoryErrorModel>
    decreases ranges.len(),
{
    if ranges.len() == 0 {
        Seq::empty()
    } else {
        (if ranges[0].spec_overlaps(r) {
            seq![InventoryErrorModel::OverlappingRange { first: spans[0], overlap: sp }]
        } else {
            Seq::empty()
        }) + spec_overlap_errs(ranges.drop_first(), spans.drop_first(), r, sp)
    }
}

/// Accepts one unit into the group: records overlaps with every earlier
/// unit, then keeps the range so later units are checked against it too.
pub open spec fn spec_accept(acc: UnitAcc, r: Range, sp: SpanModel) -> UnitAcc {
    UnitAcc {
        ranges: acc.ranges.push(r),
        spans: acc.spans.push(sp),
        errs: acc.errs + spec_overlap_errs(acc.ranges, acc.spans, r, sp),
    }
}

/// The unit state of a group none of whose units have been read yet.
pub open spec fn spec_empty_acc() -> UnitAcc {
    UnitAcc {
        ranges: Seq::<Range>::empty(),
        spans: Seq::<SpanModel>::empty(),
        errs: Seq::<InventoryErrorModel>::empty(),
    }
}

/// Whether the token at `i` opens a group: a name or number bound to the
/// group by a following `=`.
pub open spec fn spec_is_header(toks: Seq<SpecToken>, i: int) -> bool {
    &&& 0 <= i < toks.len()
    &&& (toks[i].kind == TokenKind::Number || toks[i].kind == TokenKind::Identifier)
    &&& i + 1 < toks.len()
    &&& toks[i + 1].kind == TokenKind::Equals
}

/// Whether a unit can start at token `i`: a number that does not itself open
/// a group.
pub open spec fn spec_starts_unit(toks: Seq<SpecToken>, i: int) -> bool {
    &&& 0 <= i < toks.len()
    &&& toks[i].kind == TokenKind::Number
    &&& !spec_is_header(toks, i)
}

/// Reads the units of one group from token `i` on. Returns the accumulated
/// group state and the index of the next group header (or the end of the
/// tokens), or the position and nature of a syntax error.
#[verifier::opaque]
pub open spec fn spec_units(s: Seq<char>, toks: Seq<SpecToken>, i: int, acc: UnitAcc) -> Result<
    (UnitAcc, int),
    (int, Expectation),
>
    decreases toks.len() - i,
{
    if i < 0 || i >= toks.len() {
        Ok((acc, i))
    } else if spec_is_header(toks, i) {
        Ok((acc, i))
    } else if toks[i].kind == TokenKind::Identifier {
        Err((toks[i].start, Expectation::EqualsSign))
    } else if toks[i].kind == TokenKind::Equals || toks[i].kind == TokenKind::Hyphen {
        Err((toks[i].start, Expectation::Unit))
    } else if i + 1 < toks.len() && toks[i + 1].kind == TokenKind::Hyphen {
        // a range unit: number, hyphen, number
        if i + 2 < toks.len() && toks[i + 2].kind == TokenKind::Number {
            let a = spec_digits_val(s.subrange(toks[i].start, toks[i].end));
            let b = spec_digits_val(s.subrange(toks[i + 2].start, toks[i + 2].end));
            let sp = span_of(s, toks[i].start, toks[i + 2].end);
            if a > u32::MAX {
                Err((toks[i].start, Expectation::NumberInRange))
            } else if b > u32::MAX {
                Err((toks[i + 2].start, Expectation::NumberInRange))
            } else if a > b {
                spec_units(
                    s,
                    toks,
                    i + 3,
                    UnitAcc {
                        ranges: acc.ranges,
                        spans: acc.spans,
                        errs: acc.errs.push(InventoryErrorModel::DecreasingRange { range: sp }),
                    },
                )
            } else {
                spec_units(
                    s,
                    toks,
                    i + 3,
                    spec_accept(acc, Range { first: a as u32, last: b as u32 }, sp),
                )
            }
        } else {
            Err((if i + 2 < toks.len() {
                toks[i + 2].start
            } else {
                s.len() as int
            }, Expectation::Number))
        }
    } else {
        // a single-number unit
        let a = spec_digits_val(s.subrange(toks[i].start, toks[i].end));
        let sp = span_of(s, toks[i].start, toks[i].end);
        if a > u32::MAX {
            Err((toks[i].start, Expectation::NumberInRange))
        } else {
            spec_units(s, toks, i + 1, spec_accept(acc, Range { first: a as u32, last: a as u32 }, sp))
        }
    }
}

/// Whether one of the groups seen so far carries this name.
pub open spec fn spec_seen_contains(seen: Seq<(Seq<char>, SpanModel)>, name: Seq<char>) -> bool
    decreases seen.len(),
{
    if seen.len() == 0 {
        false
    } else if seen[0].0 == name {
        true
    } else {
        spec_seen_contains(seen.drop_first(), name)
    }
}

/// The name span of the first group seen with this name.
pub open spec fn spec_seen_lookup(seen: Seq<(Seq<char>, SpanModel)>, name: Seq<char>) -> SpanModel
    decreases seen.len(),
{
    if seen.len() == 0 {
        SpanModel { start: 0, end: 0, text: Seq::empty() }
    } else if seen[0].0 == name {
        seen[0].1
    } else {
        spec_seen_lookup(seen.drop_first(), name)
    }
}

/// The name a group header binds; empty when the group is unnamed.
pub open spec fn spec_header_name(s: Seq<char>, toks: Seq<SpecToken>, i: int) -> Seq<char> {
    if spec_is_header(toks, i) {
        s.subrange(toks[i].start, toks[i].end)
    } else {
        Seq::empty()
    }
}

/// The duplicate-name report a group header provokes.
pub open spec fn spec_header_dup_errs(
    s: Seq<char>,
    toks: Seq<SpecToken>,
    i: int,
    seen: Seq<(Seq<char>, SpanModel)>,
) -> Seq<InventoryErrorModel> {
    if spec_is_header(toks, i) && spec_seen_contains(seen, spec_header_name(s, toks, i)) {
        seq![
            InventoryErrorModel::DuplicateGroup {
                first: spec_seen_lookup(seen, spec_header_name(s, toks, i)),
                duplicate: span_of(s, toks[i].start, toks[i].end),
            },
        ]
    } else {
        Seq::empty()
    }
}

/// The name map after a group header.
pub open spec fn spec_header_seen(
    s: Seq<char>,
    toks: Seq<SpecToken>,
    i: int,
    seen: Seq<(Seq<char>, SpanModel)>,
) -> Seq<(Seq<char>, SpanModel)> {
    if spec_is_header(toks, i) && !spec_seen_contains(seen, spec_header_name(s, toks, i)) {
        seen.push((spec_header_name(s, toks, i), span_of(s, toks[i].start, toks[i].end)))
    } else {
        seen
    }
}

/// Where a group's unit list begins.
pub open spec fn spec_units_start(toks: Seq<SpecToken>, i: int) -> int {
    if spec_is_header(toks, i) {
        i + 2
    } else {
        i
    }
}

/// Reads groups from token `i` to the end. `seen` maps each group name to
/// its first occurrence, `groups` and `errs` carry what earlier groups
/// produced.
#[verifier::opaque]
pub open spec fn spec_groups(
    s: Seq<char>,
    toks: Seq<SpecToken>,
    i: int,
    seen: Seq<(Seq<char>, SpanModel)>,
    groups: Seq<GroupModel>,
    errs: Seq<InventoryErrorModel>,
) -> InventoryOutcome
    decreases toks.len() - i
        when 0 <= i
        via spec_groups_decreases
{
    if i >= toks.len() {
        if errs.len() > 0 {
            InventoryOutcome::Invalid { errs }
        } else {
            InventoryOutcome::Valid { groups }
        }
    } else if !spec_starts_unit(toks, spec_units_start(toks, i)) {
        InventoryOutcome::Syntax {
            position: if spec_units_start(toks, i) < toks.len() {
                toks[spec_units_start(toks, i)].start
            } else {
                s.len() as int
            },
            expected: Expectation::Unit,
        }
    } else {
        match spec_units(s, toks, spec_units_start(toks, i), spec_empty_acc()) {
            Err((position, expected)) => InventoryOutcome::Syntax { position, expected },
            Ok((acc, next)) => spec_groups(
                s,
                toks,
                next,
                spec_header_seen(s, toks, i, seen),
                groups.push(GroupModel { name: spec_header_name(s, toks, i), ranges: acc.ranges }),
                errs + spec_header_dup_errs(s, toks, i, seen) + acc.errs,
            ),
        }
    }
}

/// Reading units never moves backward, and stops inside the tokens.
pub proof fn lemma_spec_units_progress(s: Seq<char>, toks: Seq<SpecToken>, i: int, acc: UnitAcc)
    requires
        0 <= i <= toks.len(),
    ensures
        (match spec_units(s, toks, i, acc) {
            Ok(pair) => i <= pair.1 <= toks.len() && (spec_starts_unit(toks, i) ==> pair.1 > i),
            Err(_) => true,
        }),
    decreases toks.len() - i,
{
    reveal(spec_units);
    if i >= toks.len() || spec_is_header(toks, i) {
    } else if toks[i].kind == TokenKind::Identifier || toks[i].kind == TokenKind::Equals
        || toks[i].kind == TokenKind::Hyphen {
    } else if i + 1 < toks.len() && toks[i + 1].kind == TokenKind::Hyphen {
        if i + 2 < toks.len() && toks[i + 2].kind == TokenKind::Number {
            let a = spec_digits_val(s.subrange(toks[i].start, toks[i].end));
            let b = spec_digits_val(s.subrange(toks[i + 2].start, toks[i + 2].end));
            if a <= u32::MAX && b <= u32::MAX {
                if a > b {
                    lemma_spec_units_progress(
                        s,
                        toks,
                        i + 3,
                        UnitAcc {
                            ranges: acc.ranges,
                            spans: acc.spans,
                            errs: acc.errs.push(
                                InventoryErrorModel::DecreasingRange {
                                    range: span_of(s, toks[i].start, toks[i + 2].end),
                                },
                            ),
                        },
                    );
                } else {
                    lemma_spec_units_progress(
                        s,
                        toks,
                        i + 3,
                        spec_accept(
                            acc,
                            Range { first: a as u32, last: b as u32 },
                            span_of(s, toks[i].start, toks[i + 2].end),
                        ),
                    );
                }
            }
        }
    } else {
        let a = spec_digits_val(s.subrange(toks[i].start, toks[i].end));
        if a <= u32::MAX {
            lemma_spec_units_progress(
                s,
                toks,
                i + 1,
                spec_accept(
                    acc,
                    Range { first: a as u32, last: a as u32 },
                    span_of(s, toks[i].start, toks[i].end),
                ),
            );
        }
    }
}

#[via_fn]
proof fn spec_groups_decreases(
    s: Seq<char>,
    toks: Seq<SpecToken>,
    i: int,
    seen: Seq<(Seq<char>, SpanModel)>,
    groups: Seq<GroupModel>,
    errs: Seq<InventoryErrorModel>,
) {
    if 0 <= i < toks.len() {
        let ustart = if spec_is_header(toks, i) {
            i + 2
        } else {
            i
        };
        if spec_starts_unit(toks, ustart) {
            lemma_spec_units_progress(s, toks, ustart, spec_empty_acc());
        }
    }
}

/// The spans standing at the given text positions.
pub open spec fn spans_of(s: Seq<char>, payloads: Seq<(usize, usize)>) -> Seq<SpanModel> {
    payloads.map_values(|p: (usize, usize)| span_of(s, p.0 as int, p.1 as int))
}

/// The (range, text positions) pairs a group's index holds.
pub open spec fn stored_pairs(ranges: Seq<Range>, payloads: Seq<(usize, usize)>) -> Seq<
    (Range, (usize, usize)),
> {
    Seq::new(ranges.len(), |k: int| (ranges[k], payloads[k]))
}

/// Accepting one more unit adds its overlap report at the end of the list.
proof fn lemma_overlap_errs_push(
    ranges: Seq<Range>,
    spans: Seq<SpanModel>,
    r0: Range,
    sp0: SpanModel,
    r: Range,
    sp: SpanModel,
)
    requires
        ranges.len() == spans.len(),
    ensures
        spec_overlap_errs(ranges.push(r0), spans.push(sp0), r, sp) == spec_overlap_errs(
            ranges,
            spans,
            r,
            sp,
        ) + (if r0.spec_overlaps(r) {
            seq![InventoryErrorModel::OverlappingRange { first: sp0, overlap: sp }]
        } else {
            Seq::<InventoryErrorModel>::empty()
        }),
    decreases ranges.len(),
{
    let tail: Seq<InventoryErrorModel> = if r0.spec_overlaps(r) {
        seq![InventoryErrorModel::OverlappingRange { first: sp0, overlap: sp }]
    } else {
        Seq::empty()
    };
    if ranges.len() == 0 {
        assert(ranges.push(r0)[0] == r0);
        assert(spans.push(sp0)[0] == sp0);
        assert(ranges.push(r0).drop_first() =~= Seq::<Range>::empty());
        assert(spans.push(sp0).drop_first() =~= Seq::<SpanModel>::empty());
        assert(spec_overlap_errs(ranges.push(r0), spans.push(sp0), r, sp) == tail
            + spec_overlap_errs(Seq::<Range>::empty(), Seq::<SpanModel>::empty(), r, sp));
        assert(tail + Seq::<InventoryErrorModel>::empty() =~= tail);
        assert(spec_overlap_errs(ranges, spans, r, sp) + tail =~= tail);
    } else {
        assert(ranges.push(r0)[0] == ranges[0]);
        assert(spans.push(sp0)[0] == spans[0]);
        assert(ranges.push(r0).drop_first() =~= ranges.drop_first().push(r0));
        assert(spans.push(sp0).drop_first() =~= spans.drop_first().push(sp0));
        lemma_overlap_errs_push(ranges.drop_first(), spans.drop_first(), r0, sp0, r, sp);
        let head: Seq<InventoryErrorModel> = if ranges[0].spec_overlaps(r) {
            seq![InventoryErrorModel::OverlappingRange { first: spans[0], overlap: sp }]
        } else {
            Seq::empty()
        };
        assert(head + (spec_overlap_errs(ranges.drop_first(), spans.drop_first(), r, sp) + tail)
            =~= (head + spec_overlap_errs(ranges.drop_first(), spans.drop_first(), r, sp)) + tail);
    }
}

/// Whether two strings hold the same characters.
fn str_eq(a: &str, b: &str) -> (r: bool)
    ensures
        r == (a@ == b@),
{
    let n = a.unicode_len();
    if n != b.unicode_len() {
        return false;
    }
    let mut i: usize = 0;
    while i < n
        invariant
            0 <= i <= n,
            n == a@.len() == b@.len(),
            forall|k: int| 0 <= k < i ==> a@[k] == b@[k],
        decreases n - i,
    {
        if a.get_char(i) != b.get_char(i) {
            return false;
        }
        i = i + 1;
    }
    proof {
        assert(a@ =~= b@);
    }
    true
}

/// The executable tokens stand exactly for the scanned tokens of this text,
/// which are well placed (see [`spec_tokens_wf`]).
#[verifier::opaque]
pub(crate) open spec fn tokens_bound<'s>(
    s: Seq<char>,
    toks: Seq<Token<'s>>,
    ts: Seq<SpecToken>,
) -> bool {
    &&& toks.len() == ts.len()
    &&& (forall|k: int|
        0 <= k < ts.len() ==> (#[trigger] toks[k]).is_token_of(
            s,
            ts[k].kind,
            ts[k].start,
            ts[k].end,
        ))
    &&& spec_tokens_wf(s, ts)
}

/// What the bound tells about one token.
proof fn lemma_token_at<'s>(s: Seq<char>, toks: Seq<Token<'s>>, ts: Seq<SpecToken>, k: int)
    requires
        tokens_bound(s, toks, ts),
        0 <= k < ts.len(),
    ensures
        toks[k].is_token_of(s, ts[k].kind, ts[k].start, ts[k].end),
        spec_token_site(s, ts[k]),
{
    reveal(tokens_bound);
}

/// Looks a name up among the group names seen so far, returning the text
/// positions of its first occurrence.
fn seen_lookup(
    seen: &Vec<(String, usize, usize)>,
    name: &str,
    Ghost(s): Ghost<Seq<char>>,
    Ghost(seen_g): Ghost<Seq<(Seq<char>, SpanModel)>>,
) -> (r: Option<(usize, usize)>)
    requires
        seen@.len() == seen_g.len(),
        forall|k: int|
            0 <= k < seen@.len() ==> {
                &&& (#[trigger] seen@[k]).0@ == seen_g[k].0
                &&& seen_g[k].1 == span_of(s, seen@[k].1 as int, seen@[k].2 as int)
                &&& seen@[k].1 <= seen@[k].2 <= s.len()
            },
    ensures
        (match r {
            Some(p) => {
                &&& spec_seen_contains(seen_g, name@)
                &&& spec_seen_lookup(seen_g, name@) == span_of(s, p.0 as int, p.1 as int)
                &&& p.0 <= p.1 <= s.len()
            },
            None => !spec_seen_contains(seen_g, name@),
        }),
{
    let n = seen.len();
    let mut k: usize = 0;
    proof {
        assert(seen_g.skip(0int) =~= seen_g);
    }
    while k < n
        invariant
            0 <= k <= n,
            n == seen@.len() == seen_g.len(),
            forall|j: int|
                0 <= j < seen@.len() ==> {
                    &&& (#[trigger] seen@[j]).0@ == seen_g[j].0
                    &&& seen_g[j].1 == span_of(s, seen@[j].1 as int, seen@[j].2 as int)
                    &&& seen@[j].1 <= seen@[j].2 <= s.len()
                },
            spec_seen_contains(seen_g, name@) == spec_seen_contains(
                seen_g.skip(k as int),
                name@,
            ),
            spec_seen_contains(seen_g, name@) ==> spec_seen_lookup(seen_g, name@)
                == spec_seen_lookup(seen_g.skip(k as int), name@),
        decreases n - k,
    {
        proof {
            assert(seen_g.skip(k as int)[0] == seen_g[k as int]);
            assert(seen_g.skip(k as int).drop_first() =~= seen_g.skip(k + 1));
        }
        if str_eq(seen[k].0.as_str(), name) {
            return Some((seen[k].1, seen[k].2));
        }
        k = k + 1;
    }
    None
}

/// Reports, in the order the units were written, every earlier unit of the
/// group whose range shares a number with the new range, by asking the
/// group's interval index.
#[verifier::loop_isolation(false)]
fn overlap_errors(
    input: &str,
    tree: &IntervalTree<(usize, usize)>,
    ranges: &Vec<Range>,
    payloads: &Vec<(usize, usize)>,
    r: Range,
    sp_start: usize,
    sp_end: usize,
    errors: &mut Vec<InventoryParseError>,
)
    requires
        tree.wf(),
        payloads@.len() == ranges@.len(),
        forall|k: int|
            0 <= k < payloads@.len() ==> (#[trigger] payloads@[k]).0 <= payloads@[k].1
                <= input@.len(),
        sp_start <= sp_end <= input@.len(),
        input@.len() <= usize::MAX,
        tree.pairs().to_multiset() == stored_pairs(ranges@, payloads@).to_multiset(),
    ensures
        errors_view(final(errors)@) == errors_view(old(errors)@) + spec_overlap_errs(
            ranges@,
            spans_of(input@, payloads@),
            r,
            span_of(input@, sp_start as int, sp_end as int),
        ),
{
    broadcast use vstd::seq_lib::group_to_multiset_ensures;
    broadcast use vstd::multiset::group_multiset_axioms;

    let ghost s = input@;
    let ghost sp = span_of(s, sp_start as int, sp_end as int);
    let ghost spans = spans_of(s, payloads@);
    let ghost pred = overlap_pred::<(usize, usize)>(r);
    let mut found: Vec<(Range, (usize, usize))> = Vec::new();
    tree.overlap_search(&r, &mut found);
    proof {
        assert(Seq::<(Range, (usize, usize))>::empty() + tree.pairs().filter(pred)
            =~= tree.pairs().filter(pred));
        crate::parse::lemma_filter_elems(tree.pairs(), pred);
    }
    let overlap_span = OwnedSpan::new(
        sp_start,
        sp_end,
        input.substring_char(sp_start, sp_end).to_owned(),
    );
    let n = ranges.len();
    let mut k: usize = 0;
    proof {
        assert(ranges@.take(0int) =~= Seq::<Range>::empty());
        assert(spans.take(0int) =~= Seq::<SpanModel>::empty());
        assert(errors_view(errors@) + Seq::<InventoryErrorModel>::empty() =~= errors_view(
            errors@,
        ));
    }
    while k < n
        invariant
            0 <= k <= n,
            n == ranges@.len() == payloads@.len(),
            tree.wf(),
            forall|j: int|
                0 <= j < payloads@.len() ==> (#[trigger] payloads@[j]).0 <= payloads@[j].1
                    <= input@.len(),
            input@.len() <= usize::MAX,
            s == input@,
            spans == spans_of(s, payloads@),
            sp == span_of(s, sp_start as int, sp_end as int),
            pred == overlap_pred::<(usize, usize)>(r),
            overlap_span@ == sp,
            tree.pairs().to_multiset() == stored_pairs(ranges@, payloads@).to_multiset(),
            found@ == tree.pairs().filter(pred),
            forall|x: (Range, (usize, usize))| #[trigger]
                tree.pairs().filter(pred).contains(x) ==> tree.pairs().contains(x) && pred(x),
            errors_view(errors@) == errors_view(old(errors)@) + spec_overlap_errs(
                ranges@.take(k as int),
                spans.take(k as int),
                r,
                sp,
            ),
        decreases n - k,
    {
        let cand = (ranges[k], (payloads[k].0, payloads[k].1));
        let ghost stored = stored_pairs(ranges@, payloads@);
        proof {
            assert(payloads@[k as int] == (payloads@[k as int].0, payloads@[k as int].1));
            assert(stored[k as int] == cand);
        }
        let mut present = false;
        let m = found.len();
        let mut t: usize = 0;
        while t < m
            invariant
                0 <= t <= m,
                m == found@.len(),
                present == exists|u: int| 0 <= u < t && found@[u] == cand,
            decreases m - t,
        {
            if found[t].0 == cand.0 && found[t].1.0 == cand.1.0 && found[t].1.1 == cand.1.1 {
                proof {
                    assert(found@[t as int] == cand);
                }
                present = true;
            }
            t = t + 1;
        }
        let ghost old_errs = errors@;
        if present {
            let first_span = OwnedSpan::new(
                payloads[k].0,
                payloads[k].1,
                input.substring_char(payloads[k].0, payloads[k].1).to_owned(),
            );
            errors.push(
                InventoryParseError::OverlappingRange {
                    first: first_span,
                    overlap: OwnedSpan::new(
                        sp_start,
                        sp_end,
                        input.substring_char(sp_start, sp_end).to_owned(),
                    ),
                },
            );
        }
        k = k + 1;
        proof {
            // present holds exactly when the new range overlaps this unit
            if present {
                let u = choose|u: int| 0 <= u < m && found@[u] == cand;
                assert(found@.contains(cand));
                assert(pred(cand));
            } else {
                if pred(cand) {
                    assert(stored.contains(cand));
                    assert(stored.to_multiset().count(cand) > 0);
                    assert(tree.pairs().to_multiset().count(cand) > 0);
                    assert(tree.pairs().contains(cand));
                    let w = choose|w: int|
                        0 <= w < tree.pairs().len() && tree.pairs()[w] == cand;
                    tree.pairs().lemma_filter_contains(pred, w);
                    assert(found@.contains(cand));
                    let u = choose|u: int| 0 <= u < found@.len() && found@[u] == cand;
                    assert(false);
                }
            }
            assert(ranges@.take(k as int) =~= ranges@.take(k - 1).push(ranges@[k - 1]));
            assert(spans.take(k as int) =~= spans.take(k - 1).push(spans[k - 1]));
            lemma_overlap_errs_push(
                ranges@.take(k - 1),
                spans.take(k - 1),
                ranges@[k - 1],
                spans[k - 1],
                r,
                sp,
            );
            assert(spans[k - 1] == span_of(
                s,
                payloads@[k - 1].0 as int,
                payloads@[k - 1].1 as int,
            ));
            if present {
                assert(errors_view(errors@) =~= errors_view(old_errs).push(
                    InventoryErrorModel::OverlappingRange {
                        first: spans[k - 1],
                        overlap: sp,
                    },
                ));
                assert(errors_view(old_errs).push(
                    InventoryErrorModel::OverlappingRange {
                        first: spans[k - 1],
                        overlap: sp,
                    },
                ) =~= errors_view(old_errs) + seq![
                    InventoryErrorModel::OverlappingRange {
                        first: spans[k - 1],
                        overlap: sp,
                    },
                ]);
                assert((errors_view(old(errors)@) + spec_overlap_errs(
                    ranges@.take(k - 1),
                    spans.take(k - 1),
                    r,
                    sp,
                )) + seq![
                    InventoryErrorModel::OverlappingRange {
                        first: spans[k - 1],
                        overlap: sp,
                    },
                ] =~= errors_view(old(errors)@) + (spec_overlap_errs(
                    ranges@.take(k - 1),
                    spans.take(k - 1),
                    r,
                    sp,
                ) + seq![
                    InventoryErrorModel::OverlappingRange {
                        first: spans[k - 1],
                        overlap: sp,
                    },
                ]));
            } else {
                assert(spec_overlap_errs(ranges@.take(k - 1), spans.take(k - 1), r, sp)
                    + Seq::<InventoryErrorModel>::empty() =~= spec_overlap_errs(
                    ranges@.take(k - 1),
                    spans.take(k - 1),
                    r,
                    sp,
                ));
            }
        }
    }
    proof {
        assert(ranges@.take(n as int) =~= ranges@);
        assert(spans.take(n as int) =~= spans);
    }
}

/// One whole group advances the grammar: reading its header and its units
/// appends one group, its duplicate report and its unit reports.
proof fn lemma_groups_step_ok(
    s: Seq<char>,
    toks: Seq<SpecToken>,
    i: int,
    seen: Seq<(Seq<char>, SpanModel)>,
    groups: Seq<GroupModel>,
    errs: Seq<InventoryErrorModel>,
    acc: UnitAcc,
    next: int,
)
    requires
        0 <= i < toks.len(),
        spec_starts_unit(toks, spec_units_start(toks, i)),
        spec_units(s, toks, spec_units_start(toks, i), spec_empty_acc()) == Ok::<
            (UnitAcc, int),
            (int, Expectation),
        >((acc, next)),
        0 <= next,
    ensures
        spec_groups(s, toks, i, seen, groups, errs) == spec_groups(
            s,
            toks,
            next,
            spec_header_seen(s, toks, i, seen),
            groups.push(GroupModel { name: spec_header_name(s, toks, i), ranges: acc.ranges }),
            errs + spec_header_dup_errs(s, toks, i, seen) + acc.errs,
        ),
{
    reveal(spec_groups);
}

/// A group whose unit list cannot start is a syntax error.
proof fn lemma_groups_step_no_unit(
    s: Seq<char>,
    toks: Seq<SpecToken>,
    i: int,
    seen: Seq<(Seq<char>, SpanModel)>,
    groups: Seq<GroupModel>,
    errs: Seq<InventoryErrorModel>,
)
    requires
        0 <= i < toks.len(),
        !spec_starts_unit(toks, spec_units_start(toks, i)),
    ensures
        spec_groups(s, toks, i, seen, groups, errs) == (InventoryOutcome::Syntax {
            position: if spec_units_start(toks, i) < toks.len() {
                toks[spec_units_start(toks, i)].start
            } else {
                s.len() as int
            },
            expected: Expectation::Unit,
        }),
{
    reveal(spec_groups);
}

/// A syntax error inside a group's unit list stops the parse with it.
proof fn lemma_groups_step_bad_units(
    s: Seq<char>,
    toks: Seq<SpecToken>,
    i: int,
    seen: Seq<(Seq<char>, SpanModel)>,
    groups: Seq<GroupModel>,
    errs: Seq<InventoryErrorModel>,
    pos: int,
    exp: Expectation,
)
    requires
        0 <= i < toks.len(),
        spec_starts_unit(toks, spec_units_start(toks, i)),
        spec_units(s, toks, spec_units_start(toks, i), spec_empty_acc()) == Err::<
            (UnitAcc, int),
            _,
        >((pos, exp)),
    ensures
        spec_groups(s, toks, i, seen, groups, errs) == (InventoryOutcome::Syntax {
            position: pos,
            expected: exp,
        }),
{
    reveal(spec_groups);
}

/// Accepts one unit into the group being read: reports its overlaps with
/// every earlier unit, then stores it in the index so later units are
/// checked against it too.
fn accept_unit<'s>(
    input: &'s str,
    tree: &mut IntervalTree<(usize, usize)>,
    ranges: &mut Vec<Range>,
    payloads: &mut Vec<(usize, usize)>,
    uerrors: &mut Vec<InventoryParseError>,
    rnew: Range,
    sp0: usize,
    sp1: usize,
)
    requires
        input@.len() <= usize::MAX,
        sp0 <= sp1 <= input@.len(),
        old(tree).wf(),
        old(ranges)@.len() == old(payloads)@.len(),
        forall|j: int|
            0 <= j < old(payloads)@.len() ==> (#[trigger] old(payloads)@[j]).0
                <= old(payloads)@[j].1 <= input@.len(),
        old(tree).pairs().to_multiset() == stored_pairs(
            old(ranges)@,
            old(payloads)@,
        ).to_multiset(),
    ensures
        final(tree).wf(),
        final(ranges)@ == old(ranges)@.push(rnew),
        final(payloads)@ == old(payloads)@.push((sp0, sp1)),
        final(ranges)@.len() == final(payloads)@.len(),
        forall|j: int|
            0 <= j < final(payloads)@.len() ==> (#[trigger] final(payloads)@[j]).0
                <= final(payloads)@[j].1 <= input@.len(),
        final(tree).pairs().to_multiset() == stored_pairs(
            final(ranges)@,
            final(payloads)@,
        ).to_multiset(),
        (UnitAcc {
            ranges: final(ranges)@,
            spans: spans_of(input@, final(payloads)@),
            errs: errors_view(final(uerrors)@),
        }) == spec_accept(
            UnitAcc {
                ranges: old(ranges)@,
                spans: spans_of(input@, old(payloads)@),
                errs: errors_view(old(uerrors)@),
            },
            rnew,
            span_of(input@, sp0 as int, sp1 as int),
        ),
{
    broadcast use vstd::seq_lib::group_to_multiset_ensures;
    broadcast use vstd::multiset::group_multiset_axioms;

    let ghost s = input@;
    let ghost ranges0 = ranges@;
    let ghost payloads0 = payloads@;
    overlap_errors(input, &*tree, &*ranges, &*payloads, rnew, sp0, sp1, &mut *uerrors);
    tree.insert(rnew, (sp0, sp1));
    ranges.push(rnew);
    payloads.push((sp0, sp1));
    proof {
        assert(spans_of(s, payloads@) =~= spans_of(s, payloads0).push(
            span_of(s, sp0 as int, sp1 as int),
        ));
        assert(stored_pairs(ranges@, payloads@) =~= stored_pairs(ranges0, payloads0).push(
            (rnew, (sp0, sp1)),
        ));
        assert(tree.pairs().to_multiset() =~= stored_pairs(ranges@, payloads@).to_multiset());
    }
}

/// Reads one group's unit list starting at token `ustart`: accepts each
/// unit, checking it against the group's interval index for overlaps, and
/// stops at the next group header or the end of the tokens. Returns the
/// ranges, the problems found, and the index of the next group, or the
/// position and nature of a syntax error.
#[verifier::loop_isolation(false)]
#[verifier::rlimit(100)]
fn parse_group_units<'s>(
    input: &'s str,
    tokens: &Vec<Token<'s>>,
    ustart: usize,
    Ghost(ts): Ghost<Seq<SpecToken>>,
) -> (r: Result<(Vec<Range>, Vec<InventoryParseError>, usize), (usize, Expectation)>)
    requires
        tokens@.len() == ts.len(),
        tokens_bound(input@, tokens@, ts),
        input@.len() <= usize::MAX,
        ustart <= ts.len(),
    ensures
        (match r {
            Ok(triple) => spec_units(input@, ts, ustart as int, spec_empty_acc()) matches Ok(pair)
                && pair.0.ranges == triple.0@ && pair.0.errs == errors_view(triple.1@) && pair.1
                == triple.2 as int && triple.2 <= ts.len(),
            Err(pe) => spec_units(input@, ts, ustart as int, spec_empty_acc()) == Err::<
                (UnitAcc, int),
                _,
            >((pe.0 as int, pe.1)),
        }),
{
    broadcast use vstd::seq_lib::group_to_multiset_ensures;
    broadcast use vstd::multiset::group_multiset_axioms;

    let ghost s = input@;
    let n = tokens.len();
    let total_len = input.unicode_len();
    proof {
        reveal(spec_units);
        reveal(tokens_bound);
    }
    let ghost acc0 = spec_empty_acc();
    let mut ranges: Vec<Range> = Vec::new();
    let mut payloads: Vec<(usize, usize)> = Vec::new();
    let mut uerrors: Vec<InventoryParseError> = Vec::new();
    let mut tree: IntervalTree<(usize, usize)> = IntervalTree::new();
    let mut k = ustart;
    proof {
        assert(stored_pairs(ranges@, payloads@) =~= Seq::<(Range, (usize, usize))>::empty());
        assert(tree.pairs().to_multiset() =~= stored_pairs(ranges@, payloads@).to_multiset());
        assert(spans_of(s, payloads@) =~= Seq::<SpanModel>::empty());
        assert(errors_view(uerrors@) =~= Seq::<InventoryErrorModel>::empty());
    }
    while k < n && !((tokens[k].kind() == TokenKind::Number || tokens[k].kind()
        == TokenKind::Identifier) && k + 1 < n && tokens[k + 1].kind() == TokenKind::Equals)
        invariant
            ustart <= k <= n,
            ranges@.len() == payloads@.len(),
            forall|j: int|
                0 <= j < payloads@.len() ==> (#[trigger] payloads@[j]).0 <= payloads@[j].1
                    <= s.len(),
            tree.wf(),
            tree.pairs().to_multiset() == stored_pairs(ranges@, payloads@).to_multiset(),
            spec_units(s, ts, ustart as int, acc0) == spec_units(
                s,
                ts,
                k as int,
                UnitAcc {
                    ranges: ranges@,
                    spans: spans_of(s, payloads@),
                    errs: errors_view(uerrors@),
                },
            ),
        decreases n - k,
    {
        proof {
            reveal(spec_units);
        }
        let ghost k0 = k as int;
        proof {
            assert(!spec_is_header(ts, k0));
            assert(spec_token_site(s, ts[k0]));
        }
        let tk2 = tokens[k].kind();
        if tk2 == TokenKind::Identifier {
            return Err((tokens[k].start_pos(), Expectation::EqualsSign));
        }
        if tk2 == TokenKind::Equals || tk2 == TokenKind::Hyphen {
            return Err((tokens[k].start_pos(), Expectation::Unit));
        }
        if k + 1 < n && tokens[k + 1].kind() == TokenKind::Hyphen {
            if k + 2 < n && tokens[k + 2].kind() == TokenKind::Number {
                proof {
                    assert(spec_token_site(s, ts[k0 + 2]));
                    assert(ts[k0].end <= ts[k0 + 1].start);
                    assert(ts[k0 + 1].end <= ts[k0 + 2].start);
                }
                let a = match parse_u32(tokens[k].text()) {
                    Some(a) => a,
                    None => {
                        return Err((tokens[k].start_pos(), Expectation::NumberInRange));
                    },
                };
                let b = match parse_u32(tokens[k + 2].text()) {
                    Some(b) => b,
                    None => {
                        return Err((tokens[k + 2].start_pos(), Expectation::NumberInRange));
                    },
                };
                let sp0 = tokens[k].start_pos();
                let sp1 = tokens[k + 2].start_pos() + tokens[k + 2].text().unicode_len();
                proof {
                    assert(sp1 == ts[k0 + 2].end);
                    assert(sp0 <= sp1 <= s.len());
                }
                if a > b {
                    let ghost uerrs0 = errors_view(uerrors@);
                    uerrors.push(
                        InventoryParseError::DecreasingRange {
                            range: OwnedSpan::new(
                                sp0,
                                sp1,
                                input.substring_char(sp0, sp1).to_owned(),
                            ),
                        },
                    );
                    k = k + 3;
                    proof {
                        assert(errors_view(uerrors@) =~= uerrs0.push(
                            InventoryErrorModel::DecreasingRange {
                                range: span_of(s, sp0 as int, sp1 as int),
                            },
                        ));
                    }
                } else {
                    let rnew = Range::new(a, b);
                    accept_unit(
                        input,
                        &mut tree,
                        &mut ranges,
                        &mut payloads,
                        &mut uerrors,
                        rnew,
                        sp0,
                        sp1,
                    );
                    k = k + 3;
                }
            } else {
                let pos = if k + 2 < n {
                    tokens[k + 2].start_pos()
                } else {
                    total_len
                };
                return Err((pos, Expectation::Number));
            }
        } else {
            let a = match parse_u32(tokens[k].text()) {
                Some(a) => a,
                None => {
                    return Err((tokens[k].start_pos(), Expectation::NumberInRange));
                },
            };
            let sp0 = tokens[k].start_pos();
            let sp1 = sp0 + tokens[k].text().unicode_len();
            proof {
                assert(sp1 == ts[k0].end);
                assert(sp0 <= sp1 <= s.len());
            }
            let rnew = Range::new(a, a);
            accept_unit(input, &mut tree, &mut ranges, &mut payloads, &mut uerrors, rnew, sp0, sp1);
            k = k + 1;
        }
    }
    proof {
        reveal(spec_units);
        let uacc_final = UnitAcc {
            ranges: ranges@,
            spans: spans_of(s, payloads@),
            errs: errors_view(uerrors@),
        };
        assert(spec_units(s, ts, k as int, uacc_final) == Ok::<
            (UnitAcc, int),
            (int, Expectation),
        >((uacc_final, k as int)));
    }
    Ok((ranges, uerrors, k))
}


/// Reads an optional `name=` group header at token `i`: reports a duplicate
/// name, or records a first occurrence, and hands back the group's name.
#[verifier::loop_isolation(false)]
fn parse_header<'s>(
    input: &'s str,
    tokens: &Vec<Token<'s>>,
    i: usize,
    seen: &mut Vec<(String, usize, usize)>,
    errors: &mut Vec<InventoryParseError>,
    Ghost(ts): Ghost<Seq<SpecToken>>,
    Ghost(seen_g): Ghost<Seq<(Seq<char>, SpanModel)>>,
) -> (res: (String, Ghost<Seq<(Seq<char>, SpanModel)>>))
    requires
        tokens@.len() == ts.len(),
        i < ts.len(),
        tokens_bound(input@, tokens@, ts),
        input@.len() <= usize::MAX,
        old(seen)@.len() == seen_g.len(),
        forall|k: int|
            0 <= k < old(seen)@.len() ==> {
                &&& (#[trigger] old(seen)@[k]).0@ == seen_g[k].0
                &&& seen_g[k].1 == span_of(input@, old(seen)@[k].1 as int, old(seen)@[k].2 as int)
                &&& old(seen)@[k].1 <= old(seen)@[k].2 <= input@.len()
            },
    ensures
        res.0@ == spec_header_name(input@, ts, i as int),
        res.1@ == spec_header_seen(input@, ts, i as int, seen_g),
        final(seen)@.len() == res.1@.len(),
        forall|k: int|
            0 <= k < final(seen)@.len() ==> {
                &&& (#[trigger] final(seen)@[k]).0@ == res.1@[k].0
                &&& res.1@[k].1 == span_of(
                    input@,
                    final(seen)@[k].1 as int,
                    final(seen)@[k].2 as int,
                )
                &&& final(seen)@[k].1 <= final(seen)@[k].2 <= input@.len()
            },
        errors_view(final(errors)@) == errors_view(old(errors)@) + spec_header_dup_errs(
            input@,
            ts,
            i as int,
            seen_g,
        ),
{
    proof {
        reveal(tokens_bound);
    }
    let ghost s = input@;
    let ghost i0 = i as int;
    let ghost errs_v0 = errors_view(errors@);
    let ghost dup_errs = spec_header_dup_errs(s, ts, i0, seen_g);
    let n = tokens.len();
    proof {
        lemma_token_at(s, tokens@, ts, i0);
        if i0 + 1 < ts.len() {
            lemma_token_at(s, tokens@, ts, i0 + 1);
        }
    }
    let tk = tokens[i].kind();
    let named = (tk == TokenKind::Number || tk == TokenKind::Identifier) && i + 1 < n
        && tokens[i + 1].kind() == TokenKind::Equals;
    proof {
        assert(named == spec_is_header(ts, i0));
        assert(spec_token_site(s, ts[i0]));
    }
    if named {
        let name_str = tokens[i].text();
        let st = tokens[i].start_pos();
        let en = st + name_str.unicode_len();
        proof {
            assert(en == ts[i0].end);
        }
        let name_string = name_str.to_owned();
        match seen_lookup(&*seen, name_str, Ghost(s), Ghost(seen_g)) {
            Some(first) => {
                let first_span = OwnedSpan::new(
                    first.0,
                    first.1,
                    input.substring_char(first.0, first.1).to_owned(),
                );
                let dup_span = OwnedSpan::new(st, en, name_str.to_owned());
                errors.push(
                    InventoryParseError::DuplicateGroup { first: first_span, duplicate: dup_span },
                );
                proof {
                    assert(errors_view(errors@) =~= errs_v0 + dup_errs);
                }
                (name_string, Ghost(seen_g))
            },
            None => {
                seen.push((name_str.to_owned(), st, en));
                let ghost seen_g2 = seen_g.push((name_str@, span_of(s, st as int, en as int)));
                proof {
                    assert(errors_view(errors@) =~= errs_v0 + dup_errs);
                    assert(seen_g2 == spec_header_seen(s, ts, i0, seen_g));
                }
                (name_string, Ghost(seen_g2))
            },
        }
    } else {
        proof {
            assert(errors_view(errors@) =~= errs_v0 + dup_errs);
        }
        (String::new(), Ghost(seen_g))
    }
}

/// Pushing one parsed group onto the list pushes its model onto the view.
proof fn lemma_inventory_view_push(gs: Seq<Group>, g: Group)
    ensures
        inventory_view(gs.push(g)) == inventory_view(gs).push(g@),
{
    assert(inventory_view(gs.push(g)) =~= inventory_view(gs).push(g@));
}

/// Appending error lists appends their views.
proof fn lemma_errors_view_concat(a: Seq<InventoryParseError>, b: Seq<InventoryParseError>)
    ensures
        errors_view(a + b) == errors_view(a) + errors_view(b),
{
    assert(errors_view(a + b) =~= errors_view(a) + errors_view(b));
}

/// The whole invariant step for one parsed group.
proof fn lemma_step_invariant(
    s: Seq<char>,
    ts: Seq<SpecToken>,
    i0: int,
    seen_g0: Seq<(Seq<char>, SpanModel)>,
    groups_v0: Seq<GroupModel>,
    errs_v0: Seq<InventoryErrorModel>,
    gname: Seq<char>,
    dup_errs: Seq<InventoryErrorModel>,
    uacc: UnitAcc,
    next: int,
    groups_v1: Seq<GroupModel>,
    errs_v1: Seq<InventoryErrorModel>,
)
    requires
        0 <= i0 < ts.len(),
        spec_starts_unit(ts, spec_units_start(ts, i0)),
        spec_units(s, ts, spec_units_start(ts, i0), spec_empty_acc()) == Ok::<
            (UnitAcc, int),
            (int, Expectation),
        >((uacc, next)),
        0 <= next,
        gname == spec_header_name(s, ts, i0),
        dup_errs == spec_header_dup_errs(s, ts, i0, seen_g0),
        groups_v1 == groups_v0.push(GroupModel { name: gname, ranges: uacc.ranges }),
        errs_v1 == (errs_v0 + dup_errs) + uacc.errs,
    ensures
        spec_groups(s, ts, i0, seen_g0, groups_v0, errs_v0) == spec_groups(
            s,
            ts,
            next,
            spec_header_seen(s, ts, i0, seen_g0),
            groups_v1,
            errs_v1,
        ),
{
    assert((errs_v0 + dup_errs) + uacc.errs =~= errs_v0 + dup_errs + uacc.errs);
    lemma_groups_step_ok(s, ts, i0, seen_g0, groups_v0, errs_v0, uacc, next);
}

/// Reads one whole group — header, duplicate check and unit list — pushing
/// its group value and its problem reports, and returns where the next group
/// begins.
#[verifier::loop_isolation(false)]
#[verifier::rlimit(100)]
fn parse_one_group<'s>(
    input: &'s str,
    tokens: &Vec<Token<'s>>,
    i: usize,
    seen: &mut Vec<(String, usize, usize)>,
    errors: &mut Vec<InventoryParseError>,
    groups: &mut Vec<Group>,
    Ghost(ts): Ghost<Seq<SpecToken>>,
    Ghost(seen_g_in): Ghost<Seq<(Seq<char>, SpanModel)>>,
) -> (r: Result<(usize, Ghost<Seq<(Seq<char>, SpanModel)>>), (usize, Expectation)>)
    requires
        tokens@.len() == ts.len(),
        i < ts.len(),
        tokens_bound(input@, tokens@, ts),
        input@.len() <= usize::MAX,
        old(seen)@.len() == seen_g_in.len(),
        forall|k: int|
            0 <= k < old(seen)@.len() ==> {
                &&& (#[trigger] old(seen)@[k]).0@ == seen_g_in[k].0
                &&& seen_g_in[k].1 == span_of(input@, old(seen)@[k].1 as int, old(seen)@[k].2 as int)
                &&& old(seen)@[k].1 <= old(seen)@[k].2 <= input@.len()
            },
    ensures
        (match r {
            Ok(pair) => {
                &&& i < pair.0 <= ts.len()
                &&& final(seen)@.len() == pair.1@.len()
                &&& (forall|k: int|
                    0 <= k < final(seen)@.len() ==> {
                        &&& (#[trigger] final(seen)@[k]).0@ == pair.1@[k].0
                        &&& pair.1@[k].1 == span_of(
                            input@,
                            final(seen)@[k].1 as int,
                            final(seen)@[k].2 as int,
                        )
                        &&& final(seen)@[k].1 <= final(seen)@[k].2 <= input@.len()
                    })
                &&& spec_groups(
                    input@,
                    ts,
                    i as int,
                    seen_g_in,
                    inventory_view(old(groups)@),
                    errors_view(old(errors)@),
                ) == spec_groups(
                    input@,
                    ts,
                    pair.0 as int,
                    pair.1@,
                    inventory_view(final(groups)@),
                    errors_view(final(errors)@),
                )
            },
            Err(pe) => spec_groups(
                input@,
                ts,
                i as int,
                seen_g_in,
                inventory_view(old(groups)@),
                errors_view(old(errors)@),
            ) == (InventoryOutcome::Syntax { position: pe.0 as int, expected: pe.1 }),
        }),
{
    let ghost s = input@;
    let ghost mut seen_g = seen_g_in;
    let ghost groups_v0 = inventory_view(groups@);
    let ghost errs_v0 = errors_view(errors@);
    let total_len = input.unicode_len();
    let n = tokens.len();
    let ghost i0 = i as int;
    let ghost seen_g0 = seen_g;
    proof {
        lemma_token_at(s, tokens@, ts, i0);
        if i0 + 1 < ts.len() {
            lemma_token_at(s, tokens@, ts, i0 + 1);
        }
    }
    let tk = tokens[i].kind();
    let named = (tk == TokenKind::Number || tk == TokenKind::Identifier) && i + 1 < n
        && tokens[i + 1].kind() == TokenKind::Equals;
    proof {
        assert(named == spec_is_header(ts, i0));
        assert(spec_token_site(s, ts[i0]));
    }
    let (name_string, seen_g_next) = parse_header(
        input,
        tokens,
        i,
        &mut *seen,
        &mut *errors,
        Ghost(ts),
        Ghost(seen_g),
    );
    proof {
        seen_g = seen_g_next@;
    }
    let ustart = if named {
        i + 2
    } else {
        i
    };
    proof {
        if (ustart as int) < ts.len() {
            lemma_token_at(s, tokens@, ts, ustart as int);
        }
        if (ustart as int) + 1 < ts.len() {
            lemma_token_at(s, tokens@, ts, ustart as int + 1);
        }
    }
    let ok_first = ustart < n && tokens[ustart].kind() == TokenKind::Number && !(ustart + 1 < n
        && tokens[ustart + 1].kind() == TokenKind::Equals);
    proof {
        assert(ustart as int == spec_units_start(ts, i0));
        assert(ok_first == spec_starts_unit(ts, ustart as int));
    }
    if !ok_first {
        let pos = if ustart < n {
            tokens[ustart].start_pos()
        } else {
            total_len
        };
        proof {
            lemma_groups_step_no_unit(s, ts, i0, seen_g0, groups_v0, errs_v0);
        }
        return Err((pos, Expectation::Unit));
    }
    let i_next = match finish_group(
        input,
        tokens,
        ustart,
        name_string,
        &mut *groups,
        &mut *errors,
        Ghost(ts),
        Ghost(i0),
        Ghost(seen_g0),
        Ghost(groups_v0),
        Ghost(errs_v0),
    ) {
        Ok(next) => next,
        Err(pe) => {
            return Err(pe);
        },
    };
    Ok((i_next, Ghost(seen_g)))
}

/// Reads a group's unit list and closes the group: pushes its value and its
/// problem reports, and returns where the next group begins.
#[verifier::loop_isolation(false)]
#[verifier::rlimit(100)]
fn finish_group<'s>(
    input: &'s str,
    tokens: &Vec<Token<'s>>,
    ustart: usize,
    name_string: String,
    groups: &mut Vec<Group>,
    errors: &mut Vec<InventoryParseError>,
    Ghost(ts): Ghost<Seq<SpecToken>>,
    Ghost(i0): Ghost<int>,
    Ghost(seen_g0): Ghost<Seq<(Seq<char>, SpanModel)>>,
    Ghost(groups_v0): Ghost<Seq<GroupModel>>,
    Ghost(errs_v0): Ghost<Seq<InventoryErrorModel>>,
) -> (r: Result<usize, (usize, Expectation)>)
    requires
        tokens@.len() == ts.len(),
        0 <= i0 < ts.len(),
        tokens_bound(input@, tokens@, ts),
        input@.len() <= usize::MAX,
        ustart as int == spec_units_start(ts, i0),
        spec_starts_unit(ts, ustart as int),
        name_string@ == spec_header_name(input@, ts, i0),
        inventory_view(old(groups)@) == groups_v0,
        errors_view(old(errors)@) == errs_v0 + spec_header_dup_errs(input@, ts, i0, seen_g0),
    ensures
        (match r {
            Ok(next) => i0 < next <= ts.len() && spec_groups(
                input@,
                ts,
                i0,
                seen_g0,
                groups_v0,
                errs_v0,
            ) == spec_groups(
                input@,
                ts,
                next as int,
                spec_header_seen(input@, ts, i0, seen_g0),
                inventory_view(final(groups)@),
                errors_view(final(errors)@),
            ),
            Err(pe) => spec_groups(input@, ts, i0, seen_g0, groups_v0, errs_v0) == (
            InventoryOutcome::Syntax { position: pe.0 as int, expected: pe.1 }),
        }),
{
    let ghost s = input@;
    let ghost gname: Seq<char> = spec_header_name(s, ts, i0);
    let ghost dup_errs: Seq<InventoryErrorModel> = spec_header_dup_errs(s, ts, i0, seen_g0);
    let (ranges, mut uerrors, k) = match parse_group_units(input, tokens, ustart, Ghost(ts)) {
        Ok(triple) => triple,
        Err((pos, expected)) => {
            proof {
                lemma_groups_step_bad_units(
                    s,
                    ts,
                    i0,
                    seen_g0,
                    groups_v0,
                    errs_v0,
                    pos as int,
                    expected,
                );
            }
            return Err((pos, expected));
        },
    };
    let ghost uacc_final = (spec_units(s, ts, ustart as int, spec_empty_acc())->Ok_0).0;
    let ghost groups_before = groups@;
    let ghost errs_before_append = errors@;
    let ghost uerrs_final = uerrors@;
    let new_group = Group::new(name_string, ranges);
    groups.push(new_group);
    errors.append(&mut uerrors);
    let i_next = k;
    proof {
        lemma_inventory_view_push(groups_before, new_group);
        assert(errors@ == errs_before_append + uerrs_final);
        lemma_errors_view_concat(errs_before_append, uerrs_final);
        lemma_step_invariant(
            s,
            ts,
            i0,
            seen_g0,
            groups_v0,
            errs_v0,
            gname,
            dup_errs,
            uacc_final,
            i_next as int,
            inventory_view(groups@),
            errors_view(errors@),
        );
        lemma_spec_units_progress(s, ts, ustart as int, spec_empty_acc());
    }
    Ok(i_next)
}

/// Reads every group of the token list in order, accumulating groups,
/// duplicate-name reports and unit reports.
#[verifier::rlimit(100)]
fn parse_groups<'s>(
    input: &'s str,
    tokens: &Vec<Token<'s>>,
    Ghost(ts): Ghost<Seq<SpecToken>>,
) -> (r: Result<Vec<Group>, Vec<InventoryParseError>>)
    requires
        tokens@.len() == ts.len(),
        ts.len() > 0,
        tokens_bound(input@, tokens@, ts),
        input@.len() <= usize::MAX,
    ensures
        (match spec_groups(input@, ts, 0, Seq::empty(), Seq::empty(), Seq::empty()) {
            InventoryOutcome::Syntax { position, expected } => r matches Err(es) && es@.len() == 1
                && es@[0]@ == (InventoryErrorModel::Syntax { position, expected }),
            InventoryOutcome::Invalid { errs } => r matches Err(es) && errors_view(es@) == errs,
            InventoryOutcome::Valid { groups } => r matches Ok(gs) && inventory_view(gs@)
                == groups,
        }),
{
    let ghost s = input@;
    let total_len = input.unicode_len();
    let n = tokens.len();
    let mut groups: Vec<Group> = Vec::new();
    let mut errors: Vec<InventoryParseError> = Vec::new();
    let mut seen: Vec<(String, usize, usize)> = Vec::new();
    let ghost mut seen_g: Seq<(Seq<char>, SpanModel)> = Seq::empty();
    let mut i: usize = 0;
    proof {
        assert(inventory_view(groups@) =~= Seq::<GroupModel>::empty());
        assert(errors_view(errors@) =~= Seq::<InventoryErrorModel>::empty());
    }
    while i < n
        invariant
            0 <= i <= n,
            n == tokens@.len() == ts.len(),
            s == input@,
            total_len == s.len(),
            input@.len() <= usize::MAX,
            tokens_bound(s, tokens@, ts),
            seen@.len() == seen_g.len(),
            forall|k: int|
                0 <= k < seen@.len() ==> {
                    &&& (#[trigger] seen@[k]).0@ == seen_g[k].0
                    &&& seen_g[k].1 == span_of(s, seen@[k].1 as int, seen@[k].2 as int)
                    &&& seen@[k].1 <= seen@[k].2 <= s.len()
                },
            spec_groups(s, ts, 0, Seq::empty(), Seq::empty(), Seq::empty()) == spec_groups(
                s,
                ts,
                i as int,
                seen_g,
                inventory_view(groups@),
                errors_view(errors@),
            ),
        decreases n - i,
    {
        match parse_one_group(
            input,
            tokens,
            i,
            &mut seen,
            &mut errors,
            &mut groups,
            Ghost(ts),
            Ghost(seen_g),
        ) {
            Ok(pair) => {
                proof {
                    seen_g = pair.1@;
                }
                i = pair.0;
            },
            Err((pos, expected)) => {
                let mut es: Vec<InventoryParseError> = Vec::new();
                es.push(InventoryParseError::Syntax { position: pos, expected });
                return Err(es);
            },
        }
    }
    proof {
        reveal(spec_groups);
        assert(i == n);
    }
    if errors.len() > 0 {
        Err(errors)
    } else {
        Ok(groups)
    }
}

/// Parses inventory text into its groups, or reports every problem found.
///
/// The groups come back in declaration order. On a syntax error that one
/// error is returned alone, since a malformed token stream cannot be
/// continued; semantic problems — overlapping unit numbers within a group,
/// duplicate group names, decreasing ranges — accumulate over the whole text
/// and are returned together, and then no group list is returned.
#[verifier::loop_isolation(false)]
#[verifier::rlimit(100)]
pub fn parse(input: &str) -> (r: Result<Vec<Group>, Vec<InventoryParseError>>)
    ensures
        (match spec_parse_inventory(input@) {
            InventoryOutcome::Syntax { position, expected } => r matches Err(es) && es@.len() == 1
                && es@[0]@ == (InventoryErrorModel::Syntax { position, expected }),
            InventoryOutcome::Invalid { errs } => r matches Err(es) && errors_view(es@) == errs,
            InventoryOutcome::Valid { groups } => r matches Ok(gs) && inventory_view(gs@)
                == groups,
        }),
{
    let ghost s = input@;
    let total_len = input.unicode_len();
    let tokens = match tokenize(input) {
        Err(p) => {
            let mut es: Vec<InventoryParseError> = Vec::new();
            es.push(
                InventoryParseError::Syntax {
                    position: p,
                    expected: Expectation::AllowedCharacter,
                },
            );
            return Err(es);
        },
        Ok(v) => v,
    };
    let ghost ts: Seq<SpecToken> = spec_tokenize_from(s, 0int)->Ok_0;
    proof {
        lemma_tokens_wf(s, 0int);
        reveal(tokens_bound);
        assert(tokens_bound(s, tokens@, ts));
    }
    let n = tokens.len();
    if n == 0 {
        let mut es: Vec<InventoryParseError> = Vec::new();
        es.push(
            InventoryParseError::Syntax { position: total_len, expected: Expectation::GroupStart },
        );
        return Err(es);
    }
    let r = parse_groups(input, &tokens, Ghost(ts));
    r
}

/// What parsing the inventory text yields: a syntax error, the full list of
/// semantic problems, or the groups.
pub open spec fn spec_parse_inventory(s: Seq<char>) -> InventoryOutcome {
    match spec_tokenize_from(s, 0int) {
        Err(p) => InventoryOutcome::Syntax {
            position: p,
            expected: Expectation::AllowedCharacter,
        },
        Ok(toks) => if toks.len() == 0 {
            InventoryOutcome::Syntax {
                position: s.len() as int,
                expected: Expectation::GroupStart,
            }
        } else {
            spec_groups(s, toks, 0, Seq::empty(), Seq::empty(), Seq::empty())
        },
    }
}

} // verus!
