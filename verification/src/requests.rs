//! The requests parser: turns text like `A: 32x3, B: 450,234,4` into an
//! ordered list of named demand vectors. `NxK` is shorthand for `K` repeated
//! amounts of `N`. Commas and whitespace both separate amounts and requests;
//! a new request begins wherever a name is followed by `:`.

use vstd::prelude::*;
use vstd::string::StrSliceExecFns;
use crate::parse::{
    all_digits, parse_u32, spec_digits_val, spec_is_identifier, spec_is_whitespace, Expectation,
};
use crate::request::{Request, RequestModel};

verus! {

/// The grammar anchor for requests text; see [`parse`].
pub struct RequestsParser;

pub type RequestsParseResult = Result<Vec<Request>, Vec<RequestsParseError>>;

/// The mathematical content of a [`RequestsParseError`].
pub enum RequestsErrorModel {
    Syntax { position: int, expected: Expectation },
}

/// A problem found while parsing requests text. Only the token stream can be
/// at fault: requests carry no cross-request rules to break.
#[derive(Debug, PartialEq, Clone)]
pub enum RequestsParseError {
    Syntax { position: usize, expected: Expectation },
}

impl View for RequestsParseError {
    type V = RequestsErrorModel;

    open spec fn view(&self) -> RequestsErrorModel {
        match self {
            RequestsParseError::Syntax { position, expected } => RequestsErrorModel::Syntax {
                position: *position as int,
                expected: *expected,
            },
        }
    }
}

/// The views of a list of requests.
pub open spec fn requests_list_view(rs: Seq<Request>) -> Seq<RequestModel> {
    rs.map_values(|r: Request| r@)
}

/// The first position at or after `i` that is not a separator.
pub open spec fn spec_skip_sep(s: Seq<char>, i: int) -> int
    decreases s.len() - i
        when 0 <= i
{
    if i >= s.len() {
        s.len() as int
    } else if spec_is_whitespace(s[i]) {
        spec_skip_sep(s, i + 1)
    } else {
        i
    }
}

/// The end of the identifier-character run that starts at `i`.
pub open spec fn spec_run_end(s: Seq<char>, i: int) -> int
    decreases s.len() - i
        when 0 <= i
{
    if i >= s.len() {
        s.len() as int
    } else if spec_is_identifier(s[i]) {
        spec_run_end(s, i + 1)
    } else {
        i
    }
}

/// The end of the digit run that starts at `i`, looking no further than `e`.
pub open spec fn spec_digits_end(s: Seq<char>, i: int, e: int) -> int
    decreases e - i
        when i <= e
{
    if i < e && i < s.len() && crate::parse::spec_is_digit(s[i]) {
        spec_digits_end(s, i + 1, e)
    } else {
        i
    }
}

pub proof fn lemma_skip_sep_bounds(s: Seq<char>, i: int)
    requires
        0 <= i <= s.len(),
    ensures
        i <= spec_skip_sep(s, i) <= s.len(),
        spec_skip_sep(s, i) < s.len() ==> !spec_is_whitespace(s[spec_skip_sep(s, i)]),
    decreases s.len() - i,
{
    if i < s.len() && spec_is_whitespace(s[i]) {
        lemma_skip_sep_bounds(s, i + 1);
    }
}

pub proof fn lemma_run_end_bounds(s: Seq<char>, i: int)
    requires
        0 <= i <= s.len(),
    ensures
        i <= spec_run_end(s, i) <= s.len(),
    decreases s.len() - i,
{
    if i < s.len() && spec_is_identifier(s[i]) {
        lemma_run_end_bounds(s, i + 1);
    }
}

pub proof fn lemma_digits_end_bounds(s: Seq<char>, i: int, e: int)
    requires
        0 <= i <= e,
    ensures
        i <= spec_digits_end(s, i, e) <= e,
    decreases e - i,
{
    if i < e && i < s.len() && crate::parse::spec_is_digit(s[i]) {
        lemma_digits_end_bounds(s, i + 1, e);
    }
}

/// A full digit run covers digits only.
proof fn lemma_digits_end_all_digits(s: Seq<char>, i: int, e: int)
    requires
        0 <= i <= e <= s.len(),
        spec_digits_end(s, i, e) == e,
    ensures
        all_digits(s.subrange(i, e)),
    decreases e - i,
{
    if i < e && i < s.len() && crate::parse::spec_is_digit(s[i]) {
        lemma_digits_end_all_digits(s, i + 1, e);
        let sub = s.subrange(i, e);
        let sub2 = s.subrange(i + 1, e);
        assert forall|k: int| 0 <= k < sub.len() implies crate::parse::spec_is_digit(
            #[trigger] sub[k],
        ) by {
            if k == 0 {
                assert(sub[0] == s[i]);
            } else {
                assert(sub[k] == sub2[k - 1]);
            }
        }
    } else {
        assert(i == e);
    }
}

/// Reads one comma- or whitespace-separated element at position `i`: an
/// amount (`N` or `NxK`) for the request being built, or a name followed by
/// `:` that closes the current request and opens the next. `cur` is the
/// request being built and `done` the finished ones.
pub open spec fn spec_elems(
    s: Seq<char>,
    i: int,
    cur: RequestModel,
    done: Seq<RequestModel>,
) -> Result<Seq<RequestModel>, (int, Expectation)>
    decreases s.len() - i
        when 0 <= i <= s.len()
        via spec_elems_decreases
{
    if i >= s.len() {
        if cur.amounts.len() == 0 {
            Err((s.len() as int, Expectation::Amount))
        } else {
            Ok(done.push(cur))
        }
    } else {
        let e = spec_run_end(s, i);
        if e == i {
            Err((i, Expectation::Amount))
        } else {
            let j = spec_skip_sep(s, e);
            if j < s.len() && s[j] == ':' {
                // a new request begins here
                if cur.amounts.len() == 0 {
                    Err((i, Expectation::Amount))
                } else {
                    spec_elems(
                        s,
                        spec_skip_sep(s, j + 1),
                        RequestModel { name: s.subrange(i, e), amounts: Seq::empty() },
                        done.push(cur),
                    )
                }
            } else {
                let d = spec_digits_end(s, i, e);
                if d == e {
                    let v = spec_digits_val(s.subrange(i, e));
                    if v > u32::MAX {
                        Err((i, Expectation::NumberInRange))
                    } else {
                        spec_elems(
                            s,
                            j,
                            RequestModel { name: cur.name, amounts: cur.amounts.push(v as u32) },
                            done,
                        )
                    }
                } else if d > i && s[d] == 'x' && d + 1 < e && spec_digits_end(s, d + 1, e) == e {
                    let v = spec_digits_val(s.subrange(i, d));
                    let c = spec_digits_val(s.subrange(d + 1, e));
                    if v > u32::MAX {
                        Err((i, Expectation::NumberInRange))
                    } else if c > u32::MAX {
                        Err((d + 1, Expectation::NumberInRange))
                    } else {
                        spec_elems(
                            s,
                            j,
                            RequestModel {
                                name: cur.name,
                                amounts: cur.amounts + Seq::new(c as nat, |q: int| v as u32),
                            },
                            done,
                        )
                    }
                } else {
                    Err((i, Expectation::Amount))
                }
            }
        }
    }
}

#[via_fn]
proof fn spec_elems_decreases(s: Seq<char>, i: int, cur: RequestModel, done: Seq<RequestModel>) {
    if 0 <= i < s.len() {
        lemma_run_end_bounds(s, i);
        let e = spec_run_end(s, i);
        if e != i {
            lemma_skip_sep_bounds(s, e);
            let j = spec_skip_sep(s, e);
            if j < s.len() && s[j] == ':' {
                lemma_skip_sep_bounds(s, j + 1);
            }
        }
    }
}

/// What parsing the requests text yields: the requests in order, or the
/// position and nature of the first syntax error.
pub open spec fn spec_parse_requests(s: Seq<char>) -> Result<Seq<RequestModel>, (int, Expectation)> {
    let i = spec_skip_sep(s, 0);
    if i >= s.len() {
        Err((s.len() as int, Expectation::RequestStart))
    } else {
        let e = spec_run_end(s, i);
        if e == i {
            Err((i, Expectation::RequestStart))
        } else {
            let j = spec_skip_sep(s, e);
            if j < s.len() && s[j] == ':' {
                spec_elems(
                    s,
                    spec_skip_sep(s, j + 1),
                    RequestModel { name: s.subrange(i, e), amounts: Seq::empty() },
                    Seq::empty(),
                )
            } else {
                Err((j, Expectation::Colon))
            }
        }
    }
}

/// The first position at or after `from` that is not a separator.
fn skip_separators(input: &str, from: usize, Ghost(n): Ghost<int>) -> (r: usize)
    requires
        from <= input@.len(),
        n == input@.len(),
        input@.len() <= usize::MAX,
    ensures
        r == spec_skip_sep(input@, from as int),
        from <= r <= input@.len(),
    decreases input@.len() - from,
{
    proof {
        lemma_skip_sep_bounds(input@, from as int);
    }
    let len = input.unicode_len();
    if from < len && is_sep(input.get_char(from)) {
        skip_separators(input, from + 1, Ghost(n))
    } else {
        from
    }
}

fn is_sep(c: char) -> (r: bool)
    ensures
        r == spec_is_whitespace(c),
{
    c == ' ' || c == '\n' || c == '\r' || c == '\t' || c == ','
}

fn is_ident(c: char) -> (r: bool)
    ensures
        r == spec_is_identifier(c),
{
    ('0' <= c && c <= '9') || ('a' <= c && c <= 'z') || ('A' <= c && c <= 'Z') || c == '-'
}

/// The end of the identifier run that starts at `from`.
fn ident_run_end(input: &str, from: usize) -> (r: usize)
    requires
        from <= input@.len(),
        input@.len() <= usize::MAX,
    ensures
        r == spec_run_end(input@, from as int),
        from <= r <= input@.len(),
    decreases input@.len() - from,
{
    proof {
        lemma_run_end_bounds(input@, from as int);
    }
    let len = input.unicode_len();
    if from < len && is_ident(input.get_char(from)) {
        ident_run_end(input, from + 1)
    } else {
        from
    }
}

/// The end of the digit run from `from`, looking no further than `e`.
fn digit_run_end(input: &str, from: usize, e: usize) -> (r: usize)
    requires
        from <= e <= input@.len(),
        input@.len() <= usize::MAX,
    ensures
        r == spec_digits_end(input@, from as int, e as int),
        from <= r <= e,
    decreases e - from,
{
    proof {
        lemma_digits_end_bounds(input@, from as int, e as int);
    }
    if from < e && {
        let c = input.get_char(from);
        '0' <= c && c <= '9'
    } {
        digit_run_end(input, from + 1, e)
    } else {
        from
    }
}

/// Parses requests text into named demand vectors, in order.
///
/// A request is a name bound by `:` to one or more amounts; `NxK` expands to
/// `K` amounts of `N`, keeping position. A syntax error is returned alone:
/// a malformed token stream cannot be continued.
#[verifier::loop_isolation(false)]
#[verifier::rlimit(100)]
pub fn parse(input: &str) -> (r: RequestsParseResult)
    ensures
        (match spec_parse_requests(input@) {
            Ok(rs) => r matches Ok(v) && requests_list_view(v@) == rs,
            Err(pe) => r matches Err(es) && es@.len() == 1 && es@[0]@ == (
            RequestsErrorModel::Syntax { position: pe.0, expected: pe.1 }),
        }),
{
    let ghost s = input@;
    let n = input.unicode_len();
    let i0 = skip_separators(input, 0, Ghost(s.len() as int));
    if i0 >= n {
        return Err(syntax_error(n, Expectation::RequestStart));
    }
    let e0 = ident_run_end(input, i0);
    if e0 == i0 {
        return Err(syntax_error(i0, Expectation::RequestStart));
    }
    let j0 = skip_separators(input, e0, Ghost(s.len() as int));
    if !(j0 < n && input.get_char(j0) == ':') {
        return Err(syntax_error(j0, Expectation::Colon));
    }
    let mut name: String = input.substring_char(i0, e0).to_owned();
    let mut amounts: Vec<u32> = Vec::new();
    let mut requests: Vec<Request> = Vec::new();
    let mut pos = skip_separators(input, j0 + 1, Ghost(s.len() as int));
    proof {
        assert(requests_list_view(requests@) =~= Seq::<RequestModel>::empty());
    }
    while pos < n
        invariant
            pos <= n,
            spec_parse_requests(s) == spec_elems(
                s,
                pos as int,
                RequestModel { name: name@, amounts: amounts@ },
                requests_list_view(requests@),
            ),
        decreases n - pos,
    {
        let ghost cur = RequestModel { name: name@, amounts: amounts@ };
        let ghost done = requests_list_view(requests@);
        let e = ident_run_end(input, pos);
        if e == pos {
            return Err(syntax_error(pos, Expectation::Amount));
        }
        let j = skip_separators(input, e, Ghost(s.len() as int));
        if j < n && input.get_char(j) == ':' {
            if amounts.len() == 0 {
                return Err(syntax_error(pos, Expectation::Amount));
            }
            let finished = Request::new(name, amounts);
            requests.push(finished);
            proof {
                assert(requests_list_view(requests@) =~= done.push(cur));
            }
            name = input.substring_char(pos, e).to_owned();
            amounts = Vec::new();
            pos = skip_separators(input, j + 1, Ghost(s.len() as int));
        } else {
            let d = digit_run_end(input, pos, e);
            if d == e {
                proof {
                    lemma_digits_end_all_digits(s, pos as int, e as int);
                }
                let v = match parse_u32(input.substring_char(pos, e)) {
                    Some(v) => v,
                    None => {
                        return Err(syntax_error(pos, Expectation::NumberInRange));
                    },
                };
                amounts.push(v);
                pos = j;
            } else if d > pos && input.get_char(d) == 'x' && d + 1 < e && digit_run_end(
                input,
                d + 1,
                e,
            ) == e {
                proof {
                    lemma_digits_end_all_digits(s, d + 1, e as int);
                    lemma_digits_end_bounds(s, pos as int, e as int);
                    lemma_digits_end_all_digits_prefix(s, pos as int, e as int);
                }
                let v = match parse_u32(input.substring_char(pos, d)) {
                    Some(v) => v,
                    None => {
                        return Err(syntax_error(pos, Expectation::NumberInRange));
                    },
                };
                let c = match parse_u32(input.substring_char(d + 1, e)) {
                    Some(c) => c,
                    None => {
                        return Err(syntax_error(d + 1, Expectation::NumberInRange));
                    },
                };
                let ghost amounts0 = amounts@;
                let mut q: u32 = 0;
                while q < c
                    invariant
                        q <= c,
                        amounts@ == amounts0 + Seq::new(q as nat, |t: int| v),
                    decreases c - q,
                {
                    proof {
                        assert(Seq::new((q + 1) as nat, |t: int| v) =~= Seq::new(
                            q as nat,
                            |t: int| v,
                        ).push(v));
                        assert(amounts0 + Seq::new(q as nat, |t: int| v).push(v) =~= (amounts0
                            + Seq::new(q as nat, |t: int| v)).push(v));
                    }
                    amounts.push(v);
                    q = q + 1;
                }
                pos = j;
            } else {
                return Err(syntax_error(pos, Expectation::Amount));
            }
        }
    }
    if amounts.len() == 0 {
        return Err(syntax_error(n, Expectation::Amount));
    }
    let finished = Request::new(name, amounts);
    let ghost done = requests_list_view(requests@);
    let ghost cur = finished@;
    requests.push(finished);
    proof {
        assert(requests_list_view(requests@) =~= done.push(cur));
    }
    Ok(requests)
}

/// A digit run that stops before `e` is still a digit run.
pub proof fn lemma_digits_end_all_digits_prefix(s: Seq<char>, i: int, e: int)
    requires
        0 <= i <= e <= s.len(),
    ensures
        all_digits(s.subrange(i, spec_digits_end(s, i, e))),
    decreases e - i,
{
    lemma_digits_end_bounds(s, i, e);
    lemma_digits_end_run(s, i, e);
    lemma_digits_end_all_digits(s, i, spec_digits_end(s, i, e));
}

/// A digit run is maximal from where it starts.
proof fn lemma_digits_end_run(s: Seq<char>, i: int, e: int)
    requires
        0 <= i <= e <= s.len(),
    ensures
        spec_digits_end(s, i, spec_digits_end(s, i, e)) == spec_digits_end(s, i, e),
    decreases e - i,
{
    lemma_digits_end_bounds(s, i, e);
    if i < e && i < s.len() && crate::parse::spec_is_digit(s[i]) {
        lemma_digits_end_run(s, i + 1, e);
        lemma_digits_end_bounds(s, i + 1, e);
    }
}

/// One syntax error, alone, as the parser returns it.
fn syntax_error(position: usize, expected: Expectation) -> (r: Vec<RequestsParseError>)
    ensures
        r@.len() == 1,
        r@[0] == (RequestsParseError::Syntax { position, expected }),
{
    let mut es: Vec<RequestsParseError> = Vec::new();
    es.push(RequestsParseError::Syntax { position, expected });
    es
}

} // verus!
