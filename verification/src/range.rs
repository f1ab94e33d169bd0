//! Closed, inclusive intervals of unit numbers: the atomic allocation granule.

use vstd::prelude::*;

verus! {

/// A closed inclusive interval `[first, last]` of unit numbers.
///
/// A well-formed range runs upward (`first <= last`); see [`Range::wf`].
/// Ranges are immutable value objects: splitting produces new ranges and
/// never mutates in place.
#[derive(Clone, Copy, Debug, PartialEq, Eq, Hash, Structural)]
pub struct Range {
    pub first: u32,
    pub last: u32,
}

/// What `split` returns: the part that was used, the part that remains,
/// and how much of the requested amount was left unmet.
pub open spec fn spec_split(r: Range, amount: u32) -> (Option<Range>, Option<Range>, u32) {
    if amount == 0 {
        (None, Some(r), 0u32)
    } else if amount >= r.spec_count() {
        (Some(r), None, (amount - r.spec_count()) as u32)
    } else {
        (
            Some(Range { first: r.first, last: (r.first + amount - 1) as u32 }),
            Some(Range { first: (r.first + amount) as u32, last: r.last }),
            0u32,
        )
    }
}

impl Range {
    /// The interval runs upward.
    pub open spec fn wf(self) -> bool {
        self.first <= self.last
    }

    /// The number of unit numbers the interval covers.
    pub open spec fn spec_count(self) -> int {
        self.last - self.first + 1
    }

    /// The count fits the machine word that `count` returns.
    pub open spec fn count_fits(self) -> bool {
        self.spec_count() <= u32::MAX
    }

    /// The two intervals share at least one unit number.
    pub open spec fn spec_overlaps(self, other: Range) -> bool {
        !(self.last < other.first || self.first > other.last)
    }

    /// The set of unit numbers the interval covers.
    pub open spec fn unit_set(self) -> Set<int> {
        vstd::set_lib::set_int_range(self.first as int, self.last + 1)
    }

    pub fn new(first: u32, last: u32) -> (r: Self)
        requires
            first <= last,
        ensures
            r == (Range { first, last }),
    {
        Self { first, last }
    }

    /// A convenience constructor for a range of size one.
    pub fn num(num: u32) -> (r: Self)
        ensures
            r == (Range { first: num, last: num }),
    {
        Self { first: num, last: num }
    }

    pub fn first(&self) -> (r: u32)
        ensures
            r == self.first,
    {
        self.first
    }

    pub fn last(&self) -> (r: u32)
        ensures
            r == self.last,
    {
        self.last
    }

    pub fn count(&self) -> (r: u32)
        requires
            self.wf(),
            self.count_fits(),
        ensures
            r == self.spec_count(),
    {
        self.last - self.first + 1
    }

    /// Splits off the first `amount` units.
    ///
    /// Returns `(used, remainder, deficit)`: the units drawn from the front
    /// of this range, the units left over, and how much of `amount` this
    /// range could not cover.
    pub fn split(&self, amount: u32) -> (r: (Option<Self>, Option<Self>, u32))
        requires
            self.wf(),
            self.count_fits(),
        ensures
            r == spec_split(*self, amount),
    {
        if amount == 0 {
            (None, Some(*self), 0)
        } else if amount >= self.count() {
            (Some(*self), None, amount - self.count())
        } else {
            let other_first = self.first + amount;
            let this_last = other_first - 1;
            (
                Some(Range::new(self.first, this_last)),
                Some(Range::new(other_first, self.last)),
                0,
            )
        }
    }

    /// Appends the compact text form of this range: `N` for a single unit,
    /// `N-M` otherwise.
    pub fn write_to_string(&self, string: &mut String)
        ensures
            final(string)@ == old(string)@ + spec_render_range(*self),
    {
        if self.first == self.last {
            push_dec(string, self.first);
        } else {
            push_dec(string, self.first);
            push_char(string, '-');
            push_dec(string, self.last);
        }
    }

    pub fn overlaps(&self, other: &Self) -> (r: bool)
        ensures
            r == self.spec_overlaps(*other),
    {
        !(self.last < other.first || self.first > other.last)
    }
}

/// Sharing a unit number is mutual: `a` overlaps `b` exactly when `b`
/// overlaps `a`.
pub proof fn lemma_overlaps_symmetric(a: Range, b: Range)
    requires
        a.wf(),
        b.wf(),
    ensures
        a.spec_overlaps(b) == b.spec_overlaps(a),
{
}

/// Splitting conserves units: for a positive `amount`, the used part and the
/// remainder together cover `min(amount, count)` units, and the deficit is
/// exactly the part of `amount` the range could not cover.
pub proof fn lemma_split_conservation(r: Range, amount: u32)
    requires
        r.wf(),
        r.count_fits(),
        0 < amount,
    ensures
        ({
            let (used, remainder, deficit) = spec_split(r, amount);
            &&& used matches Some(u) && {
                &&& u.wf()
                &&& u.spec_count() + (match remainder {
                    Some(rem) => rem.spec_count(),
                    None => 0int,
                }) == r.spec_count()
                &&& u.spec_count() == if amount <= r.spec_count() {
                    amount as int
                } else {
                    r.spec_count()
                }
            }
            &&& deficit == if amount >= r.spec_count() {
                amount - r.spec_count()
            } else {
                0int
            }
            &&& (remainder matches Some(rem) ==> rem.wf())
        }),
{
}

/// The character for one decimal digit.
pub open spec fn spec_digit_char(d: int) -> char {
    if d == 0 {
        '0'
    } else if d == 1 {
        '1'
    } else if d == 2 {
        '2'
    } else if d == 3 {
        '3'
    } else if d == 4 {
        '4'
    } else if d == 5 {
        '5'
    } else if d == 6 {
        '6'
    } else if d == 7 {
        '7'
    } else if d == 8 {
        '8'
    } else {
        '9'
    }
}

/// The decimal rendering of a non-negative number, most significant digit
/// first, without leading zeroes.
pub open spec fn spec_dec(n: int) -> Seq<char>
    decreases n,
{
    if n < 10 {
        seq![spec_digit_char(n)]
    } else {
        spec_dec(n / 10).push(spec_digit_char(n % 10))
    }
}

/// The compact text form of a range: `N` for a single unit, `N-M` otherwise.
pub open spec fn spec_render_range(r: Range) -> Seq<char> {
    if r.first == r.last {
        spec_dec(r.first as int)
    } else {
        spec_dec(r.first as int) + seq!['-'] + spec_dec(r.last as int)
    }
}

/// Relies on `String::push`: appends the given character to the end of the
/// string.
#[verifier::external_body]
pub(crate) fn push_char(out: &mut String, c: char)
    ensures
        final(out)@ == old(out)@.push(c),
{
    out.push(c);
}

fn digit_char(d: u32) -> (c: char)
    requires
        d < 10,
    ensures
        c == spec_digit_char(d as int),
{
    if d == 0 {
        '0'
    } else if d == 1 {
        '1'
    } else if d == 2 {
        '2'
    } else if d == 3 {
        '3'
    } else if d == 4 {
        '4'
    } else if d == 5 {
        '5'
    } else if d == 6 {
        '6'
    } else if d == 7 {
        '7'
    } else if d == 8 {
        '8'
    } else {
        '9'
    }
}

/// Appends the decimal rendering of `n`.
pub(crate) fn push_dec(out: &mut String, n: u32)
    ensures
        final(out)@ == old(out)@ + spec_dec(n as int),
    decreases n,
{
    if n < 10 {
        push_char(out, digit_char(n));
    } else {
        push_dec(out, n / 10);
        push_char(out, digit_char(n % 10));
    }
}

/// The units of a well-formed range number exactly its count.
pub proof fn lemma_unit_set_count(r: Range)
    requires
        r.wf(),
    ensures
        r.unit_set().finite(),
        r.unit_set().len() == r.spec_count(),
{
    vstd::set_lib::lemma_int_range(r.first as int, r.last + 1);
}

} // verus!
