//! Named groups of ranges: the unit of inventory partition.

use vstd::prelude::*;
use vstd::string::StringExecFns;
use crate::range::{spec_render_range, push_char, Range};

verus! {

/// The mathematical content of a [`Group`]: its name and its ordered ranges.
#[verifier::ext_equal]
pub struct GroupModel {
    pub name: Seq<char>,
    pub ranges: Seq<Range>,
}

/// The total number of units covered by a sequence of ranges.
pub open spec fn seq_count(ranges: Seq<Range>) -> int
    decreases ranges.len(),
{
    if ranges.len() == 0 {
        0
    } else {
        ranges[0].spec_count() + seq_count(ranges.drop_first())
    }
}

/// Every range of the group runs upward and has a representable count.
pub open spec fn ranges_wf(ranges: Seq<Range>) -> bool {
    forall|i: int|
        0 <= i < ranges.len() ==> (#[trigger] ranges[i]).wf() && ranges[i].count_fits()
}

impl GroupModel {
    pub open spec fn wf(self) -> bool {
        ranges_wf(self.ranges)
    }

    pub open spec fn total(self) -> int {
        seq_count(self.ranges)
    }
}

/// The compact text form of a range list: ranges comma-joined.
pub open spec fn spec_render_ranges(ranges: Seq<Range>) -> Seq<char>
    decreases ranges.len(),
{
    if ranges.len() == 0 {
        Seq::empty()
    } else if ranges.len() == 1 {
        spec_render_range(ranges[0])
    } else {
        spec_render_ranges(ranges.drop_last()) + seq![','] + spec_render_range(ranges.last())
    }
}

/// The compact text form of a group: `name=` (when named) followed by its
/// comma-joined ranges.
pub open spec fn spec_render_group(g: GroupModel) -> Seq<char> {
    if g.name.len() > 0 {
        g.name + seq!['='] + spec_render_ranges(g.ranges)
    } else {
        spec_render_ranges(g.ranges)
    }
}

/// Appending one range adds its count.
pub proof fn lemma_seq_count_push(ranges: Seq<Range>, r: Range)
    ensures
        seq_count(ranges.push(r)) == seq_count(ranges) + r.spec_count(),
    decreases ranges.len(),
{
    let pushed = ranges.push(r);
    assert(seq_count(pushed) == pushed[0].spec_count() + seq_count(pushed.drop_first()));
    if ranges.len() == 0 {
        assert(pushed[0] == r);
        assert(pushed.drop_first() =~= Seq::empty());
    } else {
        assert(pushed[0] == ranges[0]);
        assert(pushed.drop_first() =~= ranges.drop_first().push(r));
        lemma_seq_count_push(ranges.drop_first(), r);
    }
}

/// The count of a range list splits at any point.
pub proof fn lemma_seq_count_split(ranges: Seq<Range>, i: int)
    requires
        0 <= i <= ranges.len(),
    ensures
        seq_count(ranges) == seq_count(ranges.take(i)) + seq_count(ranges.skip(i)),
    decreases i,
{
    if i == 0 {
        assert(ranges.take(0) =~= Seq::empty());
        assert(ranges.skip(0) =~= ranges);
    } else {
        assert(ranges.take(i).drop_first() =~= ranges.drop_first().take(i - 1));
        assert(ranges.skip(i) =~= ranges.drop_first().skip(i - 1));
        lemma_seq_count_split(ranges.drop_first(), i - 1);
    }
}

/// Well-formed ranges cover at least one unit each.
pub proof fn lemma_seq_count_nonneg(ranges: Seq<Range>)
    requires
        ranges_wf(ranges),
    ensures
        seq_count(ranges) >= ranges.len(),
    decreases ranges.len(),
{
    if ranges.len() > 0 {
        assert(ranges_wf(ranges.drop_first()));
        lemma_seq_count_nonneg(ranges.drop_first());
    }
}

/// A named (possibly unnamed) ordered list of ranges.
///
/// An empty name means the group is unnamed. Groups are positionally
/// significant: the allocator matches the `N`th inventory group with the
/// `N`th amount of a request.
#[derive(Clone, Debug, PartialEq)]
pub struct Group {
    name: String,
    ranges: Vec<Range>,
}

impl View for Group {
    type V = GroupModel;

    closed spec fn view(&self) -> GroupModel {
        GroupModel { name: self.name@, ranges: self.ranges@ }
    }
}

impl Group {
    pub fn new(name: String, ranges: Vec<Range>) -> (g: Self)
        ensures
            g@ == (GroupModel { name: name@, ranges: ranges@ }),
    {
        Self { name, ranges }
    }

    /// A group with this group's name and the given ranges.
    pub fn with_ranges(&self, ranges: Vec<Range>) -> (g: Self)
        ensures
            g@ == (GroupModel { name: self@.name, ranges: ranges@ }),
    {
        Self { name: self.name.clone(), ranges }
    }

    pub fn name(&self) -> (r: &str)
        ensures
            r@ == self@.name,
    {
        self.name.as_str()
    }

    pub fn ranges(&self) -> (r: &[Range])
        ensures
            r@ == self@.ranges,
    {
        self.ranges.as_slice()
    }

    /// The total number of units in the group.
    pub fn count(&self) -> (r: u32)
        requires
            self@.wf(),
            self@.total() <= u32::MAX,
        ensures
            r == self@.total(),
    {
        let mut sum: u32 = 0;
        let n = self.ranges.len();
        proof {
            assert(self@.ranges.take(0int) =~= Seq::empty());
        }
        for i in 0..n
            invariant
                n == self@.ranges.len(),
                self@.wf(),
                self@.total() <= u32::MAX,
                sum == seq_count(self@.ranges.take(i as int)),
        {
            proof {
                assert(self@.ranges.take(i + 1) =~= self@.ranges.take(i as int).push(
                    self@.ranges[i as int],
                ));
                lemma_seq_count_push(self@.ranges.take(i as int), self@.ranges[i as int]);
                lemma_seq_count_split(self@.ranges, i + 1);
                assert(ranges_wf(self@.ranges.skip(i + 1)));
                lemma_seq_count_nonneg(self@.ranges.skip(i + 1));
            }
            sum = sum + self.ranges[i].count();
        }
        proof {
            assert(self@.ranges.take(n as int) =~= self@.ranges);
        }
        sum
    }

    /// Appends the compact text form of this group: `name=` (when named)
    /// followed by its ranges, comma-joined.
    pub fn write_to_string(&self, out: &mut String)
        ensures
            final(out)@ == old(out)@ + spec_render_group(self@),
    {
        if !self.name.as_str().is_empty() {
            out.append(self.name.as_str());
            push_char(out, '=');
        }
        let ghost prefix: Seq<char> = out@;
        let n = self.ranges.len();
        let mut need_comma = false;
        for i in 0..n
            invariant
                n == self@.ranges.len(),
                need_comma == (i > 0),
                out@ == prefix + spec_render_ranges(self@.ranges.take(i as int)),
        {
            proof {
                assert(self@.ranges.take(i + 1).drop_last() =~= self@.ranges.take(i as int));
                assert(self@.ranges.take(1int) =~= seq![self@.ranges[0int]]);
            }
            if need_comma {
                push_char(out, ',');
            } else {
                need_comma = true;
            }
            self.ranges[i].write_to_string(out);
        }
        proof {
            assert(self@.ranges.take(n as int) =~= self@.ranges);
        }
    }
}

} // verus!
