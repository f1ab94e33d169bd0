//! The allocator: draws ranges from inventory groups to satisfy requests,
//! greedily and lowest numbers first, and reports the leftover inventory.

use vstd::prelude::*;
use crate::group::{ranges_wf, seq_count, Group, GroupModel};
use crate::range::{spec_split, Range};
use crate::request::{Request, RequestModel};

verus! {

pub type SplitResult = Result<Split, SplitError>;

/// The mathematical content of a [`Split`].
pub struct SplitModel {
    pub filled: Seq<(Seq<char>, Seq<GroupModel>)>,
    pub leftover: Seq<GroupModel>,
}

/// The mathematical content of a [`SplitError`].
pub enum SplitErrorModel {
    NotEnough { group_name: Seq<char>, amount_needed: u32 },
    TooManyGroupsRequested { request_name: Seq<char> },
}

/// What one allocation run returns: for each request, in request order, the
/// groups drawn for it, and the inventory left over at the end.
#[derive(Debug, PartialEq)]
pub struct Split {
    pub filled_requests: Vec<(String, Vec<Group>)>,
    pub leftover_ranges: Vec<Group>,
}

/// Why an allocation run failed. Both variants abort the whole call: no
/// partial result is returned.
#[derive(Debug, PartialEq)]
pub enum SplitError {
    /// The named group ran out of units; `amount_needed` is the part of the
    /// demand still outstanding.
    NotEnough { group_name: String, amount_needed: u32 },
    /// A request's amount vector is longer than the inventory's group list.
    TooManyGroupsRequested { request_name: String },
}

/// The views of a sequence of groups.
pub open spec fn groups_view(gs: Seq<Group>) -> Seq<GroupModel> {
    gs.map_values(|g: Group| g@)
}

/// The views of a sequence of requests.
pub open spec fn requests_view(rs: Seq<Request>) -> Seq<RequestModel> {
    rs.map_values(|r: Request| r@)
}

impl View for Split {
    type V = SplitModel;

    open spec fn view(&self) -> SplitModel {
        SplitModel {
            filled: self.filled_requests@.map_values(
                |p: (String, Vec<Group>)| (p.0@, groups_view(p.1@)),
            ),
            leftover: groups_view(self.leftover_ranges@),
        }
    }
}

impl View for SplitError {
    type V = SplitErrorModel;

    open spec fn view(&self) -> SplitErrorModel {
        match self {
            SplitError::NotEnough { group_name, amount_needed } => SplitErrorModel::NotEnough {
                group_name: group_name@,
                amount_needed: *amount_needed,
            },
            SplitError::TooManyGroupsRequested { request_name } => (
            SplitErrorModel::TooManyGroupsRequested { request_name: request_name@ }),
        }
    }
}

/// The view of an allocation result.
pub open spec fn split_result_view(r: SplitResult) -> Result<SplitModel, SplitErrorModel> {
    match r {
        Ok(s) => Ok(s@),
        Err(e) => Err(e@),
    }
}

/// What drawing `amount` units from the front of `ranges` yields: the drawn
/// ranges and the ranges left over, or, when the list runs out first, the
/// amount still outstanding.
pub open spec fn spec_split_ranges(ranges: Seq<Range>, amount: u32) -> Result<
    (Seq<Range>, Seq<Range>),
    u32,
>
    decreases ranges.len(),
{
    if amount == 0 {
        Ok((Seq::empty(), ranges))
    } else if ranges.len() == 0 {
        Err(amount)
    } else {
        let r = ranges[0];
        if amount >= r.spec_count() {
            match spec_split_ranges(ranges.drop_first(), (amount - r.spec_count()) as u32) {
                Ok(pair) => Ok((seq![r] + pair.0, pair.1)),
                Err(a) => Err(a),
            }
        } else {
            Ok(
                (
                    seq![Range { first: r.first, last: (r.first + amount - 1) as u32 }],
                    seq![Range { first: (r.first + amount) as u32, last: r.last }]
                        + ranges.drop_first(),
                ),
            )
        }
    }
}

/// What one request draws from the inventory, walking the group list in
/// lock-step with the request's amounts from position `i` on: the groups
/// drawn (one per position) and the reduced inventory, or the error that
/// aborts the run.
pub open spec fn spec_split_request(
    groups: Seq<GroupModel>,
    name: Seq<char>,
    amounts: Seq<u32>,
    i: int,
) -> Result<(Seq<GroupModel>, Seq<GroupModel>), SplitErrorModel>
    decreases amounts.len() - i,
{
    if i < 0 || i >= amounts.len() {
        Ok((Seq::empty(), groups))
    } else if i >= groups.len() {
        Err(SplitErrorModel::TooManyGroupsRequested { request_name: name })
    } else {
        match spec_split_ranges(groups[i].ranges, amounts[i]) {
            Err(needed) => Err(
                SplitErrorModel::NotEnough { group_name: groups[i].name, amount_needed: needed },
            ),
            Ok(pair) => {
                let updated = groups.update(
                    i,
                    GroupModel { name: groups[i].name, ranges: pair.1 },
                );
                match spec_split_request(updated, name, amounts, i + 1) {
                    Err(e) => Err(e),
                    Ok(rest) => Ok(
                        (
                            seq![GroupModel { name: groups[i].name, ranges: pair.0 }] + rest.0,
                            rest.1,
                        ),
                    ),
                }
            },
        }
    }
}

/// What a whole allocation run yields: each request served in order from the
/// inventory the previous requests left behind.
pub open spec fn spec_split_all(groups: Seq<GroupModel>, requests: Seq<RequestModel>) -> Result<
    SplitModel,
    SplitErrorModel,
>
    decreases requests.len(),
{
    if requests.len() == 0 {
        Ok(SplitModel { filled: Seq::empty(), leftover: groups })
    } else {
        let req = requests[0];
        match spec_split_request(groups, req.name, req.amounts, 0) {
            Err(e) => Err(e),
            Ok(pair) => match spec_split_all(pair.1, requests.drop_first()) {
                Err(e) => Err(e),
                Ok(m) => Ok(
                    SplitModel { filled: seq![(req.name, pair.0)] + m.filled, leftover: m.leftover },
                ),
            },
        }
    }
}

/// Draws `amount` units from the front of `ranges`.
#[verifier::loop_isolation(false)]
fn split_ranges(ranges: &[Range], amount: u32) -> (r: Result<(Vec<Range>, Vec<Range>), u32>)
    requires
        ranges_wf(ranges@),
    ensures
        (match r {
            Ok(pair) => spec_split_ranges(ranges@, amount) == Ok::<_, u32>((pair.0@, pair.1@)),
            Err(a) => spec_split_ranges(ranges@, amount) == Err::<(Seq<Range>, Seq<Range>), _>(a),
        }),
{
    let n = ranges.len();
    let mut used: Vec<Range> = Vec::new();
    let mut unused: Vec<Range> = Vec::new();
    let mut amt = amount;
    let mut i: usize = 0;
    proof {
        assert(ranges@.skip(0int) =~= ranges@);
        match spec_split_ranges(ranges@, amount) {
            Ok(pair) => {
                assert(Seq::<Range>::empty() + pair.0 =~= pair.0);
                assert(Seq::<Range>::empty() + pair.1 =~= pair.1);
            },
            Err(_) => {},
        }
    }
    while i < n && amt > 0
        invariant
            ranges_wf(ranges@),
            n == ranges@.len(),
            0 <= i <= n,
            amt > 0 ==> unused@.len() == 0,
            spec_split_ranges(ranges@, amount) == (match spec_split_ranges(
                ranges@.skip(i as int),
                amt,
            ) {
                Ok(pair) => Ok::<_, u32>((used@ + pair.0, unused@ + pair.1)),
                Err(a) => Err::<(Seq<Range>, Seq<Range>), _>(a),
            }),
        decreases n - i,
    {
        let r = ranges[i];
        let ghost rest = ranges@.skip(i as int);
        let ghost old_amt = amt;
        let ghost old_used = used@;
        let ghost old_unused = unused@;
        proof {
            assert(rest[0] == r);
            assert(rest.drop_first() =~= ranges@.skip(i + 1));
        }
        let (u, un, left) = r.split(amt);
        if let Some(uu) = u {
            used.push(uu);
        }
        amt = left;
        if let Some(uun) = un {
            unused.push(uun);
        }
        i = i + 1;
        proof {
            let next = ranges@.skip(i as int);
            if old_amt >= r.spec_count() {
                // this whole range was consumed
                assert(u == Some::<Range>(r) && un is None);
                assert(used@ =~= old_used.push(r));
                match spec_split_ranges(next, amt) {
                    Ok(pair) => {
                        assert(old_used.push(r) + pair.0 =~= old_used + (seq![r] + pair.0));
                    },
                    Err(_) => {},
                }
            } else {
                // the range covers the rest of the demand and leaves a remainder
                let used_r = Range { first: r.first, last: (r.first + old_amt - 1) as u32 };
                let rem = Range { first: (r.first + old_amt) as u32, last: r.last };
                assert(amt == 0);
                assert(u == Some::<Range>(used_r) && un == Some::<Range>(rem));
                assert(spec_split_ranges(next, 0u32) == Ok::<_, u32>((
                    Seq::<Range>::empty(),
                    next,
                )));
                assert(used@ + Seq::<Range>::empty() =~= old_used + seq![used_r]);
                assert(unused@ + next =~= old_unused + (seq![rem] + next));
            }
        }
    }
    if amt > 0 {
        return Err(amt);
    }
    let ghost pre_extend = unused@;
    let mut j = i;
    while j < n
        invariant
            n == ranges@.len(),
            i <= j <= n,
            unused@ == pre_extend + ranges@.subrange(i as int, j as int),
        decreases n - j,
    {
        proof {
            assert(ranges@.subrange(i as int, j + 1) =~= ranges@.subrange(i as int, j as int).push(
                ranges@[j as int],
            ));
        }
        unused.push(ranges[j]);
        j = j + 1;
    }
    proof {
        assert(ranges@.subrange(i as int, n as int) =~= ranges@.skip(i as int));
        assert(spec_split_ranges(ranges@.skip(i as int), 0u32) == Ok::<_, u32>((
            Seq::<Range>::empty(),
            ranges@.skip(i as int),
        )));
        assert(used@ + Seq::<Range>::empty() =~= used@);
        assert(pre_extend + ranges@.skip(i as int) =~= unused@);
    }
    Ok((used, unused))
}

/// Serves each request in order from the inventory, index-aligned: the `N`th
/// amount of a request draws from the `N`th group. Returns each request's
/// drawn groups and the leftover inventory, or the first error; on an error
/// no partial result is returned.
#[verifier::loop_isolation(false)]
pub fn split(inventory: &[Group], requests: &[Request]) -> (r: SplitResult)
    requires
        forall|i: int|
            0 <= i < inventory@.len() ==> (#[trigger] inventory@[i])@.wf(),
    ensures
        split_result_view(r) == spec_split_all(
            groups_view(inventory@),
            requests_view(requests@),
        ),
{
    let ghost orig = groups_view(inventory@);
    let ghost fview = |p: (String, Vec<Group>)| (p.0@, groups_view(p.1@));
    let mut inv: Vec<Group> = copy_groups(inventory);
    let mut filled: Vec<(String, Vec<Group>)> = Vec::new();
    let nreq = requests.len();
    let mut j: usize = 0;
    proof {
        assert forall|k: int| 0 <= k < inv@.len() implies (#[trigger] inv@[k])@.wf() by {
            assert(groups_view(inv@)[k] == inv@[k]@);
            assert(groups_view(inventory@)[k] == inventory@[k]@);
        }
        assert(requests_view(requests@).skip(0int) =~= requests_view(requests@));
        match spec_split_all(orig, requests_view(requests@)) {
            Ok(m) => {
                assert(filled@.map_values(fview) + m.filled =~= m.filled);
            },
            Err(_) => {},
        }
    }
    while j < nreq
        invariant
            0 <= j <= nreq,
            forall|k: int| 0 <= k < inv@.len() ==> (#[trigger] inv@[k])@.wf(),
            spec_split_all(orig, requests_view(requests@)) == (match spec_split_all(
                groups_view(inv@),
                requests_view(requests@).skip(j as int),
            ) {
                Ok(m) => Ok::<SplitModel, SplitErrorModel>(
                    SplitModel {
                        filled: filled@.map_values(fview) + m.filled,
                        leftover: m.leftover,
                    },
                ),
                Err(e) => Err::<SplitModel, SplitErrorModel>(e),
            }),
        decreases nreq - j,
    {
        let request = &requests[j];
        let amounts = request.amounts();
        let namounts = amounts.len();
        let ghost group_state = groups_view(inv@);
        let mut drawn: Vec<Group> = Vec::new();
        let mut idx: usize = 0;
        proof {
            match spec_split_request(group_state, request@.name, request@.amounts, 0int) {
                Ok(pair) => {
                    assert(groups_view(drawn@) + pair.0 =~= pair.0);
                },
                Err(_) => {},
            }
        }
        while idx < namounts
            invariant
                0 <= idx <= namounts,
                forall|k: int| 0 <= k < inv@.len() ==> (#[trigger] inv@[k])@.wf(),
                spec_split_request(group_state, request@.name, request@.amounts, 0int) == (
                match spec_split_request(
                    groups_view(inv@),
                    request@.name,
                    request@.amounts,
                    idx as int,
                ) {
                    Ok(pair) => Ok::<_, SplitErrorModel>(
                        (groups_view(drawn@) + pair.0, pair.1),
                    ),
                    Err(e) => Err::<(Seq<GroupModel>, Seq<GroupModel>), _>(e),
                }),
            decreases namounts - idx,
        {
            if idx >= inv.len() {
                proof {
                    assert(groups_view(inv@).len() == inv@.len());
                    assert(requests_view(requests@).skip(j as int)[0] == request@);
                }
                return Err(
                    SplitError::TooManyGroupsRequested { request_name: request.name().to_owned() },
                );
            }
            let amount = amounts[idx];
            let split_res = split_ranges(inv[idx].ranges(), amount);
            match split_res {
                Err(needed) => {
                    proof {
                        assert(groups_view(inv@)[idx as int] == inv@[idx as int]@);
                        assert(requests_view(requests@).skip(j as int)[0] == request@);
                    }
                    return Err(
                        SplitError::NotEnough {
                            group_name: inv[idx].name().to_owned(),
                            amount_needed: needed,
                        },
                    );
                },
                Ok((used_ranges, unused_ranges)) => {
                    let ghost before = groups_view(inv@);
                    let used_group = inv[idx].with_ranges(used_ranges);
                    let unused_group = inv[idx].with_ranges(unused_ranges);
                    let ghost old_drawn = groups_view(drawn@);
                    drawn.push(used_group);
                    inv[idx] = unused_group;
                    idx = idx + 1;
                    proof {
                        assert(groups_view(inv@) =~= before.update(
                            idx - 1,
                            GroupModel {
                                name: before[idx - 1].name,
                                ranges: unused_ranges@,
                            },
                        ));
                        assert(groups_view(drawn@) =~= old_drawn.push(
                            GroupModel { name: before[idx - 1].name, ranges: used_ranges@ },
                        ));
                        match spec_split_request(
                            groups_view(inv@),
                            request@.name,
                            request@.amounts,
                            idx as int,
                        ) {
                            Ok(pair) => {
                                assert(groups_view(drawn@) + pair.0 =~= old_drawn + (seq![
                                    GroupModel {
                                        name: before[idx - 1].name,
                                        ranges: used_ranges@,
                                    },
                                ] + pair.0));
                            },
                            Err(_) => {},
                        }
                        lemma_spec_split_ranges_wf(before[idx - 1].ranges, amount);
                        assert forall|k: int| 0 <= k < inv@.len() implies (
                        #[trigger] inv@[k])@.wf() by {
                            assert(groups_view(inv@)[k] == inv@[k]@);
                        }
                    }
                },
            }
        }
        let name_string = request.name().to_owned();
        let ghost old_filled = filled@;
        let ghost final_drawn = groups_view(drawn@);
        filled.push((name_string, drawn));
        j = j + 1;
        proof {
            assert(requests_view(requests@).skip(j - 1)[0] == request@);
            assert(requests_view(requests@).skip(j - 1).drop_first() =~= requests_view(
                requests@,
            ).skip(j as int));
            match spec_split_request(
                groups_view(inv@),
                request@.name,
                request@.amounts,
                idx as int,
            ) {
                Ok(pair) => {
                    assert(final_drawn + pair.0 =~= final_drawn);
                },
                Err(_) => {},
            }
            assert(filled@.map_values(fview) =~= old_filled.map_values(fview).push(
                (request@.name, final_drawn),
            ));
            match spec_split_all(groups_view(inv@), requests_view(requests@).skip(j as int)) {
                Ok(m) => {
                    assert(filled@.map_values(fview) + m.filled =~= old_filled.map_values(fview)
                        + (seq![(request@.name, final_drawn)] + m.filled));
                },
                Err(_) => {},
            }
        }
    }
    proof {
        assert(requests_view(requests@).skip(nreq as int) =~= Seq::<RequestModel>::empty());
        let res_filled = filled@.map_values(fview);
        assert(res_filled + Seq::<(Seq<char>, Seq<GroupModel>)>::empty() =~= res_filled);
        assert(filled@.map_values(
            |p: (String, Vec<Group>)| (p.0@, groups_view(p.1@)),
        ) =~= res_filled);
    }
    Ok(Split { filled_requests: filled, leftover_ranges: inv })
}

/// Every group's ranges run upward with representable counts.
pub open spec fn groups_wf(gs: Seq<GroupModel>) -> bool {
    forall|i: int| 0 <= i < gs.len() ==> ranges_wf((#[trigger] gs[i]).ranges)
}

/// The total number of units over a sequence of groups.
pub open spec fn groups_total(gs: Seq<GroupModel>) -> int
    decreases gs.len(),
{
    if gs.len() == 0 {
        0
    } else {
        seq_count(gs[0].ranges) + groups_total(gs.drop_first())
    }
}

/// The total number of units drawn over all filled requests.
pub open spec fn filled_total(filled: Seq<(Seq<char>, Seq<GroupModel>)>) -> int
    decreases filled.len(),
{
    if filled.len() == 0 {
        0
    } else {
        groups_total(filled[0].1) + filled_total(filled.drop_first())
    }
}

proof fn lemma_seq_count_cons(x: Range, s: Seq<Range>)
    ensures
        seq_count(seq![x] + s) == x.spec_count() + seq_count(s),
{
    assert((seq![x] + s)[0] == x);
    assert((seq![x] + s).drop_first() =~= s);
}

proof fn lemma_groups_total_cons(g: GroupModel, gs: Seq<GroupModel>)
    ensures
        groups_total(seq![g] + gs) == seq_count(g.ranges) + groups_total(gs),
{
    assert((seq![g] + gs)[0] == g);
    assert((seq![g] + gs).drop_first() =~= gs);
}

proof fn lemma_groups_total_update(gs: Seq<GroupModel>, i: int, g: GroupModel)
    requires
        0 <= i < gs.len(),
    ensures
        groups_total(gs.update(i, g)) == groups_total(gs) - seq_count(gs[i].ranges) + seq_count(
            g.ranges,
        ),
    decreases gs.len(),
{
    if i == 0 {
        assert(gs.update(0, g)[0] == g);
        assert(gs.update(0, g).drop_first() =~= gs.drop_first());
    } else {
        assert(gs.update(i, g)[0] == gs[0]);
        assert(gs.update(i, g).drop_first() =~= gs.drop_first().update(i - 1, g));
        lemma_groups_total_update(gs.drop_first(), i - 1, g);
    }
}

/// Drawing conserves units at the range-list level: on success exactly
/// `amount` units are drawn and the rest are left over; the list falls short
/// exactly when `amount` exceeds its total, and then the reported shortfall
/// is exactly the difference.
pub proof fn lemma_split_ranges_conservation(ranges: Seq<Range>, amount: u32)
    requires
        ranges_wf(ranges),
    ensures
        (match spec_split_ranges(ranges, amount) {
            Ok(pair) => {
                &&& seq_count(pair.0) + seq_count(pair.1) == seq_count(ranges)
                &&& seq_count(pair.0) == amount
                &&& ranges_wf(pair.0)
                &&& ranges_wf(pair.1)
            },
            Err(a) => a == amount - seq_count(ranges) && amount > seq_count(ranges),
        }),
    decreases ranges.len(),
{
    if amount == 0 {
    } else if ranges.len() == 0 {
    } else {
        let r = ranges[0];
        assert(ranges_wf(ranges.drop_first()));
        if amount >= r.spec_count() {
            let rest_amount = (amount - r.spec_count()) as u32;
            lemma_split_ranges_conservation(ranges.drop_first(), rest_amount);
            match spec_split_ranges(ranges.drop_first(), rest_amount) {
                Ok(pair) => {
                    lemma_seq_count_cons(r, pair.0);
                },
                Err(_) => {},
            }
        } else {
            let used = Range { first: r.first, last: (r.first + amount - 1) as u32 };
            let rem = Range { first: (r.first + amount) as u32, last: r.last };
            lemma_seq_count_cons(rem, ranges.drop_first());
            lemma_seq_count_cons(used, Seq::empty());
            assert(seq![used] + Seq::<Range>::empty() =~= seq![used]);
        }
    }
}

/// One request conserves units: what it draws plus what it leaves equals
/// what the inventory held, and the leftover inventory stays well formed.
pub proof fn lemma_split_request_conservation(
    groups: Seq<GroupModel>,
    name: Seq<char>,
    amounts: Seq<u32>,
    i: int,
)
    requires
        groups_wf(groups),
    ensures
        (match spec_split_request(groups, name, amounts, i) {
            Ok(pair) => {
                &&& groups_total(pair.0) + groups_total(pair.1) == groups_total(groups)
                &&& groups_wf(pair.1)
            },
            Err(_) => true,
        }),
    decreases amounts.len() - i,
{
    if i < 0 || i >= amounts.len() || i >= groups.len() {
    } else {
        match spec_split_ranges(groups[i].ranges, amounts[i]) {
            Err(_) => {},
            Ok(pair) => {
                lemma_split_ranges_conservation(groups[i].ranges, amounts[i]);
                let drawn_g = GroupModel { name: groups[i].name, ranges: pair.0 };
                let left_g = GroupModel { name: groups[i].name, ranges: pair.1 };
                let updated = groups.update(i, left_g);
                lemma_groups_total_update(groups, i, left_g);
                assert(groups_wf(updated)) by {
                    assert forall|k: int| 0 <= k < updated.len() implies ranges_wf(
                        (#[trigger] updated[k]).ranges,
                    ) by {
                        if k != i {
                            assert(updated[k] == groups[k]);
                        }
                    }
                }
                lemma_split_request_conservation(updated, name, amounts, i + 1);
                match spec_split_request(updated, name, amounts, i + 1) {
                    Err(_) => {},
                    Ok(rest) => {
                        lemma_groups_total_cons(drawn_g, rest.0);
                    },
                }
            },
        }
    }
}

/// Allocation conserves units: on a successful run, the units drawn for all
/// requests plus the units left over are exactly the units the inventory
/// started with — none are created or destroyed.
pub proof fn lemma_split_conserves_units(groups: Seq<GroupModel>, requests: Seq<RequestModel>)
    requires
        groups_wf(groups),
    ensures
        (match spec_split_all(groups, requests) {
            Ok(m) => filled_total(m.filled) + groups_total(m.leftover) == groups_total(groups),
            Err(_) => true,
        }),
    decreases requests.len(),
{
    if requests.len() == 0 {
    } else {
        let req = requests[0];
        lemma_split_request_conservation(groups, req.name, req.amounts, 0);
        match spec_split_request(groups, req.name, req.amounts, 0) {
            Err(_) => {},
            Ok(pair) => {
                lemma_split_conserves_units(pair.1, requests.drop_first());
                match spec_split_all(pair.1, requests.drop_first()) {
                    Err(_) => {},
                    Ok(m) => {
                        assert((seq![(req.name, pair.0)] + m.filled)[0] == (req.name, pair.0));
                        assert((seq![(req.name, pair.0)] + m.filled).drop_first() =~= m.filled);
                    },
                }
            },
        }
    }
}

/// Drawing from well-formed ranges yields well-formed ranges on both sides.
pub proof fn lemma_spec_split_ranges_wf(ranges: Seq<Range>, amount: u32)
    requires
        ranges_wf(ranges),
    ensures
        (match spec_split_ranges(ranges, amount) {
            Ok(pair) => ranges_wf(pair.0) && ranges_wf(pair.1),
            Err(_) => true,
        }),
    decreases ranges.len(),
{
    if amount == 0 || ranges.len() == 0 {
    } else {
        let r = ranges[0];
        assert(ranges_wf(ranges.drop_first()));
        if amount >= r.spec_count() {
            lemma_spec_split_ranges_wf(ranges.drop_first(), (amount - r.spec_count()) as u32);
        }
    }
}

/// A deep copy of a group list.
fn copy_groups(groups: &[Group]) -> (r: Vec<Group>)
    ensures
        groups_view(r@) == groups_view(groups@),
{
    let n = groups.len();
    let mut out: Vec<Group> = Vec::new();
    let mut i: usize = 0;
    while i < n
        invariant
            n == groups@.len(),
            0 <= i <= n,
            out@.len() == i,
            forall|k: int| 0 <= k < i ==> (#[trigger] out@[k])@ == groups@[k]@,
        decreases n - i,
    {
        let ranges = copy_ranges(groups[i].ranges());
        out.push(groups[i].with_ranges(ranges));
        i = i + 1;
    }
    proof {
        assert(groups_view(out@) =~= groups_view(groups@));
    }
    out
}

/// A copy of a range list.
fn copy_ranges(ranges: &[Range]) -> (r: Vec<Range>)
    ensures
        r@ == ranges@,
{
    let n = ranges.len();
    let mut out: Vec<Range> = Vec::new();
    let mut i: usize = 0;
    while i < n
        invariant
            n == ranges@.len(),
            0 <= i <= n,
            out@ == ranges@.take(i as int),
        decreases n - i,
    {
        proof {
            assert(ranges@.take(i + 1) =~= ranges@.take(i as int).push(ranges@[i as int]));
        }
        out.push(ranges[i]);
        i = i + 1;
    }
    proof {
        assert(ranges@.take(n as int) =~= ranges@);
    }
    out
}

} // verus!
