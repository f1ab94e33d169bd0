//! An interval index: an augmented binary search tree over ranges that
//! answers "which stored ranges overlap this query interval".
//!
//! Each node caches the maximum `last` value of its subtree, so a search can
//! skip a left subtree whose ranges all end before the query starts. The
//! tree is not rebalanced: it only grows, one insertion at a time, and is
//! discarded after one parse.

use vstd::prelude::*;
use vstd::seq_lib::lemma_multiset_commutative;
use crate::range::Range;

verus! {

/// An interval index over ranges, each paired with a payload of a copyable
/// type (the callers store text positions).
pub struct IntervalTree<D: Copy> {
    node: Option<IntervalTreeNode<D>>,
}

/// One node of the index: a stored range with its payload, the cached
/// subtree maximum of `last` values, and the owned subtrees.
pub struct IntervalTreeNode<D: Copy> {
    data: D,
    interval: Range,
    max: u32,
    left: Option<Box<IntervalTreeNode<D>>>,
    right: Option<Box<IntervalTreeNode<D>>>,
}

/// Holds of a stored pair when its range overlaps the query.
pub open spec fn overlap_pred<D>(query: Range) -> spec_fn((Range, D)) -> bool {
    |p: (Range, D)| p.0.spec_overlaps(query)
}

/// A list of pairs whose ranges all end before the query starts has no
/// overlap with it.
proof fn lemma_no_overlap_filter_empty<D>(pairs: Seq<(Range, D)>, query: Range, bound: u32)
    requires
        forall|i: int| 0 <= i < pairs.len() ==> (#[trigger] pairs[i]).0.last <= bound,
        bound < query.first,
    ensures
        pairs.filter(overlap_pred::<D>(query)) == Seq::<(Range, D)>::empty(),
    decreases pairs.len(),
{
    reveal(Seq::filter);
    if pairs.len() > 0 {
        lemma_no_overlap_filter_empty(pairs.drop_last(), query, bound);
        assert(pairs[pairs.len() - 1].0.last <= bound);
        assert(!overlap_pred::<D>(query)(pairs.last()));
    }
    assert(pairs.filter(overlap_pred::<D>(query)) =~= Seq::<(Range, D)>::empty());
}

impl<D: Copy> IntervalTreeNode<D> {
    /// All stored (range, payload) pairs of the optional subtree, in
    /// preorder.
    pub closed spec fn optional_pairs(node: Option<Box<IntervalTreeNode<D>>>) -> Seq<(Range, D)>
        decreases node,
    {
        match node {
            None => Seq::empty(),
            Some(n) => n.pairs(),
        }
    }

    /// All stored (range, payload) pairs, in preorder.
    pub closed spec fn pairs(self) -> Seq<(Range, D)>
        decreases self,
    {
        seq![(self.interval, self.data)] + Self::optional_pairs(self.left)
            + Self::optional_pairs(self.right)
    }

    /// The cached maximum bounds every `last` in the subtree, here and below.
    pub closed spec fn wf(self) -> bool
        decreases self,
    {
        &&& self.interval.last <= self.max
        &&& (match self.left {
            Some(l) => l.wf() && l.max <= self.max,
            None => true,
        })
        &&& (match self.right {
            Some(r) => r.wf() && r.max <= self.max,
            None => true,
        })
    }

    /// In a well-formed subtree, every stored range ends at or before the
    /// cached maximum.
    proof fn lemma_last_bounded(self)
        requires
            self.wf(),
        ensures
            forall|i: int|
                0 <= i < self.pairs().len() ==> (#[trigger] self.pairs()[i]).0.last <= self.max,
        decreases self,
    {
        let head = seq![(self.interval, self.data)];
        let left = Self::optional_pairs(self.left);
        let right = Self::optional_pairs(self.right);
        assert(self.pairs() == head + left + right);
        if let Some(l) = self.left {
            l.lemma_last_bounded();
            assert(left == l.pairs());
            assert(forall|i: int| 0 <= i < left.len() ==> (#[trigger] left[i]).0.last <= self.max);
        }
        if let Some(r) = self.right {
            r.lemma_last_bounded();
            assert(right == r.pairs());
            assert(forall|i: int|
                0 <= i < right.len() ==> (#[trigger] right[i]).0.last <= self.max);
        }
        assert forall|i: int|
            0 <= i < self.pairs().len() implies (#[trigger] self.pairs()[i]).0.last
            <= self.max by {
            if i == 0 {
                assert(self.pairs()[i] == (self.interval, self.data));
            } else if i <= left.len() {
                assert((head + left + right)[i] == (head + left)[i]);
                assert((head + left)[i] == left[i - 1]);
            } else {
                assert((head + left + right)[i] == right[i - 1 - left.len()]);
            }
        }
    }

    /// The cached maximum `last` value of the subtree.
    pub closed spec fn spec_max(self) -> u32 {
        self.max
    }

    pub fn new(interval: Range, data: D) -> (node: Self)
        ensures
            node.wf(),
            node.pairs() == seq![(interval, data)],
            node.spec_max() == interval.last,
    {
        let max = interval.last();
        let node = IntervalTreeNode { data, interval, max, left: None, right: None };
        proof {
            assert(node.pairs() =~= seq![(interval, data)]);
        }
        node
    }

    fn insert_into_optional(node: &mut Option<Box<IntervalTreeNode<D>>>, interval: Range, data: D)
        requires
            (*old(node) matches Some(n) ==> n.wf()),
        ensures
            (*final(node) matches Some(n) && n.wf()),
            Self::optional_pairs(*final(node)).to_multiset() == Self::optional_pairs(
                *old(node),
            ).to_multiset().insert((interval, data)),
            final(node).unwrap().max == (match *old(node) {
                Some(n) => if n.max >= interval.last {
                    n.max
                } else {
                    interval.last
                },
                None => interval.last,
            }),
        decreases *old(node),
    {
        match node.take() {
            None => {
                *node = Some(Box::new(IntervalTreeNode::new(interval, data)));
                proof {
                    broadcast use vstd::seq_lib::group_to_multiset_ensures;
                    broadcast use vstd::multiset::group_multiset_axioms;

                    let p = Self::optional_pairs(*node);
                    assert(p =~= seq![(interval, data)]);
                    assert(Seq::<(Range, D)>::empty().push(
                        (interval, data),
                    ) =~= seq![(interval, data)]);
                    assert(p.to_multiset() =~= Seq::<(Range, D)>::empty().to_multiset().insert(
                        (interval, data),
                    ));
                }
            },
            Some(mut boxed) => {
                (&mut *boxed).insert(interval, data);
                *node = Some(boxed);
            },
        }
    }

    /// Stores one more range with its payload, keeping the cached maxima
    /// correct along the insertion path.
    pub fn insert(&mut self, interval: Range, data: D)
        requires
            old(self).wf(),
        ensures
            final(self).wf(),
            final(self).pairs().to_multiset() == old(self).pairs().to_multiset().insert(
                (interval, data),
            ),
            final(self).spec_max() == if old(self).spec_max() >= interval.last {
                old(self).spec_max()
            } else {
                interval.last
            },
        decreases *old(self),
    {
        let l = self.interval.first();

        if self.max < interval.last() {
            self.max = interval.last();
        }

        let ghost pre = *self;
        if interval.first() < l {
            Self::insert_into_optional(&mut self.left, interval, data);
        } else {
            Self::insert_into_optional(&mut self.right, interval, data);
        }
        proof {
            broadcast use vstd::multiset::group_multiset_axioms;

            let head = seq![(self.interval, self.data)];
            let left = Self::optional_pairs(self.left);
            let right = Self::optional_pairs(self.right);
            let old_left = Self::optional_pairs(old(self).left);
            let old_right = Self::optional_pairs(old(self).right);
            lemma_multiset_commutative(head + left, right);
            lemma_multiset_commutative(head, left);
            lemma_multiset_commutative(head + old_left, old_right);
            lemma_multiset_commutative(head, old_left);
            assert(final(self).pairs().to_multiset() =~= old(self).pairs().to_multiset().insert(
                (interval, data),
            ));
        }
    }

    /// Appends every stored pair whose range overlaps the query, in the
    /// order the search visits them.
    pub fn overlap_search(&self, interval: &Range, overlaps: &mut Vec<(Range, D)>)
        requires
            self.wf(),
        ensures
            final(overlaps)@ == old(overlaps)@ + self.pairs().filter(
                overlap_pred::<D>(*interval),
            ),
        decreases *self,
    {
        broadcast use vstd::seq_lib::group_filter_ensures;

        let ghost pred = overlap_pred::<D>(*interval);
        let ghost head = seq![(self.interval, self.data)];
        let ghost left_pairs = Self::optional_pairs(self.left);
        let ghost right_pairs = Self::optional_pairs(self.right);
        let ghost out0 = overlaps@;
        proof {
            reveal_with_fuel(Seq::filter, 3);
            assert(self.pairs() == head + left_pairs + right_pairs);
            assert(head.drop_last() =~= Seq::<(Range, D)>::empty());
            assert(head.last() == (self.interval, self.data));
            if pred((self.interval, self.data)) {
                assert(head.filter(pred) =~= head);
            } else {
                assert(head.filter(pred) =~= Seq::empty());
            }
        }
        if interval.overlaps(&self.interval) {
            overlaps.push((self.interval, self.data));
            proof {
                assert(overlaps@ =~= out0 + head.filter(pred));
            }
        } else {
            proof {
                assert(overlaps@ =~= out0 + head.filter(pred));
            }
        }
        let ghost out1 = overlaps@;

        if let Some(node) = &self.left {
            if node.max >= interval.first() {
                node.overlap_search(interval, overlaps);
            } else {
                proof {
                    node.lemma_last_bounded();
                    assert(left_pairs == node.pairs());
                    lemma_no_overlap_filter_empty(left_pairs, *interval, node.max);
                    assert(overlaps@ =~= out1 + left_pairs.filter(pred));
                }
            }
        } else {
            proof {
                reveal_with_fuel(Seq::filter, 2);
                assert(left_pairs.filter(pred) =~= Seq::empty());
                assert(overlaps@ =~= out1 + left_pairs.filter(pred));
            }
        }
        let ghost out2 = overlaps@;

        if let Some(node) = &self.right {
            node.overlap_search(interval, overlaps);
        } else {
            proof {
                reveal_with_fuel(Seq::filter, 2);
                assert(right_pairs.filter(pred) =~= Seq::empty());
                assert(overlaps@ =~= out2 + right_pairs.filter(pred));
            }
        }
        proof {
            assert(out2 == out1 + left_pairs.filter(pred));
            assert(overlaps@ == out2 + right_pairs.filter(pred));
            assert((head + left_pairs + right_pairs).filter(pred) == (head + left_pairs).filter(
                pred,
            ) + right_pairs.filter(pred));
            assert((head + left_pairs).filter(pred) == head.filter(pred) + left_pairs.filter(
                pred,
            ));
            assert(overlaps@ =~= out0 + self.pairs().filter(pred));
        }
    }
}

impl<D: Copy> IntervalTree<D> {
    /// The index is well formed: every cached maximum bounds its subtree.
    pub closed spec fn wf(self) -> bool {
        match self.node {
            Some(n) => n.wf(),
            None => true,
        }
    }

    /// All stored (range, payload) pairs, in the order the search visits
    /// them.
    pub closed spec fn pairs(self) -> Seq<(Range, D)> {
        match self.node {
            Some(n) => n.pairs(),
            None => Seq::empty(),
        }
    }

    pub fn new() -> (tree: Self)
        ensures
            tree.wf(),
            tree.pairs() == Seq::<(Range, D)>::empty(),
    {
        Self { node: None }
    }

    /// Stores one more range with its payload.
    pub fn insert(&mut self, interval: Range, data: D)
        requires
            old(self).wf(),
        ensures
            final(self).wf(),
            final(self).pairs().to_multiset() == old(self).pairs().to_multiset().insert(
                (interval, data),
            ),
    {
        match &mut self.node {
            Some(node) => node.insert(interval, data),
            None => {
                self.node = Some(IntervalTreeNode::new(interval, data));
                proof {
                    broadcast use vstd::seq_lib::group_to_multiset_ensures;
                    broadcast use vstd::multiset::group_multiset_axioms;

                    assert(Seq::<(Range, D)>::empty().push(
                        (interval, data),
                    ) =~= seq![(interval, data)]);
                    assert(self.pairs().to_multiset()
                        =~= Seq::<(Range, D)>::empty().to_multiset().insert((interval, data)));
                }
            },
        }
    }

    /// Appends every stored pair whose range overlaps the query — exactly
    /// those, each as often as it is stored.
    pub fn overlap_search(&self, interval: &Range, overlaps: &mut Vec<(Range, D)>)
        requires
            self.wf(),
        ensures
            final(overlaps)@ == old(overlaps)@ + self.pairs().filter(
                overlap_pred::<D>(*interval),
            ),
    {
        if let Some(node) = &self.node {
            node.overlap_search(interval, overlaps);
        } else {
            proof {
                reveal_with_fuel(Seq::filter, 2);
                assert(self.pairs().filter(overlap_pred::<D>(*interval)) =~= Seq::empty());
                assert(overlaps@ + Seq::<(Range, D)>::empty() =~= overlaps@);
            }
        }
    }
}

} // verus!
