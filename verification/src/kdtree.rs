//! Spatial dominance index.
//!
//! A `KDTreeNode` is a median-split tree over k-dimensional integer points
//! whose last coordinate is a non-spatial identity value.  `dominates`
//! answers whether some indexed point strictly beats the query on every
//! spatial axis; its pruning uses the per-node `potency` bound (the maximum
//! value along the node's split axis within its subtree), which never skips
//! a subtree that could hold a dominator, so a query point that is
//! Pareto-optimal among the indexed points is never reported as dominated.

use vstd::prelude::*;
use vstd::multiset::Multiset;

verus! {

broadcast use {vstd::seq_lib::group_to_multiset_ensures, vstd::multiset::group_multiset_axioms};

/// The views of a list of points.
pub open spec fn point_views(s: Seq<Vec<i64>>) -> Seq<Seq<i64>> {
    s.map_values(|v: Vec<i64>| v@)
}

/// `q` strictly beats `p` on every spatial axis (all coordinates but the
/// trailing identity one).
pub open spec fn beats(q: Seq<i64>, p: Seq<i64>, k: int) -> bool {
    forall|a: int| 0 <= a < k - 1 ==> (#[trigger] q[a]) > (#[trigger] p[a])
}

/// Some point of `ms` strictly beats `p` on every spatial axis.
pub open spec fn dominated(ms: Multiset<Seq<i64>>, p: Seq<i64>, k: int) -> bool {
    exists|q: Seq<i64>| #[trigger] ms.contains(q) && beats(q, p, k)
}

/// A point never strictly beats itself: equality on the first spatial axis
/// already fails the strict test.  This is why an indexed point is not
/// counted as a dominator of a query equal to it.
pub proof fn lemma_no_self_domination(p: Seq<i64>, k: int)
    requires
        k >= 2,
    ensures
        !beats(p, p, k),
{
    if beats(p, p, k) {
        let witness = p[0];
        assert(witness >= p[0] && witness <= p[0]);
        assert(false);
    }
}

/// A query that no indexed point strictly beats on every spatial axis is
/// never dominated: the verdict always rests on a strict witness.
pub proof fn lemma_pareto_optimal_not_dominated(ms: Multiset<Seq<i64>>, p: Seq<i64>, k: int)
    requires
        forall|q: Seq<i64>| #[trigger] ms.contains(q) ==> !beats(q, p, k),
    ensures
        !dominated(ms, p, k),
{
}

/// The dominance verdict is a function of the indexed point multiset alone:
/// two trees built from reorderings of one point list answer every query
/// alike, since building preserves the point multiset.
pub proof fn lemma_build_order_invariant(
    t1: KDTreeNode,
    t2: KDTreeNode,
    pts1: Seq<Seq<i64>>,
    pts2: Seq<Seq<i64>>,
    p: Seq<i64>,
    k: int,
)
    requires
        t1.points() == pts1.to_multiset(),
        t2.points() == pts2.to_multiset(),
        pts1.to_multiset() == pts2.to_multiset(),
    ensures
        dominated(t1.points(), p, k) == dominated(t2.points(), p, k),
{
}

/// Rejected point-list configurations.
#[derive(Debug, Clone, Copy, PartialEq, Eq, Structural)]
pub enum KdTreeError {
    /// Points need at least one spatial axis plus the identity coordinate.
    DimensionTooSmall,
    /// All points must share one dimensionality.
    MismatchedDimensions,
}

pub struct KDTreeNode {
    potency: i64,
    location: Vec<i64>,
    left: Option<Box<KDTreeNode>>,
    right: Option<Box<KDTreeNode>>,
}

impl KDTreeNode {
    /// The multiset of points held in this subtree.
    pub closed spec fn points(self) -> Multiset<Seq<i64>>
        decreases self,
    {
        (match self.left {
            Some(l) => l.points(),
            None => Multiset::<Seq<i64>>::empty(),
        }).insert(self.location@).add(
            match self.right {
                Some(r) => r.points(),
                None => Multiset::<Seq<i64>>::empty(),
            },
        )
    }

    /// Shape invariant: every point has dimension `k`; `axis` is this node's
    /// split axis; `potency` bounds the whole subtree on that axis; the lower
    /// child holds only points at or below the representative on that axis;
    /// children cycle to the next spatial axis.
    pub closed spec fn wf(self, k: int, axis: int) -> bool
        decreases self,
    {
        &&& self.location@.len() == k
        &&& 0 <= axis < k - 1
        &&& forall|q: Seq<i64>|
            #[trigger] self.points().contains(q) ==> q.len() == k && q[axis] <= self.potency
        &&& match self.left {
            Some(l) => l.wf(k, (axis + 1) % (k - 1)) && (forall|q: Seq<i64>|
                #[trigger] l.points().contains(q) ==> q[axis] <= self.location@[axis]),
            None => true,
        }
        &&& match self.right {
            Some(r) => r.wf(k, (axis + 1) % (k - 1)),
            None => true,
        }
    }

    /// Number of coordinates of each indexed point.
    pub closed spec fn spec_dims(self) -> int {
        self.location@.len() as int
    }

    /// Number of coordinates of each indexed point.
    pub fn dims(&self) -> (k: usize)
        ensures
            k as int == self.spec_dims(),
    {
        self.location.len()
    }

    /// Is the query point strictly beaten, on every spatial axis, by some
    /// indexed point?
    pub fn dominates(&self, point: &Vec<i64>) -> (r: bool)
        requires
            point@.len() >= 2,
            self.wf(point@.len() as int, 0),
        ensures
            r == dominated(self.points(), point@, point@.len() as int),
    {
        self.dominates_axis(point, 0)
    }

    #[verifier::loop_isolation(false)]
    fn dominates_axis(&self, point: &Vec<i64>, axis: usize) -> (r: bool)
        requires
            point@.len() >= 2,
            self.wf(point@.len() as int, (axis as int) % (point@.len() - 1)),
        ensures
            r == dominated(self.points(), point@, point@.len() as int),
        decreases *self,
    {
        let k = point.len();
        let spatial = k - 1;
        let ax = axis % spatial;
        let ghost kk = k as int;

        if point[ax] > self.potency {
            // Nothing below this node reaches the query's value on the
            // current axis, so nothing here can beat it everywhere.
            proof {
                assert forall|q: Seq<i64>| #[trigger] self.points().contains(q) implies !beats(
                    q,
                    point@,
                    kk,
                ) by {
                    assert(q[ax as int] <= self.potency);
                }
            }
            return false;
        }

        let mut all_beat: bool = true;
        let mut a: usize = 0;
        while a < spatial
            invariant
                a <= spatial,
                all_beat == (forall|a2: int| 0 <= a2 < a ==> self.location@[a2] > point@[a2]),
            decreases spatial - a,
        {
            if self.location[a] <= point[a] {
                all_beat = false;
            }
            a += 1;
        }
        // A location equal to the query ties on every axis and so never
        // passes this strict test: the node is never its own dominator.
        if all_beat {
            proof {
                assert(self.points().contains(self.location@));
                assert(beats(self.location@, point@, kk));
            }
            return true;
        }

        if self.location[ax] >= point[ax] {
            // A dominator must tie or beat the query on this axis, so when
            // the representative does, the lower half may hold one as well.
            match &self.left {
                Some(l) => {
                    if l.dominates_axis(point, ax + 1) {
                        proof {
                            let q = choose|q: Seq<i64>|
                                #[trigger] l.points().contains(q) && beats(q, point@, kk);
                            assert(self.points().contains(q));
                        }
                        return true;
                    }
                },
                None => {},
            }
        }
        match &self.right {
            Some(r) => {
                if r.dominates_axis(point, ax + 1) {
                    proof {
                        let q = choose|q: Seq<i64>|
                            #[trigger] r.points().contains(q) && beats(q, point@, kk);
                        assert(self.points().contains(q));
                    }
                    return true;
                }
            },
            None => {},
        }
        proof {
            let lpts = match &self.left {
                Some(l) => l.points(),
                None => Multiset::<Seq<i64>>::empty(),
            };
            let rpts = match &self.right {
                Some(r) => r.points(),
                None => Multiset::<Seq<i64>>::empty(),
            };
            assert forall|q: Seq<i64>| #[trigger] self.points().contains(q) implies !beats(
                q,
                point@,
                kk,
            ) by {
                if q == self.location@ {
                    assert(exists|a2: int|
                        0 <= a2 < spatial && !(self.location@[a2] > point@[a2]));
                } else if lpts.contains(q) {
                    if self.location@[ax as int] < point@[ax as int] {
                        // The whole lower half sits at or below the
                        // representative on this axis, hence below the query.
                        assert(q[ax as int] <= self.location@[ax as int]);
                    }
                } else {
                    assert(rpts.contains(q));
                }
            }
        }
        false
    }

    /// Sort points by one spatial axis (insertion sort, stable).
    #[verifier::loop_isolation(false)]
    fn sort_by_axis(v: &mut Vec<Vec<i64>>, axis: usize, Ghost(k): Ghost<int>)
        requires
            axis < k,
            forall|i: int| 0 <= i < old(v)@.len() ==> (#[trigger] old(v)@[i])@.len() == k,
        ensures
            final(v)@.len() == old(v)@.len(),
            point_views(final(v)@).to_multiset() == point_views(old(v)@).to_multiset(),
            forall|i: int| 0 <= i < final(v)@.len() ==> (#[trigger] final(v)@[i])@.len() == k,
            forall|a: int, b: int|
                0 <= a <= b < final(v)@.len() ==> (#[trigger] final(v)@[a])@[axis as int]
                    <= (#[trigger] final(v)@[b])@[axis as int],
    {
        let ghost orig = v@;
        if v.len() <= 1 {
            return ;
        }
        let mut i: usize = 1;
        while i < v.len()
            invariant
                1 <= i <= v@.len(),
                v@.len() == orig.len(),
                point_views(v@).to_multiset() == point_views(orig).to_multiset(),
                forall|i2: int| 0 <= i2 < v@.len() ==> (#[trigger] v@[i2])@.len() == k,
                forall|a: int, b: int|
                    0 <= a <= b < i ==> (#[trigger] v@[a])@[axis as int]
                        <= (#[trigger] v@[b])@[axis as int],
            decreases v@.len() - i,
        {
            let ghost before = v@;
            let ghost i0 = i as int;
            let x = v.remove(i);
            let xa = x[axis];
            proof {
                before.remove_ensures(i0);
                assert forall|i2: int| 0 <= i2 < v@.len() implies (#[trigger] v@[i2])@.len()
                    == k by {
                    if i2 < i0 {
                        assert(v@[i2] == before[i2]);
                    } else {
                        assert(v@[i2] == before[i2 + 1]);
                    }
                }
            }
            let mut j: usize = i;
            while j > 0 && v[j - 1][axis] > xa
                invariant
                    j <= i0,
                    v@ == before.remove(i0),
                    forall|b: int| j <= b < i0 ==> (#[trigger] v@[b])@[axis as int] > xa,
                decreases j,
            {
                j -= 1;
            }
            let ghost jj = j as int;
            let ghost mid = v@;
            v.insert(j, x);
            i += 1;
            proof {
                before.remove_ensures(i0);
                mid.insert_ensures(jj, x);
                // every element still has dimension k
                assert forall|i2: int| 0 <= i2 < v@.len() implies (#[trigger] v@[i2])@.len()
                    == k by {
                    if i2 < jj {
                        assert(v@[i2] == mid[i2]);
                    } else if i2 == jj {
                        assert(v@[i2] == x);
                    } else {
                        assert(v@[i2] == mid[i2 - 1]);
                    }
                }
                // the sorted prefix grew by one element
                assert forall|a: int, b: int|
                    0 <= a <= b < i implies (#[trigger] v@[a])@[axis as int]
                    <= (#[trigger] v@[b])@[axis as int] by {
                    let av = if a < jj {
                        mid[a]
                    } else if a == jj {
                        x
                    } else {
                        mid[a - 1]
                    };
                    assert(v@[a] == av);
                    let bv = if b < jj {
                        mid[b]
                    } else if b == jj {
                        x
                    } else {
                        mid[b - 1]
                    };
                    assert(v@[b] == bv);
                    if a < jj {
                        assert(mid[a] == before[a]);
                        if jj > 0 {
                            assert(mid[jj - 1] == before[jj - 1]);
                            assert(before[a]@[axis as int] <= before[jj - 1]@[axis as int]);
                        }
                    }
                    if a > jj {
                        assert(mid[a - 1]@[axis as int] > xa);
                    }
                    if b > jj {
                        assert(mid[b - 1]@[axis as int] > xa);
                        if a < jj {
                            assert(mid[b - 1] == before[b - 1]);
                            assert(before[a]@[axis as int] <= before[b - 1]@[axis as int]);
                        }
                        if a > jj {
                            assert(mid[a - 1] == before[a - 1]);
                            assert(mid[b - 1] == before[b - 1]);
                            assert(before[a - 1]@[axis as int] <= before[b - 1]@[axis as int]);
                        }
                    }
                    if b == jj && a < jj {
                        assert(mid[jj - 1] == before[jj - 1]);
                        assert(!(mid[jj - 1]@[axis as int] > xa));
                        assert(before[a]@[axis as int] <= before[jj - 1]@[axis as int]);
                    }
                }
                // the point multiset is unchanged
                assert(point_views(mid) =~= point_views(before).remove(i0));
                assert(point_views(v@) =~= point_views(mid).insert(jj, x@));
                vstd::seq_lib::to_multiset_remove(point_views(before), i0);
                vstd::seq_lib::to_multiset_insert(point_views(mid), jj, x@);
                assert(point_views(before)[i0] == x@);
                assert(point_views(before).contains(x@));
                assert(point_views(before).to_multiset().contains(x@));
                assert(point_views(before).to_multiset().remove(x@).insert(x@) =~= point_views(
                    before,
                ).to_multiset());
            }
        }
    }

    fn import_depth(points: Vec<Vec<i64>>, k: usize, axis: usize) -> (r: Option<Box<KDTreeNode>>)
        requires
            k >= 2,
            axis < k - 1,
            forall|i: int| 0 <= i < points@.len() ==> (#[trigger] points@[i])@.len() == k,
        ensures
            (r is None) <==> points@.len() == 0,
            r matches Some(node) ==> node.wf(k as int, axis as int) && node.points()
                == point_views(points@).to_multiset(),
        decreases points@.len(),
    {
        if points.is_empty() {
            return None;
        }
        let mut pts = points;
        let ghost input = pts@;
        KDTreeNode::sort_by_axis(&mut pts, axis, Ghost(k as int));
        let ghost sorted = pts@;
        let len = pts.len();
        let median = len / 2;
        let potency = pts[len - 1][axis];
        let right_part = pts.split_off(median + 1);
        let location = pts.pop().unwrap();
        let ghost left_seq = pts@;
        let ghost right_seq = right_part@;
        proof {
            assert(left_seq =~= sorted.subrange(0, median as int));
            assert(location == sorted[median as int]);
            assert(sorted =~= left_seq + seq![location] + right_seq);
            assert forall|i: int| 0 <= i < left_seq.len() implies (#[trigger] left_seq[i])@.len()
                == k by {
                assert(left_seq[i] == sorted[i]);
            }
            assert forall|i: int| 0 <= i < right_seq.len() implies (#[trigger] right_seq[i])@.len()
                == k by {
                assert(right_seq[i] == sorted[median + 1 + i]);
            }
        }
        let next_axis = (axis + 1) % (k - 1);
        let left_child = KDTreeNode::import_depth(pts, k, next_axis);
        let right_child = KDTreeNode::import_depth(right_part, k, next_axis);
        let node = KDTreeNode { potency, location, left: left_child, right: right_child };
        proof {
            let lms = match &node.left {
                Some(l) => l.points(),
                None => Multiset::<Seq<i64>>::empty(),
            };
            let rms = match &node.right {
                Some(r) => r.points(),
                None => Multiset::<Seq<i64>>::empty(),
            };
            // the children hold exactly the views of the two halves
            assert(lms == point_views(left_seq).to_multiset()) by {
                if left_seq.len() == 0 {
                    assert(point_views(left_seq) =~= Seq::<Seq<i64>>::empty());
                    vstd::multiset::lemma_multiset_empty_len(point_views(left_seq).to_multiset());
                    assert(point_views(left_seq).to_multiset() =~= Multiset::<Seq<i64>>::empty());
                }
            }
            assert(rms == point_views(right_seq).to_multiset()) by {
                if right_seq.len() == 0 {
                    assert(point_views(right_seq) =~= Seq::<Seq<i64>>::empty());
                    vstd::multiset::lemma_multiset_empty_len(point_views(right_seq).to_multiset());
                    assert(point_views(right_seq).to_multiset() =~= Multiset::<Seq<i64>>::empty());
                }
            }
            // the node holds exactly the views of the sorted whole
            assert(point_views(sorted) =~= point_views(left_seq) + seq![location@] + point_views(
                right_seq,
            ));
            vstd::seq_lib::lemma_multiset_commutative(
                point_views(left_seq) + seq![location@],
                point_views(right_seq),
            );
            vstd::seq_lib::lemma_multiset_commutative(point_views(left_seq), seq![location@]);
            assert(seq![location@] =~= Seq::<Seq<i64>>::empty().push(location@));
            assert(seq![location@].to_multiset() =~= Multiset::<Seq<i64>>::empty().insert(
                location@,
            )) by {
                vstd::seq_lib::to_multiset_build(Seq::<Seq<i64>>::empty(), location@);
                vstd::multiset::lemma_multiset_empty_len(
                    Seq::<Seq<i64>>::empty().to_multiset(),
                );
                assert(Seq::<Seq<i64>>::empty().to_multiset() =~= Multiset::<Seq<i64>>::empty());
            }
            assert(node.points() =~= point_views(sorted).to_multiset());
            assert(point_views(sorted).to_multiset() == point_views(input).to_multiset());
            // the shape invariant holds
            assert forall|q: Seq<i64>| #[trigger] node.points().contains(q) implies q.len() == k
                && q[axis as int] <= node.potency by {
                assert(point_views(sorted).contains(q));
                let qi = choose|qi: int|
                    0 <= qi < point_views(sorted).len() && point_views(sorted)[qi] == q;
                assert(q == sorted[qi]@);
                assert(sorted[qi]@[axis as int] <= sorted[sorted.len() - 1]@[axis as int]);
            }
            match &node.left {
                Some(l) => {
                    assert forall|q: Seq<i64>| #[trigger] l.points().contains(q) implies q[axis as int]
                        <= node.location@[axis as int] by {
                        assert(point_views(left_seq).contains(q));
                        let qi = choose|qi: int|
                            0 <= qi < point_views(left_seq).len() && point_views(left_seq)[qi]
                                == q;
                        assert(q == left_seq[qi]@);
                        assert(left_seq[qi] == sorted[qi]);
                        assert(sorted[qi]@[axis as int] <= sorted[median as int]@[axis as int]);
                    }
                },
                None => {},
            }
            assert(node.wf(k as int, axis as int));
        }
        Some(Box::new(node))
    }

    /// Build an index over the given points: `None` for an empty list, else a
    /// tree holding exactly the given points.  Points of unequal or too small
    /// dimensionality are rejected.
    pub fn from_points(points: Vec<Vec<i64>>) -> (r: Result<
        Option<Box<KDTreeNode>>,
        KdTreeError,
    >)
        ensures
            (r is Ok) <==> (points@.len() == 0 || ((#[trigger] points@[0])@.len() >= 2
                && forall|i: int|
                0 <= i < points@.len() ==> (#[trigger] points@[i])@.len() == points@[0]@.len())),
            match r {
                Ok(opt) => {
                    &&& (opt is None) <==> points@.len() == 0
                    &&& match opt {
                        Some(node) => node.wf(points@[0]@.len() as int, 0) && node.points()
                            == point_views(points@).to_multiset(),
                        None => true,
                    }
                },
                Err(KdTreeError::DimensionTooSmall) => points@.len() > 0 && points@[0]@.len() < 2,
                Err(KdTreeError::MismatchedDimensions) => points@.len() > 0 && points@[0]@.len()
                    >= 2 && exists|i: int|
                    0 <= i < points@.len() && (#[trigger] points@[i])@.len()
                        != points@[0]@.len(),
            },
    {
        if points.is_empty() {
            return Ok(None);
        }
        let k = points[0].len();
        if k < 2 {
            return Err(KdTreeError::DimensionTooSmall);
        }
        let mut i: usize = 1;
        while i < points.len()
            invariant
                1 <= i <= points@.len(),
                2 <= k,
                k == points@[0]@.len(),
                forall|i2: int| 0 <= i2 < i ==> (#[trigger] points@[i2])@.len() == k,
            decreases points@.len() - i,
        {
            if points[i].len() != k {
                proof {
                    assert((#[trigger] points@[i as int])@.len() != points@[0]@.len());
                }
                return Err(KdTreeError::MismatchedDimensions);
            }
            i += 1;
        }
        Ok(KDTreeNode::import_depth(points, k, 0))
    }
}

} // verus!
