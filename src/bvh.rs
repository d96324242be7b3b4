//! A bounding volume hierarchy over the indices of a scene's primitives.
//!
//! Each primitive is known here through the order keys of its bounding box's
//! minimum corner: a key compares as the coordinate it stands for. The tree is
//! built by the random-axis median split: one or two primitives make a leaf,
//! more are sorted along an axis drawn at random and cut at the middle index.

use rand::Rng;
use vstd::prelude::*;

verus! {

broadcast use vstd::seq_lib::group_to_multiset_ensures, vstd::seq_lib::lemma_multiset_commutative;

/// Order keys of the minimum corner of one primitive's bounding box.
#[derive(Clone, Copy, Debug, PartialEq, Eq)]
pub struct BoxKeys {
    pub x: u64,
    pub y: u64,
    pub z: u64,
}

impl BoxKeys {
    /// The key along `axis` (0 is x, 1 is y, 2 is z).
    pub open spec fn spec_on(self, axis: nat) -> u64 {
        if axis == 0 {
            self.x
        } else if axis == 1 {
            self.y
        } else {
            self.z
        }
    }

    pub fn on(&self, axis: usize) -> (r: u64)
        requires
            axis < 3,
        ensures
            r == self.spec_on(axis as nat),
    {
        if axis == 0 {
            self.x
        } else if axis == 1 {
            self.y
        } else {
            self.z
        }
    }
}

/// Relies on rand's `Rng::gen_range` on the thread-local generator: for a
/// non-empty range `0..n` it returns a value of that range.
#[verifier::external_body]
fn random_index(n: usize) -> (r: usize)
    requires
        0 < n,
    ensures
        r < n,
{
    rand::thread_rng().gen_range(0..n)
}

/// The key of primitive `i` along `axis`.
pub open spec fn key_of(keys: Seq<BoxKeys>, i: usize, axis: nat) -> u64 {
    keys[i as int].spec_on(axis)
}

/// `s` is ordered by key along `axis`.
pub open spec fn sorted_on(keys: Seq<BoxKeys>, s: Seq<usize>, axis: nat) -> bool {
    forall|a: int, b: int|
        #![trigger s[a], s[b]]
        0 <= a < b < s.len() ==> key_of(keys, s[a], axis) <= key_of(keys, s[b], axis)
}

/// Every index of `s` names a primitive of `keys`.
pub open spec fn indices_in(s: Seq<usize>, n: nat) -> bool {
    forall|a: int| 0 <= a < s.len() ==> #[trigger] s[a] < n
}

/// No primitive of `l` starts after a primitive of `r` along `axis`.
pub open spec fn ordered_halves(keys: Seq<BoxKeys>, l: Seq<usize>, r: Seq<usize>, axis: nat) -> bool {
    forall|x: usize, y: usize|
        l.contains(x) && r.contains(y) ==> #[trigger] key_of(keys, x, axis) <= #[trigger] key_of(
            keys,
            y,
            axis,
        )
}

/// A node of the hierarchy: empty (a scene with no primitives), a leaf of one
/// or two primitives, or a split along `axis` into two subtrees.
#[derive(Debug)]
pub enum BVHNode {
    Empty,
    Leaf(usize),
    Pair(usize, usize),
    Split { axis: usize, left: Box<BVHNode>, right: Box<BVHNode> },
}

impl BVHNode {
    /// The primitives under this node, left subtree first.
    pub open spec fn leaves(self) -> Seq<usize>
        decreases self,
    {
        match self {
            BVHNode::Empty => seq![],
            BVHNode::Leaf(i) => seq![i],
            BVHNode::Pair(a, b) => seq![a, b],
            BVHNode::Split { axis, left, right } => left.leaves() + right.leaves(),
        }
    }

    /// Every split holds more than two primitives, cuts them at the middle
    /// index, and leaves no primitive on its left starting after one on its
    /// right along its axis.
    pub open spec fn well_split(self, keys: Seq<BoxKeys>) -> bool
        decreases self,
    {
        match self {
            BVHNode::Split { axis, left, right } => {
                &&& axis < 3
                &&& left.leaves().len() + right.leaves().len() > 2
                &&& left.leaves().len() == (left.leaves().len() + right.leaves().len()) / 2
                &&& ordered_halves(keys, left.leaves(), right.leaves(), axis as nat)
                &&& left.well_split(keys)
                &&& right.well_split(keys)
            },
            _ => true,
        }
    }
}

/// Insertion sort of `items` by key along `axis`.
fn sort_on_axis(keys: &Vec<BoxKeys>, items: &Vec<usize>, axis: usize) -> (r: Vec<usize>)
    requires
        axis < 3,
        indices_in(items@, keys@.len()),
    ensures
        r@.to_multiset() == items@.to_multiset(),
        r@.len() == items@.len(),
        sorted_on(keys@, r@, axis as nat),
        indices_in(r@, keys@.len()),
{
    let mut out: Vec<usize> = Vec::new();
    let mut k: usize = 0;
    while k < items.len()
        invariant
            axis < 3,
            k <= items.len(),
            indices_in(items@, keys@.len()),
            out@.to_multiset() == items@.subrange(0, k as int).to_multiset(),
            out@.len() == k,
            sorted_on(keys@, out@, axis as nat),
            indices_in(out@, keys@.len()),
        decreases items.len() - k,
    {
        let x = items[k];
        let kx = keys[x].on(axis);
        let mut p: usize = 0;
        while p < out.len() && keys[out[p]].on(axis) <= kx
            invariant
                axis < 3,
                p <= out.len(),
                indices_in(out@, keys@.len()),
                forall|a: int| 0 <= a < p ==> key_of(keys@, #[trigger] out@[a], axis as nat) <= kx,
            decreases out.len() - p,
        {
            p = p + 1;
        }
        proof {
            assert(p < out.len() ==> key_of(keys@, out@[p as int], axis as nat) > kx);
        }
        let ghost before = out@;
        out.insert(p, x);
        proof {
            assert(items@.subrange(0, k + 1) =~= items@.subrange(0, k as int).push(x));
            assert forall|a: int, b: int|
                #![trigger out@[a], out@[b]]
                0 <= a < b < out@.len() implies key_of(keys@, out@[a], axis as nat) <= key_of(
                keys@,
                out@[b],
                axis as nat,
            ) by {
                if b < p {
                } else if b == p {
                } else if a < p {
                    assert(out@[b] == before[b - 1]);
                    if p < before.len() {
                        assert(key_of(keys@, before[p as int], axis as nat) <= key_of(
                            keys@,
                            before[b - 1],
                            axis as nat,
                        ) || p == b - 1);
                    }
                } else if a == p {
                    assert(out@[b] == before[b - 1]);
                    assert(key_of(keys@, before[p as int], axis as nat) <= key_of(
                        keys@,
                        before[b - 1],
                        axis as nat,
                    ) || p == b - 1);
                } else {
                    assert(out@[a] == before[a - 1]);
                    assert(out@[b] == before[b - 1]);
                }
            }
        }
        k = k + 1;
    }
    proof {
        assert(items@.subrange(0, k as int) =~= items@);
    }
    out
}

fn build(keys: &Vec<BoxKeys>, items: Vec<usize>) -> (r: BVHNode)
    requires
        indices_in(items@, keys@.len()),
    ensures
        r.leaves().to_multiset() == items@.to_multiset(),
        r.leaves().len() == items@.len(),
        r.well_split(keys@),
        items@.len() == 0 ==> r == BVHNode::Empty,
        items@.len() == 1 ==> r == BVHNode::Leaf(items@[0]),
        items@.len() == 2 ==> r == BVHNode::Pair(items@[0], items@[1]),
        items@.len() > 2 ==> r is Split,
    decreases items@.len(),
{
    let n = items.len();
    if n == 0 {
        proof {
            assert(items@ =~= seq![]);
        }
        BVHNode::Empty
    } else if n == 1 {
        proof {
            assert(items@ =~= seq![items@[0]]);
        }
        BVHNode::Leaf(items[0])
    } else if n == 2 {
        proof {
            assert(items@ =~= seq![items@[0], items@[1]]);
        }
        BVHNode::Pair(items[0], items[1])
    } else {
        let axis = random_index(3);
        let mut lower = sort_on_axis(keys, &items, axis);
        let ghost sorted = lower@;
        let mid = n / 2;
        let upper = lower.split_off(mid);
        proof {
            assert(sorted =~= lower@ + upper@);
        }
        let left = build(keys, lower);
        let right = build(keys, upper);
        proof {
            assert forall|x: usize, y: usize|
                left.leaves().contains(x) && right.leaves().contains(y) implies #[trigger] key_of(
                keys@,
                x,
                axis as nat,
            ) <= #[trigger] key_of(keys@, y, axis as nat) by {
                assert(left.leaves().to_multiset().count(x) > 0);
                assert(right.leaves().to_multiset().count(y) > 0);
                let a = choose|a: int| 0 <= a < mid && sorted[a] == x;
                let b = choose|b: int| mid <= b < n && sorted[b] == y;
                assert(sorted[b] == sorted[b]);
            }
        }
        BVHNode::Split { axis, left: Box::new(left), right: Box::new(right) }
    }
}

impl BVHNode {
    /// Builds the hierarchy over primitives `start..end` of `keys`.
    ///
    /// No span: an empty node. One primitive: a leaf. Two: a leaf pair in
    /// their order. More: a split whose axis is drawn at random, its halves
    /// cut at the middle of the primitives sorted along that axis.
    pub fn new(keys: &Vec<BoxKeys>, start: usize, end: usize) -> (r: BVHNode)
        requires
            start <= end <= keys@.len(),
        ensures
            r.leaves().to_multiset() == index_range(start as int, end as int).to_multiset(),
            r.leaves().len() == end - start,
            r.well_split(keys@),
            end - start == 0 ==> r == BVHNode::Empty,
            end - start == 1 ==> r == BVHNode::Leaf(start),
            end - start == 2 ==> r == BVHNode::Pair(start, (start + 1) as usize),
            end - start > 2 ==> r is Split,
    {
        let mut items: Vec<usize> = Vec::new();
        let mut i: usize = start;
        while i < end
            invariant
                start <= i <= end <= keys@.len(),
                items@ == index_range(start as int, i as int),
            decreases end - i,
        {
            items.push(i);
            proof {
                assert(index_range(start as int, i + 1) =~= index_range(start as int, i as int).push(i));
            }
            i = i + 1;
        }
        build(keys, items)
    }
}

impl BVHNode {
    /// The primitives under this node, left subtree first.
    pub fn leaf_indices(&self) -> (r: Vec<usize>)
        ensures
            r@ == self.leaves(),
        decreases self,
    {
        match self {
            BVHNode::Empty => {
                let r: Vec<usize> = Vec::new();
                proof {
                    assert(r@ =~= self.leaves());
                }
                r
            },
            BVHNode::Leaf(i) => {
                let mut r: Vec<usize> = Vec::new();
                r.push(*i);
                proof {
                    assert(r@ =~= self.leaves());
                }
                r
            },
            BVHNode::Pair(a, b) => {
                let mut r: Vec<usize> = Vec::new();
                r.push(*a);
                r.push(*b);
                proof {
                    assert(r@ =~= self.leaves());
                }
                r
            },
            BVHNode::Split { axis, left, right } => {
                let mut r = left.leaf_indices();
                let mut s = right.leaf_indices();
                r.append(&mut s);
                proof {
                    assert(r@ =~= self.leaves());
                }
                r
            },
        }
    }
}

/// A hierarchy built over `start..end` holds each of those primitives exactly
/// once and no other, so a search through it meets the same primitives as a
/// linear scan of the list does.
pub proof fn lemma_each_primitive_once(t: BVHNode, start: usize, end: usize)
    requires
        start <= end,
        t.leaves().to_multiset() == index_range(start as int, end as int).to_multiset(),
    ensures
        t.leaves().no_duplicates(),
        forall|i: usize| t.leaves().contains(i) <==> start <= i < end,
{
    let s = index_range(start as int, end as int);
    assert forall|i: usize| s.contains(i) <==> start <= i < end by {
        if start <= i < end {
            assert(s[i - start] == i);
        }
    }
    s.lemma_multiset_has_no_duplicates();
    t.leaves().lemma_multiset_has_no_duplicates_conv();
    assert forall|i: usize| t.leaves().contains(i) <==> start <= i < end by {
        assert(t.leaves().contains(i) <==> t.leaves().to_multiset().count(i) > 0);
        assert(s.contains(i) <==> s.to_multiset().count(i) > 0);
    }
}

/// The hit of primitive `i`, where it lies no farther than `bound`. Hits are
/// given as order keys of their ray parameters, `None` for a miss.
pub open spec fn leaf_hit(hits: Seq<Option<u64>>, i: usize, bound: u64) -> Option<(u64, usize)> {
    if i < hits.len() && hits[i as int] is Some && hits[i as int]->Some_0 <= bound {
        Some((hits[i as int]->Some_0, i))
    } else {
        None
    }
}

/// The search bound after a candidate: its distance, or `bound` if none.
pub open spec fn tightened(first: Option<(u64, usize)>, bound: u64) -> u64 {
    match first {
        Some((d, _)) => d,
        None => bound,
    }
}

impl BVHNode {
    /// The hit that a search of this node finds within `bound`: the second
    /// child is searched only up to the first child's hit, and its hit, if
    /// any, is taken.
    pub open spec fn nearest(self, hits: Seq<Option<u64>>, bound: u64) -> Option<(u64, usize)>
        decreases self,
    {
        match self {
            BVHNode::Empty => None,
            BVHNode::Leaf(i) => leaf_hit(hits, i, bound),
            BVHNode::Pair(a, b) => {
                let first = leaf_hit(hits, a, bound);
                match leaf_hit(hits, b, tightened(first, bound)) {
                    Some(h) => Some(h),
                    None => first,
                }
            },
            BVHNode::Split { axis, left, right } => {
                let first = left.nearest(hits, bound);
                match right.nearest(hits, tightened(first, bound)) {
                    Some(h) => Some(h),
                    None => first,
                }
            },
        }
    }
}

/// The hit that a linear scan of `order` finds within `bound`: each
/// primitive in turn is searched up to the nearest hit so far, and replaces
/// it when it hits.
pub open spec fn scan_nearest(order: Seq<usize>, hits: Seq<Option<u64>>, bound: u64) -> Option<(u64, usize)>
    decreases order.len(),
{
    if order.len() == 0 {
        None
    } else {
        let first = scan_nearest(order.drop_last(), hits, bound);
        match leaf_hit(hits, order.last(), tightened(first, bound)) {
            Some(h) => Some(h),
            None => first,
        }
    }
}

/// `r` is a nearest hit within `bound` among the primitives of `s`: none of
/// them hits within `bound` if `r` is `None`; otherwise `r` is the hit of one
/// of them, and no hit among them within `bound` is nearer.
pub open spec fn is_nearest(r: Option<(u64, usize)>, s: Seq<usize>, hits: Seq<Option<u64>>, bound: u64) -> bool {
    match r {
        None => forall|i: usize| s.contains(i) ==> #[trigger] leaf_hit(hits, i, bound) is None,
        Some((d, i)) => {
            &&& s.contains(i)
            &&& leaf_hit(hits, i, bound) == Some((d, i))
            &&& forall|j: usize|
                s.contains(j) && #[trigger] leaf_hit(hits, j, bound) is Some ==> d <= hits[j as int]->Some_0
        },
    }
}

proof fn lemma_scan_is_nearest(order: Seq<usize>, hits: Seq<Option<u64>>, bound: u64)
    ensures
        is_nearest(scan_nearest(order, hits, bound), order, hits, bound),
    decreases order.len(),
{
    if order.len() > 0 {
        let prefix = order.drop_last();
        lemma_scan_is_nearest(prefix, hits, bound);
        assert forall|i: usize| order.contains(i) implies prefix.contains(i) || i == order.last() by {
            let k = choose|k: int| 0 <= k < order.len() && order[k] == i;
            if k < order.len() - 1 {
                assert(prefix[k] == i);
            }
        }
        assert(order.contains(order.last())) by {
            assert(order[order.len() - 1] == order.last());
        }
        assert forall|i: usize| prefix.contains(i) implies order.contains(i) by {
            let k = choose|k: int| 0 <= k < prefix.len() && prefix[k] == i;
            assert(order[k] == i);
        }
    }
}

proof fn lemma_tree_is_nearest(t: BVHNode, hits: Seq<Option<u64>>, bound: u64)
    ensures
        is_nearest(t.nearest(hits, bound), t.leaves(), hits, bound),
    decreases t,
{
    match t {
        BVHNode::Empty => {
            assert forall|i: usize| !t.leaves().contains(i) by {}
        },
        BVHNode::Leaf(i) => {
            assert(t.leaves()[0] == i);
        },
        BVHNode::Pair(a, b) => {
            assert(t.leaves()[0] == a);
            assert(t.leaves()[1] == b);
            assert forall|i: usize| t.leaves().contains(i) implies i == a || i == b by {
                let k = choose|k: int| 0 <= k < t.leaves().len() && t.leaves()[k] == i;
            }
        },
        BVHNode::Split { axis, left, right } => {
            lemma_tree_is_nearest(*left, hits, bound);
            let first = left.nearest(hits, bound);
            lemma_tree_is_nearest(*right, hits, tightened(first, bound));
            let l = left.leaves();
            let r = right.leaves();
            assert forall|i: usize| t.leaves().contains(i) implies l.contains(i) || r.contains(i) by {
                let k = choose|k: int| 0 <= k < t.leaves().len() && t.leaves()[k] == i;
                if k < l.len() {
                    assert(l[k] == i);
                } else {
                    assert(r[k - l.len()] == i);
                }
            }
            assert forall|i: usize| l.contains(i) implies t.leaves().contains(i) by {
                let k = choose|k: int| 0 <= k < l.len() && l[k] == i;
                assert(t.leaves()[k] == i);
            }
            assert forall|i: usize| r.contains(i) implies t.leaves().contains(i) by {
                let k = choose|k: int| 0 <= k < r.len() && r[k] == i;
                assert(t.leaves()[l.len() + k] == i);
            }
            let far = tightened(first, bound);
            let second = right.nearest(hits, far);
            assert(far <= bound);
            match second {
                Some((d2, j)) => {
                    assert(r.contains(j));
                    assert(leaf_hit(hits, j, bound) == Some((d2, j)));
                    assert forall|k: usize|
                        t.leaves().contains(k) && #[trigger] leaf_hit(hits, k, bound) is Some implies d2
                        <= hits[k as int]->Some_0 by {
                        if l.contains(k) {
                            assert(first is Some);
                        } else {
                            if leaf_hit(hits, k, far) is Some {
                                assert(r.contains(k));
                            }
                        }
                    }
                },
                None => {
                    match first {
                        Some((d, i)) => {
                            assert(l.contains(i));
                            assert forall|k: usize|
                                t.leaves().contains(k) && #[trigger] leaf_hit(hits, k, bound) is Some implies d
                                <= hits[k as int]->Some_0 by {
                                if !l.contains(k) {
                                    assert(r.contains(k));
                                    assert(leaf_hit(hits, k, far) is None);
                                }
                            }
                        },
                        None => {
                            assert forall|k: usize| t.leaves().contains(k) implies #[trigger] leaf_hit(
                                hits,
                                k,
                                bound,
                            ) is None by {
                                if !l.contains(k) {
                                    assert(r.contains(k));
                                    assert(leaf_hit(hits, k, far) is None);
                                }
                            }
                        },
                    }
                },
            }
        },
    }
}

/// Searching a hierarchy built over primitives `0..n` finds a hit at the
/// same distance as a linear scan of the primitives in list order, and
/// finds one exactly when the scan does: both find the nearest hit within
/// `bound`. Distances are order keys of the ray parameter of each
/// primitive's own hit.
pub proof fn lemma_bvh_matches_linear_scan(t: BVHNode, n: usize, hits: Seq<Option<u64>>, bound: u64)
    requires
        t.leaves().to_multiset() == index_range(0, n as int).to_multiset(),
    ensures
        t.nearest(hits, bound) is Some <==> scan_nearest(index_range(0, n as int), hits, bound) is Some,
        t.nearest(hits, bound) is Some ==> t.nearest(hits, bound)->Some_0.0 == scan_nearest(
            index_range(0, n as int),
            hits,
            bound,
        )->Some_0.0,
        is_nearest(t.nearest(hits, bound), index_range(0, n as int), hits, bound),
{
    let all = index_range(0, n as int);
    lemma_each_primitive_once(t, 0, n);
    assert forall|i: usize| all.contains(i) <==> 0 <= i < n by {
        if 0 <= i < n {
            assert(all[i as int] == i);
        }
    }
    lemma_tree_is_nearest(t, hits, bound);
    lemma_scan_is_nearest(all, hits, bound);
    let a = t.nearest(hits, bound);
    let b = scan_nearest(all, hits, bound);
    if a is Some && b is Some {
        let (da, ia) = a->Some_0;
        let (db, ib) = b->Some_0;
        assert(all.contains(ia));
        assert(t.leaves().contains(ib));
        assert(leaf_hit(hits, ib, bound) is Some);
        assert(leaf_hit(hits, ia, bound) is Some);
    } else if a is Some {
        let (da, ia) = a->Some_0;
        assert(all.contains(ia));
        assert(leaf_hit(hits, ia, bound) is Some);
    } else if b is Some {
        let (db, ib) = b->Some_0;
        assert(t.leaves().contains(ib));
        assert(leaf_hit(hits, ib, bound) is Some);
    }
}

fn leaf_hit_exec(hits: &Vec<Option<u64>>, i: usize, bound: u64) -> (r: Option<(u64, usize)>)
    ensures
        r == leaf_hit(hits@, i, bound),
{
    if i < hits.len() {
        match hits[i] {
            Some(d) => if d <= bound {
                Some((d, i))
            } else {
                None
            },
            None => None,
        }
    } else {
        None
    }
}

impl BVHNode {
    /// Searches this node for the nearest of the primitives' hits `hits`
    /// within `bound`, in the order that `nearest` describes.
    pub fn search(&self, hits: &Vec<Option<u64>>, bound: u64) -> (r: Option<(u64, usize)>)
        ensures
            r == self.nearest(hits@, bound),
        decreases self,
    {
        match self {
            BVHNode::Empty => None,
            BVHNode::Leaf(i) => leaf_hit_exec(hits, *i, bound),
            BVHNode::Pair(a, b) => {
                let first = leaf_hit_exec(hits, *a, bound);
                let far = match first {
                    Some((d, _)) => d,
                    None => bound,
                };
                match leaf_hit_exec(hits, *b, far) {
                    Some(h) => Some(h),
                    None => first,
                }
            },
            BVHNode::Split { axis, left, right } => {
                let first = left.search(hits, bound);
                let far = match first {
                    Some((d, _)) => d,
                    None => bound,
                };
                match right.search(hits, far) {
                    Some(h) => Some(h),
                    None => first,
                }
            },
        }
    }
}

/// Scans the primitives `0..hits.len()` in order for the nearest of their
/// hits within `bound`, as `scan_nearest` describes.
pub fn scan_search(hits: &Vec<Option<u64>>, bound: u64) -> (r: Option<(u64, usize)>)
    ensures
        r == scan_nearest(index_range(0, hits@.len() as int), hits@, bound),
{
    let mut best: Option<(u64, usize)> = None;
    let mut i: usize = 0;
    while i < hits.len()
        invariant
            i <= hits@.len(),
            best == scan_nearest(index_range(0, i as int), hits@, bound),
        decreases hits@.len() - i,
    {
        let far = match best {
            Some((d, _)) => d,
            None => bound,
        };
        proof {
            assert(index_range(0, i + 1).drop_last() =~= index_range(0, i as int));
            assert(index_range(0, i + 1).last() == i);
        }
        match leaf_hit_exec(hits, i, far) {
            Some(h) => {
                best = Some(h);
            },
            None => {},
        }
        i = i + 1;
    }
    best
}

/// The indices `start..end` in order.
pub open spec fn index_range(start: int, end: int) -> Seq<usize> {
    Seq::new((end - start) as nat, |k: int| (start + k) as usize)
}

} // verus!
