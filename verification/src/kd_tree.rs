//! The spatial search core: squared-distance metric, median-split tree
//! construction over an arena of integer-indexed nodes, and the
//! descent-and-backtrack nearest-neighbor query.

use vstd::prelude::*;
use vstd::multiset::Multiset;

verus! {

/// Largest value of a single squared coordinate difference: 255 * 255.
pub open spec fn max_coord_sq() -> int {
    65025
}

/// The square of an integer.
pub open spec fn sq(x: int) -> int {
    x * x
}

/// Squared Euclidean distance over the first `n` coordinate pairs of `a` and `b`.
pub open spec fn dist_sq_upto(a: Seq<u8>, b: Seq<u8>, n: int) -> int
    decreases n,
{
    if n <= 0 {
        0
    } else {
        dist_sq_upto(a, b, n - 1) + sq(a[n - 1] - b[n - 1])
    }
}

/// Number of coordinate pairs the metric sums over: the shorter length.
pub open spec fn shared_len(a: Seq<u8>, b: Seq<u8>) -> int {
    if a.len() <= b.len() {
        a.len() as int
    } else {
        b.len() as int
    }
}

/// Squared Euclidean distance between two points, summed over the
/// coordinates both points have.
pub open spec fn dist_sq_spec(a: Seq<u8>, b: Seq<u8>) -> int {
    dist_sq_upto(a, b, shared_len(a, b))
}

proof fn lemma_sq_bound(x: int)
    requires
        -255 <= x <= 255,
    ensures
        0 <= sq(x) <= max_coord_sq(),
{
    assert(0 <= x * x <= 65025) by (nonlinear_arith)
        requires
            -255 <= x <= 255,
    ;
}

proof fn lemma_dist_sq_upto_bound(a: Seq<u8>, b: Seq<u8>, n: int)
    requires
        0 <= n,
        n <= a.len(),
        n <= b.len(),
    ensures
        0 <= dist_sq_upto(a, b, n) <= n * max_coord_sq(),
    decreases n,
{
    if n > 0 {
        lemma_dist_sq_upto_bound(a, b, n - 1);
        lemma_sq_bound(a[n - 1] - b[n - 1]);
    }
}

/// Counter of metric invocations, carried explicitly through every call that
/// measures a distance, for diagnostics and for assertions about work done.
pub struct DistCounter {
    pub calls: u64,
}

impl DistCounter {
    pub fn new() -> (c: DistCounter)
        ensures
            c.calls == 0,
    {
        DistCounter { calls: 0 }
    }
}

/// Squared Euclidean distance between two byte-coordinate points. Each pair
/// of coordinates is widened before subtraction, so no underflow can occur;
/// the invocation counter is bumped once per call (it sticks at its maximum
/// rather than wrapping).
pub fn dist_sq(a: &Vec<u8>, b: &Vec<u8>, counter: &mut DistCounter) -> (r: u32)
    requires
        shared_len(a@, b@) <= 65535,
    ensures
        r == dist_sq_spec(a@, b@),
        final(counter).calls == if old(counter).calls < u64::MAX {
            old(counter).calls + 1
        } else {
            u64::MAX as int
        },
{
    if counter.calls < u64::MAX {
        counter.calls = counter.calls + 1;
    }
    let n: usize = if a.len() <= b.len() {
        a.len()
    } else {
        b.len()
    };
    let mut sum: u32 = 0;
    let mut i: usize = 0;
    while i < n
        invariant
            i <= n,
            n == shared_len(a@, b@),
            n <= 65535,
            sum == dist_sq_upto(a@, b@, i as int),
        decreases n - i,
    {
        proof {
            lemma_dist_sq_upto_bound(a@, b@, i as int);
            lemma_sq_bound(a@[i as int] - b@[i as int]);
        }
        let d: i32 = a[i] as i32 - b[i] as i32;
        assert(d * d == sq(a@[i as int] - b@[i as int])) by (nonlinear_arith)
            requires
                d == a@[i as int] - b@[i as int],
        ;
        assert(i as int * max_coord_sq() <= 65534 * max_coord_sq()) by (nonlinear_arith)
            requires
                0 <= i as int <= 65534,
        ;
        sum = sum + (d * d) as u32;
        i = i + 1;
    }
    sum
}


/// The view sequence of a list of points: each point as its byte sequence.
pub open spec fn pts_seq(s: Seq<Vec<u8>>) -> Seq<Seq<u8>> {
    s.map_values(|p: Vec<u8>| p@)
}

/// The multiset of point values held by a list of points.
pub open spec fn pts_ms(s: Seq<Vec<u8>>) -> Multiset<Seq<u8>> {
    pts_seq(s).to_multiset()
}

/// Copies a point, coordinate by coordinate.
fn copy_point(p: &Vec<u8>) -> (r: Vec<u8>)
    ensures
        r@ == p@,
{
    let mut r: Vec<u8> = Vec::new();
    let mut i: usize = 0;
    while i < p.len()
        invariant
            i <= p@.len(),
            r@ =~= p@.subrange(0, i as int),
        decreases p@.len() - i,
    {
        r.push(p[i]);
        i = i + 1;
    }
    proof {
        assert(r@ =~= p@);
    }
    r
}

/// A subrange `[lo, hi)` is sorted ascending by the coordinate at `d`.
pub open spec fn sorted_range_by_coord(s: Seq<Vec<u8>>, lo: int, hi: int, d: int) -> bool {
    forall|a: int, b: int| lo <= a <= b < hi ==> s[a]@[d] <= s[b]@[d]
}

proof fn lemma_swap_preserves_pts_ms(s: Seq<Vec<u8>>, t: Seq<Vec<u8>>, i: int, j: int)
    requires
        0 <= i < s.len(),
        0 <= j < s.len(),
        i != j,
        t.len() == s.len(),
        t[i]@ == s[j]@,
        t[j]@ == s[i]@,
        forall|m: int| 0 <= m < s.len() && m != i && m != j ==> t[m] == s[m],
    ensures
        pts_ms(t) == pts_ms(s),
{
    broadcast use vstd::seq_lib::to_multiset_update;
    broadcast use vstd::multiset::group_multiset_axioms;

    let sv = pts_seq(s);
    let tv = pts_seq(t);
    assert(tv =~= sv.update(i, sv[j]).update(j, sv[i]));
    assert(sv.update(i, sv[j])[j] == sv[j]);
    assert(sv.update(i, sv[j]).to_multiset() == sv.to_multiset().insert(sv[j]).remove(sv[i]));
    assert(tv.to_multiset() == sv.update(i, sv[j]).to_multiset().insert(sv[i]).remove(sv[j]));
    assert(sv.to_multiset().contains(sv[i])) by {
        broadcast use vstd::seq_lib::to_multiset_contains;
        assert(sv.contains(sv[i]));
    }
    assert(sv.to_multiset().contains(sv[j])) by {
        broadcast use vstd::seq_lib::to_multiset_contains;
        assert(sv.contains(sv[j]));
    }
    assert(tv.to_multiset() =~= sv.to_multiset());
}

/// Sorts the subrange `[lo, hi)` of `v` ascending by the coordinate at `d`,
/// touching nothing outside the subrange and permuting the points inside it.
pub fn sort_range_by_coord(v: &mut Vec<Vec<u8>>, lo: usize, hi: usize, d: usize)
    requires
        lo <= hi <= old(v)@.len(),
        forall|m: int| lo <= m < hi ==> d < old(v)@[m]@.len(),
    ensures
        final(v)@.len() == old(v)@.len(),
        forall|m: int| 0 <= m < old(v)@.len() && !(lo <= m < hi) ==> final(v)@[m] == old(v)@[m],
        forall|m: int| lo <= m < hi ==> d < final(v)@[m]@.len(),
        pts_ms(final(v)@.subrange(lo as int, hi as int)) == pts_ms(
            old(v)@.subrange(lo as int, hi as int),
        ),
        sorted_range_by_coord(final(v)@, lo as int, hi as int, d as int),
        forall|m: int|
            lo <= m < hi ==> old(v)@.subrange(lo as int, hi as int).map_values(
                |p: Vec<u8>| p@,
            ).contains(final(v)@[m]@),
{
    let ghost orig = v@;
    if hi <= lo {
        return ;
    }
    let mut i: usize = lo + 1;
    while i < hi
        invariant
            lo < i <= hi <= v@.len(),
            v@.len() == orig.len(),
            forall|m: int| 0 <= m < orig.len() && !(lo <= m < hi) ==> v@[m] == orig[m],
            forall|m: int| lo <= m < hi ==> d < v@[m]@.len(),
            pts_ms(v@.subrange(lo as int, hi as int)) == pts_ms(
                orig.subrange(lo as int, hi as int),
            ),
            sorted_range_by_coord(v@, lo as int, i as int, d as int),
        decreases hi - i,
    {
        let mut j: usize = i;
        while j > lo && v[j - 1][d] > v[j][d]
            invariant
                lo <= j <= i < hi <= v@.len(),
                v@.len() == orig.len(),
                forall|m: int| 0 <= m < orig.len() && !(lo <= m < hi) ==> v@[m] == orig[m],
                forall|m: int| lo <= m < hi ==> d < v@[m]@.len(),
                pts_ms(v@.subrange(lo as int, hi as int)) == pts_ms(
                    orig.subrange(lo as int, hi as int),
                ),
                forall|a: int, b: int|
                    lo <= a <= b <= i && b != j ==> v@[a]@[d as int] <= v@[b]@[d as int],
            decreases j,
        {
            let ghost before = v@;
            let pa = copy_point(&v[j - 1]);
            let pb = copy_point(&v[j]);
            v.set(j - 1, pb);
            v.set(j, pa);
            proof {
                lemma_swap_preserves_pts_ms(before, v@, j - 1, j as int);
                assert(v@.subrange(lo as int, hi as int) =~= before.subrange(
                    lo as int,
                    hi as int,
                ).update(j - 1 - lo, v@[j - 1]).update(j - lo, v@[j as int]));
                lemma_swap_preserves_pts_ms(
                    before.subrange(lo as int, hi as int),
                    v@.subrange(lo as int, hi as int),
                    j - 1 - lo,
                    j - lo,
                );
            }
            j = j - 1;
        }
        proof {
            assert(forall|a: int, b: int|
                lo <= a <= b <= i ==> v@[a]@[d as int] <= v@[b]@[d as int]) by {
                assert forall|a: int, b: int|
                    lo <= a <= b <= i implies v@[a]@[d as int] <= v@[b]@[d as int] by {
                    if b == j && a < b {
                        assert(v@[a]@[d as int] <= v@[j - 1]@[d as int]);
                    }
                }
            }
        }
        i = i + 1;
    }
    proof {
        assert forall|m: int| lo <= m < hi implies orig.subrange(lo as int, hi as int).map_values(
            |p: Vec<u8>| p@,
        ).contains(v@[m]@) by {
            broadcast use vstd::seq_lib::to_multiset_contains;

            let cur = v@.subrange(lo as int, hi as int);
            assert(pts_seq(cur)[m - lo] == v@[m]@);
            assert(pts_seq(cur).contains(v@[m]@));
            assert(pts_ms(cur).contains(v@[m]@));
        }
    }
}

/// Why a build or a query was rejected: the palette was empty, or a point's
/// dimensionality does not agree with the tree's.
#[derive(Clone, Copy, PartialEq, Eq, Structural, Debug)]
pub enum KdError {
    EmptyPalette,
    DimensionMismatch,
}

/// One node of the spatial tree: it owns one palette point, up to two
/// ordered children (low first), and a back-reference to its parent.
pub struct TreeNode {
    pub point: Vec<u8>,
    pub parent: Option<usize>,
    pub left: Option<usize>,
    pub right: Option<usize>,
}

/// The spatial partition tree: an arena of nodes addressed by index, with
/// the root at index 0, and the fixed coordinate count `k`.
pub struct SpatialTree {
    pub nodes: Vec<TreeNode>,
    pub k: usize,
}

impl SpatialTree {
    /// Downward consistency of one node: its point has `k` coordinates, its
    /// parent sits strictly below it in the arena (only the root has none),
    /// and each child link names a later node whose parent is this node.
    pub open spec fn node_ok(self, i: int) -> bool {
        let n = self.nodes@[i];
        &&& n.point@.len() == self.k
        &&& match n.parent {
            Option::None => i == 0,
            Option::Some(p) => i != 0 && p < i,
        }
        &&& match n.left {
            Option::None => true,
            Option::Some(l) => i < l < self.nodes@.len() && self.nodes@[l as int].parent
                == Option::Some(i as usize),
        }
        &&& match n.right {
            Option::None => true,
            Option::Some(r) => {
                &&& n.left is Some
                &&& n.left != n.right
                &&& i < r < self.nodes@.len()
                &&& self.nodes@[r as int].parent == Option::Some(i as usize)
            },
        }
    }

    /// Upward consistency of one node: its parent, if any, links back to it
    /// as one of its two children.
    pub open spec fn up_linked(self, i: int) -> bool {
        match self.nodes@[i].parent {
            Option::None => true,
            Option::Some(p) => self.nodes@[p as int].left == Option::Some(i as usize)
                || self.nodes@[p as int].right == Option::Some(i as usize),
        }
    }

    /// A non-root node of a freshly built subtree: linked back from its
    /// parent, which sits at or after `a` and strictly below it.
    pub open spec fn interior_linked(self, j: int, a: int) -> bool {
        &&& self.up_linked(j)
        &&& match self.nodes@[j].parent {
            Option::Some(p) => a <= p < j,
            Option::None => false,
        }
    }

    /// The invariant that construction maintains while subtrees are still
    /// being linked in: every node is downward consistent.
    pub open spec fn build_inv(self) -> bool {
        &&& 1 <= self.k <= 65535
        &&& forall|i: int| 0 <= i < self.nodes@.len() ==> self.node_ok(i)
    }

    /// A well-formed tree: downward and upward consistent everywhere, so the
    /// parent/child relation is an acyclic tree rooted at index 0.
    pub open spec fn wf(self) -> bool {
        &&& self.build_inv()
        &&& 1 <= self.nodes@.len()
        &&& forall|i: int| 0 <= i < self.nodes@.len() ==> self.up_linked(i)
    }

    /// The points held by the nodes, in arena order.
    pub open spec fn point_seq(self) -> Seq<Seq<u8>> {
        self.nodes@.map_values(|n: TreeNode| n.point@)
    }

    /// The multiset of points held by the tree.
    pub open spec fn points_multiset(self) -> Multiset<Seq<u8>> {
        self.point_seq().to_multiset()
    }

    /// The multiset of points held by the nodes with indices in `[a, b)`.
    pub open spec fn range_points_ms(self, a: int, b: int) -> Multiset<Seq<u8>> {
        self.point_seq().subrange(a, b).to_multiset()
    }
}

fn set_left_child(tree: &mut SpatialTree, i: usize, c: Option<usize>)
    requires
        i < old(tree).nodes@.len(),
    ensures
        final(tree).k == old(tree).k,
        final(tree).nodes@.len() == old(tree).nodes@.len(),
        forall|m: int| 0 <= m < old(tree).nodes@.len() && m != i ==> final(tree).nodes@[m]
            == old(tree).nodes@[m],
        final(tree).nodes@[i as int].point == old(tree).nodes@[i as int].point,
        final(tree).nodes@[i as int].parent == old(tree).nodes@[i as int].parent,
        final(tree).nodes@[i as int].left == c,
        final(tree).nodes@[i as int].right == old(tree).nodes@[i as int].right,
{
    let n = &mut tree.nodes[i];
    n.left = c;
}

fn set_right_child(tree: &mut SpatialTree, i: usize, c: Option<usize>)
    requires
        i < old(tree).nodes@.len(),
    ensures
        final(tree).k == old(tree).k,
        final(tree).nodes@.len() == old(tree).nodes@.len(),
        forall|m: int| 0 <= m < old(tree).nodes@.len() && m != i ==> final(tree).nodes@[m]
            == old(tree).nodes@[m],
        final(tree).nodes@[i as int].point == old(tree).nodes@[i as int].point,
        final(tree).nodes@[i as int].parent == old(tree).nodes@[i as int].parent,
        final(tree).nodes@[i as int].left == old(tree).nodes@[i as int].left,
        final(tree).nodes@[i as int].right == c,
{
    let n = &mut tree.nodes[i];
    n.right = c;
}

proof fn lemma_ms_split(s: Seq<Seq<u8>>, a: int, b: int, c: int)
    requires
        0 <= a <= b <= c <= s.len(),
    ensures
        s.subrange(a, c).to_multiset() == s.subrange(a, b).to_multiset().add(
            s.subrange(b, c).to_multiset(),
        ),
{
    assert(s.subrange(a, c) =~= s.subrange(a, b) + s.subrange(b, c));
    vstd::seq_lib::lemma_multiset_commutative(s.subrange(a, b), s.subrange(b, c));
}

proof fn lemma_ms_single(s: Seq<Seq<u8>>, i: int)
    requires
        0 <= i < s.len(),
    ensures
        s.subrange(i, i + 1).to_multiset() == Multiset::empty().insert(s[i]),
{
    broadcast use vstd::multiset::group_multiset_axioms;
    broadcast use vstd::seq_lib::group_to_multiset_ensures;

    let single = s.subrange(i, i + 1);
    assert(single =~= Seq::<Seq<u8>>::empty().push(s[i]));
    vstd::multiset::lemma_multiset_empty_len(Seq::<Seq<u8>>::empty().to_multiset());
    assert(Seq::<Seq<u8>>::empty().to_multiset() =~= Multiset::<Seq<u8>>::empty());
}

proof fn lemma_permuted_lens(old_s: Seq<Vec<u8>>, new_s: Seq<Vec<u8>>, lo: int, hi: int, k: int)
    requires
        0 <= lo <= hi <= old_s.len(),
        new_s.len() == old_s.len(),
        forall|m: int| lo <= m < hi ==> old_s[m]@.len() == k,
        forall|m: int|
            lo <= m < hi ==> old_s.subrange(lo, hi).map_values(|p: Vec<u8>| p@).contains(
                new_s[m]@,
            ),
    ensures
        forall|m: int| lo <= m < hi ==> new_s[m]@.len() == k,
{
    assert forall|m: int| lo <= m < hi implies new_s[m]@.len() == k by {
        let mapped = old_s.subrange(lo, hi).map_values(|p: Vec<u8>| p@);
        let idx = choose|idx: int| 0 <= idx < mapped.len() && mapped[idx] == new_s[m]@;
        assert(mapped[idx] == old_s[lo + idx]@);
    }
}

proof fn lemma_assemble_split(
    t: SpatialTree,
    v_in: Seq<Vec<u8>>,
    v_sorted: Seq<Vec<u8>>,
    v_b: Seq<Vec<u8>>,
    lo: int,
    mid: int,
    hi: int,
    old_len: int,
    current_dim: int,
)
    requires
        t.build_inv(),
        0 <= lo < mid,
        mid + 1 < hi <= v_sorted.len(),
        v_in.len() == v_sorted.len(),
        v_b.len() == v_sorted.len(),
        0 <= old_len,
        old_len + (hi - lo) == t.nodes@.len(),
        old_len + (hi - lo) <= usize::MAX,
        0 <= current_dim < t.k,
        t.nodes@[old_len].left == Option::Some((old_len + 1) as usize),
        t.nodes@[old_len].right == Option::Some((old_len + 1 + (mid - lo)) as usize),
        t.nodes@[old_len].point@ == v_sorted[mid]@,
        t.subtree_points(old_len + 1) == pts_ms(v_sorted.subrange(lo, mid)),
        t.subtree_points(old_len + 1 + (mid - lo)) == pts_ms(v_b.subrange(mid + 1, hi)),
        t.partitioned(old_len + 1, t.next_dim_spec(current_dim)),
        t.partitioned(old_len + 1 + (mid - lo), t.next_dim_spec(current_dim)),
        sorted_range_by_coord(v_sorted, lo, hi, current_dim),
        v_b.subrange(mid + 1, hi) =~= v_sorted.subrange(mid + 1, hi),
        pts_ms(v_sorted.subrange(lo, hi)) == pts_ms(v_in.subrange(lo, hi)),
    ensures
        t.subtree_points(old_len) == pts_ms(v_in.subrange(lo, hi)),
        t.partitioned(old_len, current_dim),
{
    broadcast use vstd::multiset::group_multiset_axioms;

    let ridx = old_len + 1 + (mid - lo);
    let m1 = pts_ms(v_sorted.subrange(lo, mid));
    let m2 = pts_ms(v_b.subrange(mid + 1, hi));
    let s1 = Multiset::<Seq<u8>>::empty().insert(v_sorted[mid]@);
    let pv = pts_seq(v_sorted);
    lemma_ms_split(pv, lo, mid, hi);
    lemma_ms_split(pv, mid, mid + 1, hi);
    lemma_ms_single(pv, mid);
    assert(pv.subrange(lo, hi) =~= pts_seq(v_sorted.subrange(lo, hi)));
    assert(pv.subrange(lo, mid) =~= pts_seq(v_sorted.subrange(lo, mid)));
    assert(pv.subrange(mid + 1, hi) =~= pts_seq(v_sorted.subrange(mid + 1, hi)));
    assert(pts_seq(v_b.subrange(mid + 1, hi)) =~= pts_seq(v_sorted.subrange(mid + 1, hi)));
    assert(pts_ms(v_sorted.subrange(lo, hi)) == m1.add(s1.add(m2)));
    assert(t.subtree_points(old_len) == s1.add(m1).add(m2));
    assert(t.subtree_points(old_len) =~= pts_ms(v_in.subrange(lo, hi)));
    assert forall|p: Seq<u8>| #[trigger] t.subtree_points(old_len + 1).contains(p)
        implies p[current_dim] <= t.nodes@[old_len].point@[current_dim] by {
        broadcast use vstd::seq_lib::to_multiset_contains;

        let sseq = pts_seq(v_sorted.subrange(lo, mid));
        assert(sseq.to_multiset().contains(p));
        assert(sseq.contains(p));
        let jj = choose|jj: int| 0 <= jj < sseq.len() && sseq[jj] == p;
        assert(sseq[jj] == v_sorted[lo + jj]@);
        assert(v_sorted[lo + jj]@[current_dim] <= v_sorted[mid]@[current_dim]);
    }
    assert forall|p: Seq<u8>| #[trigger] t.subtree_points(ridx).contains(p)
        implies p[current_dim] >= t.nodes@[old_len].point@[current_dim] by {
        broadcast use vstd::seq_lib::to_multiset_contains;

        let sseq = pts_seq(v_sorted.subrange(mid + 1, hi));
        assert(sseq.to_multiset().contains(p));
        assert(sseq.contains(p));
        let jj = choose|jj: int| 0 <= jj < sseq.len() && sseq[jj] == p;
        assert(sseq[jj] == v_sorted[mid + 1 + jj]@);
        assert(v_sorted[mid]@[current_dim] <= v_sorted[mid + 1 + jj]@[current_dim]);
    }
    assert(t.partitioned(old_len, current_dim));
}

/// Builds the subtree for the points of `v` in `[lo, hi)` under the node at
/// `parent` -- or as the arena's root, when there is no parent -- splitting
/// along `current_dim`: a single point
/// becomes one child; a pair, sorted by the coordinate, becomes a two-node
/// chain with the larger on top; three or more points are sorted, their
/// median becomes the child, and both halves recurse under it along the next
/// coordinate. Returns the index of the new child, or `None` for an empty
/// subrange. The new nodes occupy the arena's tail and hold exactly the
/// points of `v[lo..hi]`.
#[verifier::rlimit(100)]
pub fn construct_kd_tree_recursive(
    v: &mut Vec<Vec<u8>>,
    lo: usize,
    hi: usize,
    tree: &mut SpatialTree,
    parent: Option<usize>,
    current_dim: usize,
) -> (r: Option<usize>)
    requires
        old(tree).build_inv(),
        lo <= hi <= old(v)@.len(),
        match parent {
            Option::Some(p) => p < old(tree).nodes@.len(),
            Option::None => old(tree).nodes@.len() == 0,
        },
        current_dim < old(tree).k,
        forall|m: int| lo <= m < hi ==> old(v)@[m]@.len() == old(tree).k,
        old(tree).nodes@.len() + (hi - lo) <= usize::MAX,
    ensures
        final(tree).k == old(tree).k,
        final(tree).build_inv(),
        final(tree).nodes@.len() == old(tree).nodes@.len() + (hi - lo),
        forall|m: int|
            0 <= m < old(tree).nodes@.len() ==> final(tree).nodes@[m] == old(tree).nodes@[m],
        lo == hi ==> r is None,
        lo < hi ==> r == Option::<usize>::Some(old(tree).nodes@.len() as usize),
        lo < hi ==> final(tree).nodes@[old(tree).nodes@.len() as int].parent == parent,
        forall|j: int|
            old(tree).nodes@.len() < j < final(tree).nodes@.len()
                ==> final(tree).interior_linked(j, old(tree).nodes@.len() as int),
        final(tree).range_points_ms(
            old(tree).nodes@.len() as int,
            final(tree).nodes@.len() as int,
        ) == pts_ms(old(v)@.subrange(lo as int, hi as int)),
        forall|j: int|
            old(tree).nodes@.len() <= j < final(tree).nodes@.len()
                ==> final(tree).children_in_range(
                j,
                old(tree).nodes@.len() as int,
                final(tree).nodes@.len() as int,
            ),
        lo < hi ==> final(tree).subtree_points(old(tree).nodes@.len() as int) == pts_ms(
            old(v)@.subrange(lo as int, hi as int),
        ),
        lo < hi ==> final(tree).partitioned(old(tree).nodes@.len() as int, current_dim as int),
        final(v)@.len() == old(v)@.len(),
        forall|m: int| 0 <= m < old(v)@.len() && !(lo <= m < hi) ==> final(v)@[m] == old(v)@[m],
        forall|m: int| lo <= m < hi ==> final(v)@[m]@.len() == old(tree).k,
        pts_ms(final(v)@.subrange(lo as int, hi as int)) == pts_ms(
            old(v)@.subrange(lo as int, hi as int),
        ),
    decreases hi - lo,
{
    let ghost old_len = tree.nodes@.len() as int;
    let ghost k = tree.k as int;
    if hi == lo {
        proof {
            broadcast use vstd::multiset::group_multiset_axioms;
            broadcast use vstd::seq_lib::group_to_multiset_ensures;

            assert(tree.point_seq().subrange(old_len, old_len) =~= Seq::<Seq<u8>>::empty());
            vstd::multiset::lemma_multiset_empty_len(
                Seq::<Seq<u8>>::empty().to_multiset(),
            );
            assert(old(v)@.subrange(lo as int, hi as int) =~= Seq::<Vec<u8>>::empty());
            assert(pts_seq(Seq::<Vec<u8>>::empty()) =~= Seq::<Seq<u8>>::empty());
            assert(Seq::<Seq<u8>>::empty().to_multiset() =~= Multiset::<Seq<u8>>::empty());
        }
        return None;
    }
    if hi - lo == 1 {
        let idx = tree.nodes.len();
        let p = copy_point(&v[lo]);
        tree.nodes.push(TreeNode { point: p, parent, left: None, right: None });
        proof {
            assert forall|i: int| 0 <= i < tree.nodes@.len() implies tree.node_ok(i) by {
                if i < old_len {
                    assert(old(tree).node_ok(i));
                }
            }
            assert(tree.point_seq().subrange(old_len, old_len + 1) =~= Seq::<Seq<
                u8,
            >>::empty().push(v@[lo as int]@));
            assert(pts_seq(old(v)@.subrange(lo as int, hi as int)) =~= Seq::<Seq<
                u8,
            >>::empty().push(v@[lo as int]@));
            broadcast use vstd::multiset::group_multiset_axioms;
            broadcast use vstd::seq_lib::group_to_multiset_ensures;

            assert(Seq::<Seq<u8>>::empty().to_multiset() =~= Multiset::<Seq<u8>>::empty());
            assert(tree.subtree_points(old_len) =~= pts_ms(
                old(v)@.subrange(lo as int, hi as int),
            ));
            assert(tree.partitioned(old_len, current_dim as int));
        }
        return Some(idx);
    }
    if hi - lo == 2 {
        let ghost v_in = v@;
        sort_range_by_coord(v, lo, hi, current_dim);
        proof {
            lemma_permuted_lens(v_in, v@, lo as int, hi as int, k);
        }
        let idx = tree.nodes.len();
        let big = copy_point(&v[lo + 1]);
        let small = copy_point(&v[lo]);
        tree.nodes.push(TreeNode { point: big, parent, left: Some(idx + 1), right: None });
        tree.nodes.push(TreeNode { point: small, parent: Some(idx), left: None, right: None });
        proof {
            assert forall|i: int| 0 <= i < tree.nodes@.len() implies tree.node_ok(i) by {
                if i < old_len {
                    assert(old(tree).node_ok(i));
                }
            }
            broadcast use vstd::multiset::group_multiset_axioms;
            broadcast use vstd::seq_lib::group_to_multiset_ensures;

            assert(tree.point_seq().subrange(old_len, old_len + 2) =~= Seq::<Seq<
                u8,
            >>::empty().push(v@[lo + 1]@).push(v@[lo as int]@));
            assert(pts_seq(v@.subrange(lo as int, hi as int)) =~= Seq::<Seq<
                u8,
            >>::empty().push(v@[lo as int]@).push(v@[lo + 1]@));
            assert(Seq::<Seq<u8>>::empty().to_multiset() =~= Multiset::<Seq<u8>>::empty());
            assert(tree.range_points_ms(old_len, old_len + 2) =~= pts_ms(
                v@.subrange(lo as int, hi as int),
            ));
            assert(tree.subtree_points(old_len + 1) =~= Multiset::<Seq<u8>>::empty().insert(
                v@[lo as int]@,
            ));
            assert(tree.subtree_points(old_len) =~= pts_ms(v@.subrange(lo as int, hi as int)));
            assert(tree.partitioned(old_len + 1, tree.next_dim_spec(current_dim as int)));
            assert(tree.partitioned(old_len, current_dim as int));
        }
        return Some(idx);
    }
    let ghost v_in = v@;
    sort_range_by_coord(v, lo, hi, current_dim);
    proof {
        lemma_permuted_lens(v_in, v@, lo as int, hi as int, k);
    }
    let ghost v_sorted = v@;
    let idx = tree.nodes.len();
    let mid = lo + (hi - lo) / 2;
    let p = copy_point(&v[mid]);
    tree.nodes.push(TreeNode { point: p, parent, left: None, right: None });
    proof {
        assert forall|i: int| 0 <= i < tree.nodes@.len() implies tree.node_ok(i) by {
            if i < old_len {
                assert(old(tree).node_ok(i));
            }
        }
    }
    let next_d = if current_dim + 1 == tree.k {
        0
    } else {
        current_dim + 1
    };
    let lc = construct_kd_tree_recursive(v, lo, mid, tree, Some(idx), next_d);
    let ghost tree_b = *tree;
    let ghost v_b = v@;
    set_left_child(tree, idx, lc);
    proof {
        assert forall|i: int| 0 <= i < tree.nodes@.len() implies tree.node_ok(i) by {
            if i != idx {
                assert(tree_b.node_ok(i));
            } else {
                assert(tree_b.node_ok(i));
                assert(tree.nodes@[idx as int].left == Option::Some((idx + 1) as usize));
                assert(tree_b.nodes@[idx + 1].parent == Option::Some(idx as usize));
            }
        }
    }
    let rc = construct_kd_tree_recursive(v, mid + 1, hi, tree, Some(idx), next_d);
    let ghost tree_d = *tree;
    set_right_child(tree, idx, rc);
    proof {
        let ridx = old_len + 1 + (mid - lo);
        let end = old_len + (hi - lo);
        assert forall|i: int| 0 <= i < tree.nodes@.len() implies tree.node_ok(i) by {
            if i != idx {
                assert(tree_d.node_ok(i));
            } else {
                assert(tree_d.node_ok(i));
                assert(tree.nodes@[idx as int].right == Option::Some(ridx as usize));
                assert(tree_d.nodes@[ridx].parent == Option::Some(idx as usize));
            }
        }
        // up-links of the two subtrees survive the later writes to `idx`
        assert forall|j: int| old_len < j < tree.nodes@.len() implies tree.interior_linked(
            j,
            old_len,
        ) by {
            if j == old_len + 1 {
                assert(tree.nodes@[idx as int].left == Option::Some((idx + 1) as usize));
            } else if old_len + 1 < j < ridx {
                assert(tree_b.interior_linked(j, old_len + 1));
            } else if j == ridx {
                assert(tree.nodes@[idx as int].right == Option::Some(ridx as usize));
            } else {
                assert(tree_d.interior_linked(j, ridx));
            }
        }
        // children of every new node stay inside the freshly built range
        assert forall|j: int| old_len <= j < end implies tree.children_in_range(
            j,
            old_len,
            end,
        ) by {
            if j == old_len {
                assert(tree.nodes@[j].left == Option::Some((idx + 1) as usize));
                assert(tree.nodes@[j].right == Option::Some(ridx as usize));
            } else if old_len + 1 <= j < ridx {
                assert(tree.nodes@[j] == tree_b.nodes@[j]);
                assert(tree_b.children_in_range(j, old_len + 1, ridx));
            } else {
                assert(tree.nodes@[j] == tree_d.nodes@[j]);
                assert(tree_d.children_in_range(j, ridx, end));
            }
        }
        // the new range holds exactly the points of v[lo..hi]
        assert(tree.range_points_ms(old_len, end) == pts_ms(
            v_in.subrange(lo as int, hi as int),
        )) by {
            broadcast use vstd::multiset::group_multiset_axioms;

            let ps = tree.point_seq();
            let m1 = pts_ms(v_sorted.subrange(lo as int, mid as int));
            let m2 = pts_ms(v_b.subrange(mid + 1, hi as int));
            let s1 = Multiset::<Seq<u8>>::empty().insert(v_sorted[mid as int]@);
            lemma_ms_split(ps, old_len, old_len + 1, end);
            lemma_ms_split(ps, old_len + 1, ridx, end);
            lemma_ms_single(ps, old_len);
            assert(ps[old_len] == v_sorted[mid as int]@);
            assert(ps.subrange(old_len + 1, ridx) =~= tree_b.point_seq().subrange(
                old_len + 1,
                ridx,
            ));
            assert(ps.subrange(ridx, end) =~= tree_d.point_seq().subrange(ridx, end));
            assert(tree.range_points_ms(old_len, end) == s1.add(m1.add(m2)));
            let pv = pts_seq(v_sorted);
            lemma_ms_split(pv, lo as int, mid as int, hi as int);
            lemma_ms_split(pv, mid as int, mid + 1, hi as int);
            lemma_ms_single(pv, mid as int);
            assert(pv.subrange(lo as int, hi as int) =~= pts_seq(
                v_sorted.subrange(lo as int, hi as int),
            ));
            assert(pv.subrange(lo as int, mid as int) =~= pts_seq(
                v_sorted.subrange(lo as int, mid as int),
            ));
            assert(pv.subrange(mid + 1, hi as int) =~= pts_seq(
                v_sorted.subrange(mid + 1, hi as int),
            ));
            assert(v_b.subrange(mid + 1, hi as int) =~= v_sorted.subrange(mid + 1, hi as int));
            assert(pts_ms(v_sorted.subrange(lo as int, hi as int)) == m1.add(s1.add(m2)));
            assert(tree.range_points_ms(old_len, end) =~= pts_ms(
                v_in.subrange(lo as int, hi as int),
            ));
        }
        // the list as the recursion leaves it still holds the same points
        assert(pts_ms(v@.subrange(lo as int, hi as int)) == pts_ms(
            v_in.subrange(lo as int, hi as int),
        )) by {
            broadcast use vstd::multiset::group_multiset_axioms;

            let vs = v@;
            let m1 = pts_ms(v_sorted.subrange(lo as int, mid as int));
            let m2 = pts_ms(v_b.subrange(mid + 1, hi as int));
            let s1 = Multiset::<Seq<u8>>::empty().insert(v_sorted[mid as int]@);
            let pv = pts_seq(v_sorted);
            lemma_ms_split(pv, lo as int, mid as int, hi as int);
            lemma_ms_split(pv, mid as int, mid + 1, hi as int);
            lemma_ms_single(pv, mid as int);
            assert(pv.subrange(lo as int, hi as int) =~= pts_seq(
                v_sorted.subrange(lo as int, hi as int),
            ));
            assert(pv.subrange(lo as int, mid as int) =~= pts_seq(
                v_sorted.subrange(lo as int, mid as int),
            ));
            assert(pv.subrange(mid + 1, hi as int) =~= pts_seq(
                v_sorted.subrange(mid + 1, hi as int),
            ));
            assert(v_b.subrange(mid + 1, hi as int) =~= v_sorted.subrange(mid + 1, hi as int));
            assert(pts_ms(v_sorted.subrange(lo as int, hi as int)) == m1.add(s1.add(m2)));
            let pw = pts_seq(vs);
            lemma_ms_split(pw, lo as int, mid as int, hi as int);
            lemma_ms_split(pw, mid as int, mid + 1, hi as int);
            lemma_ms_single(pw, mid as int);
            assert(pw.subrange(lo as int, hi as int) =~= pts_seq(
                vs.subrange(lo as int, hi as int),
            ));
            assert(pw.subrange(lo as int, mid as int) =~= pts_seq(
                vs.subrange(lo as int, mid as int),
            ));
            assert(pw.subrange(mid + 1, hi as int) =~= pts_seq(
                vs.subrange(mid + 1, hi as int),
            ));
            assert(vs.subrange(lo as int, mid as int) =~= v_b.subrange(lo as int, mid as int));
            assert(vs[mid as int]@ == v_sorted[mid as int]@);
            assert(pts_ms(vs.subrange(lo as int, hi as int)) == m1.add(s1.add(m2)));
            assert(pts_ms(vs.subrange(lo as int, hi as int)) =~= pts_ms(
                v_in.subrange(lo as int, hi as int),
            ));
        }
        // the median's subtree: both halves framed in, then assembled
        assert(tree.subtree_points(old_len) == pts_ms(v_in.subrange(lo as int, hi as int))
            && tree.partitioned(old_len, current_dim as int)) by {
            let ndg = tree.next_dim_spec(current_dim as int);
            assert(next_d as int == ndg);
            assert forall|j: int| old_len + 1 <= j < ridx implies tree.nodes@[j]
                == tree_b.nodes@[j] by {}
            assert forall|j: int| ridx <= j < end implies tree.nodes@[j]
                == tree_d.nodes@[j] by {}
            lemma_subtree_frame(tree_b, *tree, old_len + 1, ridx, old_len + 1, ndg);
            lemma_subtree_frame(tree_d, *tree, ridx, end, ridx, ndg);
            assert(tree.subtree_points(old_len + 1) == pts_ms(
                v_sorted.subrange(lo as int, mid as int),
            ));
            assert(tree.subtree_points(ridx) == pts_ms(v_b.subrange(mid + 1, hi as int)));
            assert(tree.partitioned(old_len + 1, ndg));
            assert(tree.partitioned(ridx, ndg));
            lemma_assemble_split(
                *tree,
                v_in,
                v_sorted,
                v_b,
                lo as int,
                mid as int,
                hi as int,
                old_len,
                current_dim as int,
            );
        }
    }
    Some(idx)
}

/// Builds the spatial partition tree from a non-empty list of points, each
/// with exactly `dimension` coordinates. The list is sorted by coordinate 0
/// and its median becomes the root; both halves are built under the root
/// along the next coordinate. The finished tree is well-formed and holds exactly
/// the points supplied, and the list itself is only permuted. An empty list
/// or a point of the wrong dimensionality is rejected with the matching
/// error and the list is left untouched.
pub fn construct_kd_tree(v: &mut Vec<Vec<u8>>, dimension: usize) -> (r: Result<
    SpatialTree,
    KdError,
>)
    requires
        1 <= dimension <= 65535,
    ensures
        match r {
            Result::Ok(t) => {
                &&& old(v)@.len() > 0
                &&& forall|i: int| 0 <= i < old(v)@.len() ==> old(v)@[i]@.len() == dimension
                &&& t.wf()
                &&& t.k == dimension
                &&& t.nodes@.len() == old(v)@.len()
                &&& t.points_multiset() == pts_ms(old(v)@)
                &&& t.subtree_points(0) == pts_ms(old(v)@)
                &&& t.partitioned(0, 0)
                &&& final(v)@.len() == old(v)@.len()
                &&& pts_ms(final(v)@) == pts_ms(old(v)@)
            },
            Result::Err(KdError::EmptyPalette) => old(v)@.len() == 0 && final(v)@ == old(v)@,
            Result::Err(KdError::DimensionMismatch) => {
                &&& old(v)@.len() > 0
                &&& exists|i: int| 0 <= i < old(v)@.len() && old(v)@[i]@.len() != dimension
                &&& final(v)@ == old(v)@
            },
        },
{
    if v.len() == 0 {
        return Err(KdError::EmptyPalette);
    }
    let mut i: usize = 0;
    while i < v.len()
        invariant
            i <= v@.len(),
            v@ == old(v)@,
            forall|j: int| 0 <= j < i ==> v@[j]@.len() == dimension,
        decreases v@.len() - i,
    {
        if v[i].len() != dimension {
            return Err(KdError::DimensionMismatch);
        }
        i = i + 1;
    }
    let n = v.len();
    let mut tree = SpatialTree { nodes: Vec::new(), k: dimension };
    let rt = construct_kd_tree_recursive(v, 0, n, &mut tree, None, 0);
    proof {
        assert(rt == Option::Some(0usize));
        assert forall|j: int| 0 <= j < tree.nodes@.len() implies tree.up_linked(j) by {
            if j == 0 {
                assert(tree.nodes@[0].parent is None);
            } else {
                assert(tree.interior_linked(j, 0));
            }
        }
        assert(tree.point_seq().subrange(0, n as int) =~= tree.point_seq());
        assert(old(v)@.subrange(0, n as int) =~= old(v)@);
        assert(v@.subrange(0, n as int) =~= v@);
    }
    Ok(tree)
}

impl SpatialTree {
    /// The coordinate index used one level deeper than `dim`, rotating
    /// through `0..k`.
    pub open spec fn next_dim_spec(self, dim: int) -> int {
        if dim + 1 == self.k {
            0
        } else {
            dim + 1
        }
    }

    /// The node the nearest-neighbor search settles on when started at
    /// `node` with active dimension `dim`: descend toward the query --
    /// through a lone child, or at a full node toward the side of the
    /// splitting plane the query lies on -- take the best of the subtree's
    /// answer and the node itself, and look into the other child only when
    /// the splitting plane is closer to the query than the best candidate
    /// found so far.
    pub open spec fn search_spec(self, q: Seq<u8>, node: int, dim: int) -> int
        decreases self.nodes@.len() - node
            when self.wf() && 0 <= node < self.nodes@.len() && 0 <= dim < self.k
            via Self::search_spec_decreases
    {
        let n = self.nodes@[node];
        match (n.left, n.right) {
            (Option::None, _) => node,
            (Option::Some(l), Option::None) => {
                let sub = self.search_spec(q, l as int, self.next_dim_spec(dim));
                if dist_sq_spec(q, n.point@) < dist_sq_spec(q, self.nodes@[sub].point@) {
                    node
                } else {
                    sub
                }
            },
            (Option::Some(l), Option::Some(rr)) => {
                let first = if q[dim] < n.point@[dim] {
                    l as int
                } else {
                    rr as int
                };
                let sib = if q[dim] < n.point@[dim] {
                    rr as int
                } else {
                    l as int
                };
                let sub = self.search_spec(q, first, self.next_dim_spec(dim));
                let best1 = if dist_sq_spec(q, n.point@) < dist_sq_spec(
                    q,
                    self.nodes@[sub].point@,
                ) {
                    node
                } else {
                    sub
                };
                if sq(q[dim] - n.point@[dim]) < dist_sq_spec(q, self.nodes@[best1].point@) {
                    let sb = self.search_spec(q, sib, self.next_dim_spec(dim));
                    if dist_sq_spec(q, self.nodes@[sb].point@) < dist_sq_spec(
                        q,
                        self.nodes@[best1].point@,
                    ) {
                        sb
                    } else {
                        best1
                    }
                } else {
                    best1
                }
            },
        }
    }

    #[via_fn]
    proof fn search_spec_decreases(self, q: Seq<u8>, node: int, dim: int) {
        if self.wf() && 0 <= node < self.nodes@.len() && 0 <= dim < self.k {
            assert(self.node_ok(node));
        }
    }

    /// The search result is always the index of a node of the tree, at or
    /// below the subtree root it started from.
    pub proof fn lemma_search_spec_in_range(self, q: Seq<u8>, node: int, dim: int)
        requires
            self.wf(),
            0 <= node < self.nodes@.len(),
            0 <= dim < self.k,
        ensures
            node <= self.search_spec(q, node, dim) < self.nodes@.len(),
        decreases self.nodes@.len() - node,
    {
        assert(self.node_ok(node));
        let n = self.nodes@[node];
        match (n.left, n.right) {
            (Option::None, _) => {},
            (Option::Some(l), Option::None) => {
                self.lemma_search_spec_in_range(q, l as int, self.next_dim_spec(dim));
            },
            (Option::Some(l), Option::Some(rr)) => {
                let first = if q[dim] < n.point@[dim] {
                    l as int
                } else {
                    rr as int
                };
                let sib = if q[dim] < n.point@[dim] {
                    rr as int
                } else {
                    l as int
                };
                self.lemma_search_spec_in_range(q, first, self.next_dim_spec(dim));
                self.lemma_search_spec_in_range(q, sib, self.next_dim_spec(dim));
            },
        }
    }
}

fn search(q: &Vec<u8>, tree: &SpatialTree, node: usize, dim: usize, counter: &mut DistCounter)
    -> (r: (usize, u32))
    requires
        tree.wf(),
        node < tree.nodes@.len(),
        dim < tree.k,
        q@.len() == tree.k,
    ensures
        r.0 == tree.search_spec(q@, node as int, dim as int),
        r.0 < tree.nodes@.len(),
        r.1 == dist_sq_spec(q@, tree.nodes@[r.0 as int].point@),
        final(counter).calls >= old(counter).calls,
    decreases tree.nodes@.len() - node,
{
    proof {
        assert(tree.node_ok(node as int));
    }
    let n_left = tree.nodes[node].left;
    let n_right = tree.nodes[node].right;
    match (n_left, n_right) {
        (None, _) => {
            let d = dist_sq(q, &tree.nodes[node].point, counter);
            (node, d)
        },
        (Some(l), None) => {
            let nd = if dim + 1 == tree.k {
                0
            } else {
                dim + 1
            };
            let (sub, sub_d) = search(q, tree, l, nd, counter);
            let ndist = dist_sq(q, &tree.nodes[node].point, counter);
            if ndist < sub_d {
                (node, ndist)
            } else {
                (sub, sub_d)
            }
        },
        (Some(l), Some(rr)) => {
            let nd = if dim + 1 == tree.k {
                0
            } else {
                dim + 1
            };
            let go_low = q[dim] < tree.nodes[node].point[dim];
            let first = if go_low {
                l
            } else {
                rr
            };
            let sib = if go_low {
                rr
            } else {
                l
            };
            let (sub, sub_d) = search(q, tree, first, nd, counter);
            let ndist = dist_sq(q, &tree.nodes[node].point, counter);
            let mut best: usize = sub;
            let mut best_d: u32 = sub_d;
            if ndist < sub_d {
                best = node;
                best_d = ndist;
            }
            let diff: i32 = q[dim] as i32 - tree.nodes[node].point[dim] as i32;
            proof {
                lemma_sq_bound(q@[dim as int] - tree.nodes@[node as int].point@[dim as int]);
            }
            let ghost qc = q@[dim as int];
            let ghost nc = tree.nodes@[node as int].point@[dim as int];
            assert(diff * diff == sq(qc - nc)) by (nonlinear_arith)
                requires
                    diff == qc - nc,
            ;
            let plane_sq: u32 = (diff * diff) as u32;
            if plane_sq < best_d {
                let (sb, _sd) = search(q, tree, sib, nd, counter);
                let sb_d = dist_sq(q, &tree.nodes[sb].point, counter);
                if sb_d < best_d {
                    best = sb;
                    best_d = sb_d;
                }
            }
            (best, best_d)
        },
    }
}

/// Answers a nearest-neighbor query: the index of the palette point in the
/// tree closest to `q` (by squared Euclidean distance, ties resolved by the
/// search order), together with that squared distance. The search starts at
/// `root_node` with active dimension 0. A query point or a stated dimension
/// count that does not agree with the tree's is rejected.
pub fn query_nearest_neighbor(
    q: &Vec<u8>,
    kd_tree: &SpatialTree,
    max_dimension: usize,
    root_node: usize,
    counter: &mut DistCounter,
) -> (r: Result<(usize, u32), KdError>)
    requires
        kd_tree.wf(),
        root_node < kd_tree.nodes@.len(),
    ensures
        match r {
            Result::Ok(p) => {
                &&& q@.len() == kd_tree.k
                &&& max_dimension == kd_tree.k
                &&& p.0 == kd_tree.search_spec(q@, root_node as int, 0)
                &&& p.0 < kd_tree.nodes@.len()
                &&& p.1 == dist_sq_spec(q@, kd_tree.nodes@[p.0 as int].point@)
            },
            Result::Err(e) => {
                &&& e == KdError::DimensionMismatch
                &&& (q@.len() != kd_tree.k || max_dimension != kd_tree.k)
            },
        },
        final(counter).calls >= old(counter).calls,
{
    if q.len() != kd_tree.k || max_dimension != kd_tree.k {
        return Err(KdError::DimensionMismatch);
    }
    let rr = search(q, kd_tree, root_node, 0, counter);
    Ok(rr)
}

/// Closure: when a tree holds exactly the points of a palette, the point the
/// search settles on is a member of that palette, whatever the query.
pub proof fn lemma_result_in_palette(
    t: SpatialTree,
    q: Seq<u8>,
    palette: Seq<Seq<u8>>,
    root: int,
    dim: int,
)
    requires
        t.wf(),
        t.points_multiset() == palette.to_multiset(),
        0 <= root < t.nodes@.len(),
        0 <= dim < t.k,
    ensures
        palette.contains(t.nodes@[t.search_spec(q, root, dim)].point@),
{
    broadcast use vstd::seq_lib::to_multiset_contains;

    t.lemma_search_spec_in_range(q, root, dim);
    let i = t.search_spec(q, root, dim);
    assert(t.point_seq()[i] == t.nodes@[i].point@);
    assert(t.point_seq().contains(t.nodes@[i].point@));
    assert(t.points_multiset().contains(t.nodes@[i].point@));
}

/// Determinism: any two answers that meet the query contract for the same
/// tree, the same subtree root and the same query point are the same node at
/// the same distance.
pub proof fn lemma_query_deterministic(
    t: SpatialTree,
    q: Seq<u8>,
    root: int,
    r1: (usize, u32),
    r2: (usize, u32),
)
    requires
        r1.0 == t.search_spec(q, root, 0),
        r1.1 == dist_sq_spec(q, t.nodes@[r1.0 as int].point@),
        r2.0 == t.search_spec(q, root, 0),
        r2.1 == dist_sq_spec(q, t.nodes@[r2.0 as int].point@),
    ensures
        r1 == r2,
{
}

/// A tree of exactly one node answers every query with that node.
pub proof fn lemma_singleton_tree(t: SpatialTree, q: Seq<u8>, dim: int)
    requires
        t.wf(),
        t.nodes@.len() == 1,
        0 <= dim < t.k,
    ensures
        t.search_spec(q, 0, dim) == 0,
{
    assert(t.node_ok(0));
}

impl SpatialTree {
    /// The index of the root node.
    pub fn root(&self) -> (r: usize)
        ensures
            r == 0,
    {
        0
    }

    /// The point held by the node at `i`.
    pub fn point_of(&self, i: usize) -> (r: &Vec<u8>)
        requires
            i < self.nodes@.len(),
        ensures
            r@ == self.nodes@[i as int].point@,
    {
        &self.nodes[i].point
    }

    /// The parent of the node at `i`, if it has one.
    pub fn parent_of(&self, i: usize) -> (r: Option<usize>)
        requires
            i < self.nodes@.len(),
        ensures
            r == self.nodes@[i as int].parent,
    {
        self.nodes[i].parent
    }

    /// The ordered children of the node at `i`: the low child first.
    pub fn children_of(&self, i: usize) -> (r: (Option<usize>, Option<usize>))
        requires
            i < self.nodes@.len(),
        ensures
            r.0 == self.nodes@[i as int].left,
            r.1 == self.nodes@[i as int].right,
    {
        (self.nodes[i].left, self.nodes[i].right)
    }

    /// The sibling of the node at `i`: the other child of its parent, if
    /// both exist.
    pub fn sibling_of(&self, i: usize) -> (r: Option<usize>)
        requires
            self.wf(),
            i < self.nodes@.len(),
        ensures
            match self.nodes@[i as int].parent {
                Option::None => r is None,
                Option::Some(p) => r == if self.nodes@[p as int].left == Option::Some(i) {
                    self.nodes@[p as int].right
                } else {
                    self.nodes@[p as int].left
                },
            },
    {
        proof {
            assert(self.node_ok(i as int));
        }
        match self.nodes[i].parent {
            None => None,
            Some(p) => {
                match self.nodes[p].left {
                    Some(l) => if l == i {
                        self.nodes[p].right
                    } else {
                        self.nodes[p].left
                    },
                    None => self.nodes[p].left,
                }
            },
        }
    }
}

proof fn lemma_sq_nonneg(x: int)
    ensures
        sq(x) >= 0,
{
    assert(x * x >= 0) by (nonlinear_arith);
}

proof fn lemma_sq_symmetric(x: int)
    ensures
        sq(x) == sq(-x),
{
    assert(x * x == (-x) * (-x)) by (nonlinear_arith);
}

proof fn lemma_sq_monotone(x: int, y: int)
    requires
        0 <= x <= y,
    ensures
        sq(x) <= sq(y),
{
    assert(x * x <= y * y) by (nonlinear_arith)
        requires
            0 <= x <= y,
    ;
}

proof fn lemma_dist_sq_upto_nonneg(a: Seq<u8>, b: Seq<u8>, n: int)
    ensures
        dist_sq_upto(a, b, n) >= 0,
    decreases n,
{
    if n > 0 {
        lemma_dist_sq_upto_nonneg(a, b, n - 1);
        lemma_sq_nonneg(a[n - 1] - b[n - 1]);
    }
}

proof fn lemma_dist_sq_upto_coord(a: Seq<u8>, b: Seq<u8>, n: int, d: int)
    requires
        0 <= d < n,
    ensures
        dist_sq_upto(a, b, n) >= sq(a[d] - b[d]),
    decreases n,
{
    if d == n - 1 {
        lemma_dist_sq_upto_nonneg(a, b, n - 1);
    } else {
        lemma_dist_sq_upto_coord(a, b, n - 1, d);
        lemma_sq_nonneg(a[n - 1] - b[n - 1]);
    }
}

/// One coordinate's squared difference never exceeds the squared distance.
pub proof fn lemma_coord_bounds_dist(a: Seq<u8>, b: Seq<u8>, d: int)
    requires
        0 <= d < shared_len(a, b),
    ensures
        dist_sq_spec(a, b) >= sq(a[d] - b[d]),
        dist_sq_spec(a, b) >= 0,
{
    lemma_dist_sq_upto_coord(a, b, shared_len(a, b), d);
    lemma_dist_sq_upto_nonneg(a, b, shared_len(a, b));
}

proof fn lemma_dist_upto_self_zero(a: Seq<u8>, n: int)
    ensures
        dist_sq_upto(a, a, n) == 0,
    decreases n,
{
    if n > 0 {
        lemma_dist_upto_self_zero(a, n - 1);
        assert(sq(0) == 0) by (nonlinear_arith);
    }
}

/// A point is at distance zero from itself.
pub proof fn lemma_dist_self_zero(a: Seq<u8>)
    ensures
        dist_sq_spec(a, a) == 0,
{
    lemma_dist_upto_self_zero(a, shared_len(a, a));
}

proof fn lemma_zero_dist_upto_eq(a: Seq<u8>, b: Seq<u8>, n: int)
    requires
        0 <= n,
        dist_sq_upto(a, b, n) == 0,
    ensures
        forall|d: int| 0 <= d < n ==> a[d] == b[d],
    decreases n,
{
    if n > 0 {
        lemma_dist_sq_upto_nonneg(a, b, n - 1);
        lemma_sq_nonneg(a[n - 1] - b[n - 1]);
        assert(sq(a[n - 1] - b[n - 1]) == 0);
        assert(a[n - 1] == b[n - 1]) by (nonlinear_arith)
            requires
                (a[n - 1] - b[n - 1]) * (a[n - 1] - b[n - 1]) == 0,
        ;
        lemma_zero_dist_upto_eq(a, b, n - 1);
    }
}

/// Two points of equal length at distance zero are the same point.
pub proof fn lemma_zero_dist_eq(a: Seq<u8>, b: Seq<u8>)
    requires
        a.len() == b.len(),
        dist_sq_spec(a, b) == 0,
    ensures
        a == b,
{
    lemma_zero_dist_upto_eq(a, b, shared_len(a, b));
    assert(a =~= b);
}

impl SpatialTree {
    /// Both children of the node at `j`, if present, lie inside `(a, b)`.
    pub open spec fn children_in_range(self, j: int, a: int, b: int) -> bool {
        &&& match self.nodes@[j].left {
            Option::None => true,
            Option::Some(l) => a < l < b,
        }
        &&& match self.nodes@[j].right {
            Option::None => true,
            Option::Some(r) => a < r < b,
        }
    }

    /// All points of the subtree rooted at `i`, as a multiset.
    pub open spec fn subtree_points(self, i: int) -> Multiset<Seq<u8>>
        decreases self.nodes@.len() - i
            when self.build_inv() && 0 <= i < self.nodes@.len()
            via Self::subtree_points_decreases
    {
        let n = self.nodes@[i];
        let base = Multiset::<Seq<u8>>::empty().insert(n.point@);
        let with_left = match n.left {
            Option::None => base,
            Option::Some(l) => base.add(self.subtree_points(l as int)),
        };
        match n.right {
            Option::None => with_left,
            Option::Some(r) => with_left.add(self.subtree_points(r as int)),
        }
    }

    #[via_fn]
    proof fn subtree_points_decreases(self, i: int) {
        if self.build_inv() && 0 <= i < self.nodes@.len() {
            assert(self.node_ok(i));
        }
    }

    /// The median-split ordering: at every node with two children, every
    /// point of the low subtree lies at or before the node's coordinate at
    /// the node's split dimension, every point of the high subtree at or
    /// after it, and the split dimension rotates as depth grows.
    pub open spec fn partitioned(self, i: int, dim: int) -> bool
        decreases self.nodes@.len() - i
            when self.build_inv() && 0 <= i < self.nodes@.len() && 0 <= dim < self.k
            via Self::partitioned_decreases
    {
        let n = self.nodes@[i];
        match (n.left, n.right) {
            (Option::None, _) => true,
            (Option::Some(l), Option::None) => self.partitioned(
                l as int,
                self.next_dim_spec(dim),
            ),
            (Option::Some(l), Option::Some(r)) => {
                &&& forall|p: Seq<u8>|
                    self.subtree_points(l as int).contains(p) ==> p[dim] <= n.point@[dim]
                &&& forall|p: Seq<u8>|
                    self.subtree_points(r as int).contains(p) ==> p[dim] >= n.point@[dim]
                &&& self.partitioned(l as int, self.next_dim_spec(dim))
                &&& self.partitioned(r as int, self.next_dim_spec(dim))
            },
        }
    }

    #[via_fn]
    proof fn partitioned_decreases(self, i: int, dim: int) {
        if self.build_inv() && 0 <= i < self.nodes@.len() && 0 <= dim < self.k {
            assert(self.node_ok(i));
        }
    }

    /// Every point of a subtree has the tree's dimensionality.
    pub proof fn lemma_subtree_points_len(self, i: int)
        requires
            self.build_inv(),
            0 <= i < self.nodes@.len(),
        ensures
            forall|p: Seq<u8>| self.subtree_points(i).contains(p) ==> p.len() == self.k,
        decreases self.nodes@.len() - i,
    {
        broadcast use vstd::multiset::group_multiset_axioms;

        assert(self.node_ok(i));
        let n = self.nodes@[i];
        match n.left {
            Option::None => {},
            Option::Some(l) => {
                self.lemma_subtree_points_len(l as int);
            },
        }
        match n.right {
            Option::None => {},
            Option::Some(r) => {
                self.lemma_subtree_points_len(r as int);
            },
        }
    }
}

proof fn lemma_subtree_frame(t1: SpatialTree, t2: SpatialTree, a: int, b: int, i: int, dim: int)
    requires
        t1.build_inv(),
        t2.build_inv(),
        t1.k == t2.k,
        0 <= a <= i < b <= t1.nodes@.len(),
        b <= t2.nodes@.len(),
        forall|j: int| a <= j < b ==> t1.nodes@[j] == t2.nodes@[j],
        forall|j: int| a <= j < b ==> t1.children_in_range(j, a, b),
        0 <= dim < t1.k,
    ensures
        t1.subtree_points(i) == t2.subtree_points(i),
        t1.partitioned(i, dim) == t2.partitioned(i, dim),
    decreases t1.nodes@.len() - i,
{
    assert(t1.node_ok(i));
    assert(t1.children_in_range(i, a, b));
    let n = t1.nodes@[i];
    let nd = t1.next_dim_spec(dim);
    match n.left {
        Option::None => {},
        Option::Some(l) => {
            lemma_subtree_frame(t1, t2, a, b, l as int, nd);
        },
    }
    match n.right {
        Option::None => {},
        Option::Some(r) => {
            lemma_subtree_frame(t1, t2, a, b, r as int, nd);
        },
    }
}

/// A squared distance is never negative.
pub proof fn lemma_dist_nonneg(a: Seq<u8>, b: Seq<u8>)
    ensures
        dist_sq_spec(a, b) >= 0,
{
    lemma_dist_sq_upto_nonneg(a, b, shared_len(a, b));
}

/// The search never misses: started at any node, with the dimension the
/// node was split on, its answer lies in that node's subtree and its
/// squared distance to the query is least over every point of the subtree.
pub proof fn lemma_search_is_nearest(t: SpatialTree, q: Seq<u8>, node: int, dim: int)
    requires
        t.wf(),
        0 <= node < t.nodes@.len(),
        0 <= dim < t.k,
        t.partitioned(node, dim),
        q.len() == t.k,
    ensures
        t.subtree_points(node).contains(t.nodes@[t.search_spec(q, node, dim)].point@),
        forall|p: Seq<u8>| #[trigger] t.subtree_points(node).contains(p) ==> dist_sq_spec(
            q,
            t.nodes@[t.search_spec(q, node, dim)].point@,
        ) <= dist_sq_spec(q, p),
    decreases t.nodes@.len() - node,
{
    broadcast use vstd::multiset::group_multiset_axioms;

    assert(t.node_ok(node));
    let n = t.nodes@[node];
    let nd = t.next_dim_spec(dim);
    let res = t.search_spec(q, node, dim);
    let dn = dist_sq_spec(q, n.point@);
    match (n.left, n.right) {
        (Option::None, _) => {
            assert(t.subtree_points(node) == Multiset::<Seq<u8>>::empty().insert(n.point@));
            assert forall|p: Seq<u8>| #[trigger] t.subtree_points(node).contains(
                p,
            ) implies dist_sq_spec(q, t.nodes@[res].point@) <= dist_sq_spec(q, p) by {
                assert(p == n.point@);
            }
        },
        (Option::Some(l), Option::None) => {
            lemma_search_is_nearest(t, q, l as int, nd);
            let sub = t.search_spec(q, l as int, nd);
            let dsub = dist_sq_spec(q, t.nodes@[sub].point@);
            assert(t.subtree_points(node) == Multiset::<Seq<u8>>::empty().insert(
                n.point@,
            ).add(t.subtree_points(l as int)));
            assert(res == if dn < dsub {
                node
            } else {
                sub
            });
            assert forall|p: Seq<u8>| #[trigger] t.subtree_points(node).contains(
                p,
            ) implies dist_sq_spec(q, t.nodes@[res].point@) <= dist_sq_spec(q, p) by {
                if p != n.point@ {
                    assert(t.subtree_points(l as int).contains(p));
                }
            }
        },
        (Option::Some(l), Option::Some(rr)) => {
            let first = if q[dim] < n.point@[dim] {
                l as int
            } else {
                rr as int
            };
            let sib = if q[dim] < n.point@[dim] {
                rr as int
            } else {
                l as int
            };
            lemma_search_is_nearest(t, q, first, nd);
            let sub = t.search_spec(q, first, nd);
            let dsub = dist_sq_spec(q, t.nodes@[sub].point@);
            let best1 = if dn < dsub {
                node
            } else {
                sub
            };
            let dbest1 = dist_sq_spec(q, t.nodes@[best1].point@);
            assert(t.subtree_points(node) == Multiset::<Seq<u8>>::empty().insert(
                n.point@,
            ).add(t.subtree_points(l as int)).add(t.subtree_points(rr as int)));
            if sq(q[dim] - n.point@[dim]) < dbest1 {
                lemma_search_is_nearest(t, q, sib, nd);
                let sb = t.search_spec(q, sib, nd);
                let dsb = dist_sq_spec(q, t.nodes@[sb].point@);
                assert(res == if dsb < dbest1 {
                    sb
                } else {
                    best1
                });
                assert forall|p: Seq<u8>| #[trigger] t.subtree_points(node).contains(
                    p,
                ) implies dist_sq_spec(q, t.nodes@[res].point@) <= dist_sq_spec(q, p) by {
                    if p != n.point@ {
                        assert(t.subtree_points(l as int).contains(p) || t.subtree_points(
                            rr as int,
                        ).contains(p));
                    }
                }
            } else {
                assert(res == best1);
                t.lemma_subtree_points_len(sib);
                assert forall|p: Seq<u8>| #[trigger] t.subtree_points(sib).contains(
                    p,
                ) implies dist_sq_spec(q, p) >= dbest1 by {
                    assert(p.len() == t.k);
                    lemma_coord_bounds_dist(q, p, dim);
                    if q[dim] < n.point@[dim] {
                        assert(p[dim] >= n.point@[dim]);
                        lemma_sq_monotone(n.point@[dim] - q[dim], p[dim] - q[dim]);
                        lemma_sq_symmetric(q[dim] - p[dim]);
                        lemma_sq_symmetric(q[dim] - n.point@[dim]);
                    } else {
                        assert(p[dim] <= n.point@[dim]);
                        lemma_sq_monotone(q[dim] - n.point@[dim], q[dim] - p[dim]);
                    }
                }
                assert forall|p: Seq<u8>| #[trigger] t.subtree_points(node).contains(
                    p,
                ) implies dist_sq_spec(q, t.nodes@[res].point@) <= dist_sq_spec(q, p) by {
                    if p != n.point@ {
                        assert(t.subtree_points(l as int).contains(p) || t.subtree_points(
                            rr as int,
                        ).contains(p));
                        if t.subtree_points(sib).contains(p) {
                            assert(dist_sq_spec(q, p) >= dbest1);
                        } else {
                            assert(t.subtree_points(first).contains(p));
                        }
                    }
                }
            }
        },
    }
}

/// Correctness against exhaustive search: on a tree built from a palette,
/// the query answer's squared distance is the minimum that a linear scan
/// over the whole palette would find.
pub proof fn lemma_query_is_minimum(t: SpatialTree, q: Seq<u8>, palette: Seq<Seq<u8>>)
    requires
        t.wf(),
        t.partitioned(0, 0),
        t.subtree_points(0) == palette.to_multiset(),
        q.len() == t.k,
    ensures
        palette.contains(t.nodes@[t.search_spec(q, 0, 0)].point@),
        forall|i: int|
            0 <= i < palette.len() ==> dist_sq_spec(
                q,
                t.nodes@[t.search_spec(q, 0, 0)].point@,
            ) <= dist_sq_spec(q, #[trigger] palette[i]),
{
    broadcast use vstd::seq_lib::to_multiset_contains;
    broadcast use vstd::multiset::group_multiset_axioms;

    lemma_search_is_nearest(t, q, 0, 0);
    assert forall|i: int| 0 <= i < palette.len() implies dist_sq_spec(
        q,
        t.nodes@[t.search_spec(q, 0, 0)].point@,
    ) <= dist_sq_spec(q, #[trigger] palette[i]) by {
        assert(palette.contains(palette[i]));
        assert(t.subtree_points(0).contains(palette[i]));
    }
}

/// Exact match: a query identical to a palette point is answered by a point
/// with exactly those coordinates, at squared distance zero.
pub proof fn lemma_exact_match(t: SpatialTree, q: Seq<u8>, palette: Seq<Seq<u8>>)
    requires
        t.wf(),
        t.partitioned(0, 0),
        t.subtree_points(0) == palette.to_multiset(),
        q.len() == t.k,
        palette.contains(q),
    ensures
        t.nodes@[t.search_spec(q, 0, 0)].point@ == q,
        dist_sq_spec(q, t.nodes@[t.search_spec(q, 0, 0)].point@) == 0,
{
    broadcast use vstd::seq_lib::to_multiset_contains;
    broadcast use vstd::multiset::group_multiset_axioms;

    lemma_query_is_minimum(t, q, palette);
    lemma_dist_self_zero(q);
    let i = choose|i: int| 0 <= i < palette.len() && palette[i] == q;
    assert(dist_sq_spec(q, t.nodes@[t.search_spec(q, 0, 0)].point@) <= 0);
    let res = t.search_spec(q, 0, 0);
    t.lemma_search_spec_in_range(q, 0, 0);
    assert(t.node_ok(res));
    lemma_dist_nonneg(q, t.nodes@[res].point@);
    lemma_zero_dist_eq(q, t.nodes@[res].point@);
}

} // verus!

