use crate::math::monoid::Monoid;
use vstd::prelude::*;

verus! {

/// `2^k`.
pub open spec fn pow2(k: nat) -> nat
    decreases k,
{
    if k == 0 {
        1
    } else {
        2 * pow2((k - 1) as nat)
    }
}

/// The first of `p, 2p, 4p, ...` that is at least `n` (for `p >= 1`).
pub open spec fn grow_to(n: nat, p: nat) -> nat
    decreases (if p < n { n - p } else { 0 }),
{
    if p >= n || p == 0 {
        p
    } else {
        grow_to(n, 2 * p)
    }
}

/// The number of leaves of a tree for `n` values: the least power of two
/// that is at least `n` (and at least 1).
pub open spec fn leaf_count_for(n: nat) -> nat {
    grow_to(n, 1)
}

/// The left-to-right fold of `s` under `T::combine`, starting from `T::identity()`.
pub open spec fn fold<T: Monoid>(s: Seq<T>) -> T
    decreases s.len(),
{
    if s.len() == 0 {
        T::identity()
    } else {
        T::combine(fold(s.drop_last()), s.last())
    }
}

/// The fold of the positions `[lo, hi)` of `s`; the identity when the range is empty.
pub open spec fn range_fold<T: Monoid>(s: Seq<T>, lo: int, hi: int) -> T {
    if lo < hi {
        fold(s.subrange(lo, hi))
    } else {
        T::identity()
    }
}

/// Folding a concatenation combines the folds of its parts.
pub proof fn lemma_fold_concat<T: Monoid>(a: Seq<T>, b: Seq<T>)
    ensures
        fold(a + b) == T::combine(fold(a), fold(b)),
    decreases b.len(),
{
    if b.len() == 0 {
        assert(a + b =~= a);
        T::lemma_identity(fold(a));
    } else {
        assert((a + b).drop_last() =~= a + b.drop_last());
        assert((a + b).last() == b.last());
        lemma_fold_concat(a, b.drop_last());
        T::lemma_associative(fold(a), fold(b.drop_last()), b.last());
    }
}

/// The fold of a one-element sequence is that element.
pub proof fn lemma_fold_single<T: Monoid>(x: T)
    ensures
        fold(seq![x]) == x,
{
    assert(seq![x].drop_last() =~= Seq::<T>::empty());
    assert(seq![x].last() == x);
    reveal_with_fuel(fold, 2);
    T::lemma_identity(x);
}

pub proof fn lemma_pow2_positive(k: nat)
    ensures
        pow2(k) >= 1,
    decreases k,
{
    if k > 0 {
        lemma_pow2_positive((k - 1) as nat);
    }
}

pub proof fn lemma_pow2_mono(a: nat, b: nat)
    requires
        a <= b,
    ensures
        pow2(a) <= pow2(b),
    decreases b - a,
{
    if a < b {
        lemma_pow2_mono(a, (b - 1) as nat);
        lemma_pow2_positive((b - 1) as nat);
    }
}

proof fn lemma_grow_to(n: nat, p: nat, k: nat)
    requires
        p == pow2(k),
    ensures
        grow_to(n, p) >= p,
        grow_to(n, p) >= n,
        exists|j: nat| j >= k && grow_to(n, p) == #[trigger] pow2(j),
    decreases (if p < n { n - p } else { 0 }),
{
    lemma_pow2_positive(k);
    if p >= n {
    } else {
        assert(pow2(k + 1) == 2 * p);
        lemma_grow_to(n, 2 * p, k + 1);
        let j = choose|j: nat| j >= k + 1 && grow_to(n, 2 * p) == #[trigger] pow2(j);
        assert(j >= k && grow_to(n, p) == pow2(j));
    }
}

proof fn lemma_grow_to_at_most(n: nat, k: nat, m: nat)
    requires
        k <= m,
        n <= pow2(m),
    ensures
        grow_to(n, pow2(k)) <= pow2(m),
    decreases m - k,
{
    lemma_pow2_positive(k);
    if pow2(k) < n {
        if k == m {
            assert(false);
        }
        assert(pow2(k + 1) == 2 * pow2(k));
        lemma_grow_to_at_most(n, k + 1, m);
    } else {
        lemma_pow2_mono(k, m);
    }
}

/// For up to `usize::MAX / 2 + 1` values the node array fits in memory indices.
proof fn lemma_node_count_fits(n: nat)
    requires
        n <= usize::MAX / 2 + 1,
    ensures
        2 * leaf_count_for(n) - 1 <= usize::MAX,
{
    reveal_with_fuel(pow2, 64);
    assert(pow2(0) == 1);
    if usize::MAX == 0xffff_ffff {
        assert(pow2(31) == 0x8000_0000);
        lemma_grow_to_at_most(n, 0, 31);
    } else {
        assert(usize::MAX == 0xffff_ffff_ffff_ffff);
        assert(pow2(63) == 0x8000_0000_0000_0000);
        lemma_grow_to_at_most(n, 0, 63);
    }
}

/// A segment tree: a complete binary tree stored in an array, whose leaves
/// hold a sequence of monoid values and whose internal nodes hold the
/// combination of their two children.
///
/// Node 0 is the root, the children of node `i` are `2i+1` and `2i+2`, and the
/// leaves are the last `n_leaves` nodes.
pub struct SegmentTree<T: Monoid> {
    n_leaves: usize,
    nodes: Vec<T>,
    height: Ghost<nat>,
}

impl<T: Monoid> SegmentTree<T> {
    /// Number of leaves.
    pub closed spec fn leaf_count(&self) -> nat {
        self.n_leaves as nat
    }

    /// The whole node array.
    pub closed spec fn node_values(&self) -> Seq<T> {
        self.nodes@
    }

    /// The values at the leaves, in position order.
    pub open spec fn view(&self) -> Seq<T> {
        self.node_values().subrange(
            self.leaf_count() - 1,
            2 * self.leaf_count() - 1,
        )
    }

    /// Every internal node holds the combination of its two children.
    pub open spec fn internal_nodes_combine(&self) -> bool {
        forall|i: int|
            0 <= i < self.leaf_count() - 1 ==> #[trigger] self.node_values()[i] == T::combine(
                self.node_values()[2 * i + 1],
                self.node_values()[2 * i + 2],
            )
    }

    /// Well-formedness: the leaf count is a power of two, the array has
    /// `2 * leaf_count - 1` nodes, and every internal node combines its children.
    pub closed spec fn wf(&self) -> bool {
        &&& self.n_leaves as nat == pow2(self.height@)
        &&& self.nodes@.len() == 2 * self.n_leaves - 1
        &&& self.nodes@.len() <= usize::MAX
        &&& self.internal_nodes_combine()
    }

    /// `self` is what updating `prev` at `i` with `x` gives.
    pub open spec fn is_update_of(&self, prev: Self, i: int, x: T) -> bool {
        &&& prev.wf()
        &&& self.wf()
        &&& self.leaf_count() == prev.leaf_count()
        &&& self.view() == prev.view().update(i, x)
    }

    /// A tree of `leaf_count_for(n)` leaves, every node holding the identity.
    pub fn new(n: usize) -> (r: Self)
        requires
            n <= usize::MAX / 2 + 1,
        ensures
            r.wf(),
            r.leaf_count() == leaf_count_for(n as nat),
            n <= r.leaf_count(),
            r.view() == Seq::new(r.leaf_count(), |i: int| T::identity()),
    {
        let mut n_leaves: usize = 1;
        let ghost mut k: nat = 0;
        proof {
            lemma_grow_to(n as nat, 1, 0);
            lemma_node_count_fits(n as nat);
        }
        while n_leaves < n
            invariant
                n_leaves as nat == pow2(k),
                grow_to(n as nat, n_leaves as nat) == leaf_count_for(n as nat),
                n_leaves <= leaf_count_for(n as nat),
                2 * leaf_count_for(n as nat) - 1 <= usize::MAX,
            decreases leaf_count_for(n as nat) - n_leaves,
        {
            proof {
                lemma_grow_to(n as nat, 2 * n_leaves as nat, k + 1);
            }
            n_leaves = n_leaves * 2;
            proof {
                k = k + 1;
            }
        }
        proof {
            lemma_grow_to(n as nat, n_leaves as nat, k);
            assert(n_leaves == leaf_count_for(n as nat));
            lemma_pow2_positive(k);
            T::lemma_identity(T::identity());
        }
        let len: usize = n_leaves + (n_leaves - 1);
        let mut nodes: Vec<T> = Vec::new();
        while nodes.len() < len
            invariant
                len <= usize::MAX,
                nodes@.len() <= len,
                forall|i: int| 0 <= i < nodes@.len() ==> nodes@[i] == T::identity(),
            decreases len - nodes@.len(),
        {
            nodes.push(T::mempty());
        }
        let r = SegmentTree { n_leaves, nodes, height: Ghost(k) };
        assert(r.view() =~= Seq::new(r.leaf_count(), |i: int| T::identity()));
        r
    }

    /// Replaces the value at leaf `i` by `x` and recombines its ancestors.
    pub fn update(&mut self, i: usize, x: T)
        requires
            old(self).wf(),
            i < old(self).leaf_count(),
        ensures
            final(self).is_update_of(*old(self), i as int, x),
            final(self).internal_nodes_combine(),
    {
        let ghost n = self.n_leaves as int;
        let ghost pos = i as int;
        let mut i = i + self.n_leaves - 1;
        self.nodes.set(i, x);
        assert(self.view() =~= old(self).view().update(pos, x));
        while i > 0
            invariant
                self.n_leaves == n,
                self.height == old(self).height,
                self.n_leaves as nat == pow2(self.height@),
                self.nodes@.len() == 2 * n - 1,
                self.nodes@.len() <= usize::MAX,
                i < 2 * n - 1,
                pos < n,
                self.view() == old(self).view().update(pos, x),
                forall|k: int|
                    0 <= k < n - 1 && (i == 0 || k != (i - 1) / 2) ==> #[trigger] self.nodes@[k]
                        == T::combine(self.nodes@[2 * k + 1], self.nodes@[2 * k + 2]),
            decreases i,
        {
            i = (i - 1) / 2;
            let left_child = &self.nodes[2 * i + 1];
            let right_child = &self.nodes[2 * i + 2];
            let v = left_child.mappend(right_child);
            self.nodes.set(i, v);
        }
        assert(self.wf());
    }

    /// A tree whose leaves hold `v` in order, followed by identity padding;
    /// the same tree as `new(v.len())` followed by `update(i, v[i])` for each `i`.
    pub fn from(v: Vec<T>) -> (r: Self)
        requires
            v@.len() <= usize::MAX / 2 + 1,
        ensures
            r.wf(),
            r.leaf_count() == leaf_count_for(v@.len()),
            v@.len() <= r.leaf_count(),
            r.view() == v@ + Seq::new((r.leaf_count() - v@.len()) as nat, |i: int| T::identity()),
            fold(r.view().subrange(0, v@.len() as int)) == fold(v@),
    {
        let ghost values = v@;
        let mut v = v;
        let len = v.len();
        let mut st = SegmentTree::new(len);
        proof {
            lemma_grow_to(len as nat, 1, 0);
        }
        let mut i = len;
        while i > 0
            invariant
                st.wf(),
                st.leaf_count() == leaf_count_for(len as nat),
                len <= st.leaf_count(),
                i <= len == values.len(),
                v@ == values.subrange(0, i as int),
                st.view() == Seq::new(
                    st.leaf_count(),
                    |k: int|
                        if i <= k < len {
                            values[k]
                        } else {
                            T::identity()
                        },
                ),
            decreases i,
        {
            i = i - 1;
            let x = v.pop().unwrap();
            st.update(i, x);
            assert(v@ =~= values.subrange(0, i as int));
            assert(st.view() =~= Seq::new(
                st.leaf_count(),
                |k: int|
                    if i <= k < len {
                        values[k]
                    } else {
                        T::identity()
                    },
            ));
        }
        assert(st.view() =~= values + Seq::new(
            (st.leaf_count() - values.len()) as nat,
            |k: int| T::identity(),
        ));
        assert(st.view().subrange(0, len as int) =~= values);
        st
    }

    /// Two well-formed trees with the same leaves have the same nodes.
    pub proof fn lemma_leaves_determine_nodes(a: Self, b: Self)
        requires
            a.wf(),
            b.wf(),
            a.leaf_count() == b.leaf_count(),
            a.view() == b.view(),
        ensures
            a.node_values() == b.node_values(),
    {
        let n = a.leaf_count() as int;
        Self::lemma_agree_from(a, b, 0);
        assert(a.node_values() =~= b.node_values());
    }

    proof fn lemma_agree_from(a: Self, b: Self, k: int)
        requires
            a.wf(),
            b.wf(),
            a.leaf_count() == b.leaf_count(),
            a.view() == b.view(),
            0 <= k <= a.leaf_count() - 1,
        ensures
            forall|m: int| k <= m < 2 * a.leaf_count() - 1 ==> a.nodes@[m] == b.nodes@[m],
        decreases a.leaf_count() - 1 - k,
    {
        let n = a.leaf_count() as int;
        if k == n - 1 {
            assert forall|m: int| k <= m < 2 * n - 1 implies a.nodes@[m] == b.nodes@[m] by {
                assert(a.view()[m - (n - 1)] == a.nodes@[m]);
                assert(b.view()[m - (n - 1)] == b.nodes@[m]);
            }
        } else {
            Self::lemma_agree_from(a, b, k + 1);
            assert(a.node_values()[k] == T::combine(a.node_values()[2 * k + 1], a.node_values()[2 * k + 2]));
            assert(b.node_values()[k] == T::combine(b.node_values()[2 * k + 1], b.node_values()[2 * k + 2]));
        }
    }

    /// Updating a position a second time with the same value leaves the tree
    /// as the first update left it.
    pub proof fn lemma_update_idempotent(t0: Self, t1: Self, t2: Self, i: int, x: T)
        requires
            0 <= i < t0.leaf_count(),
            t1.is_update_of(t0, i, x),
            t2.is_update_of(t1, i, x),
        ensures
            t2.node_values() == t1.node_values(),
    {
        assert(t1.view()[i] == x);
        assert(t1.view().update(i, x) =~= t1.view());
        Self::lemma_leaves_determine_nodes(t2, t1);
    }

    /// The fold of the leaves at positions `[start, end)`.
    pub fn query(&self, start: usize, end: usize) -> (r: T)
        requires
            self.wf(),
            start <= end <= self.leaf_count(),
        ensures
            r == fold(self.view().subrange(start as int, end as int)),
            start == end ==> r == T::identity(),
    {
        proof {
            lemma_pow2_positive(self.height@);
        }
        let r = self.query_rec(start, end, 0, 0, self.n_leaves, Ghost(0), Ghost(0));
        assert(self.view().subrange(start as int, start as int) =~= Seq::<T>::empty());
        r
    }

    fn query_rec(
        &self,
        start: usize,
        end: usize,
        i: usize,
        left: usize,
        right: usize,
        Ghost(d): Ghost<nat>,
        Ghost(j): Ghost<nat>,
    ) -> (r: T)
        requires
            self.wf(),
            start <= end <= self.leaf_count(),
            d <= self.height@,
            j < pow2(d),
            i == pow2(d) - 1 + j,
            left == j * pow2((self.height@ - d) as nat),
            right == left + pow2((self.height@ - d) as nat),
        ensures
            r == range_fold(
                self.view(),
                if start <= left { left as int } else { start as int },
                if end <= right { end as int } else { right as int },
            ),
        decreases self.height@ - d,
    {
        proof {
            self.lemma_node_fold(d, j);
        }
        if right <= start || end <= left {
            T::mempty()
        } else if start <= left && right <= end {
            proof {
                T::lemma_identity(self.nodes@[i as int]);
            }
            self.nodes[i].mappend(&T::mempty())
        } else {
            let ghost h = self.height@;
            let ghost w: int = pow2((h - d) as nat) as int;
            let ghost hw: int = pow2((h - d - 1) as nat) as int;
            proof {
                assert(d < h) by {
                    if d == h {
                        assert(pow2(0) == 1);
                    }
                }
                lemma_pow2_mono(d + 1, h);
                assert(w == 2 * hw);
                assert(pow2(d + 1) == 2 * pow2(d));
                assert((h - (d + 1)) as nat == (h - d - 1) as nat);
                assert(i < self.n_leaves - 1);
                assert(j * w == (2 * j) * hw) by (nonlinear_arith)
                    requires
                        w == 2 * hw,
                ;
                assert((2 * j + 1) * hw == j * w + hw) by (nonlinear_arith)
                    requires
                        w == 2 * hw,
                ;
            }
            let mid = left + (right - left) / 2;
            let left_part = self.query_rec(start, end, 2 * i + 1, left, mid, Ghost(d + 1), Ghost(2 * j));
            let right_part = self.query_rec(
                start,
                end,
                2 * i + 2,
                mid,
                right,
                Ghost(d + 1),
                Ghost(2 * j + 1),
            );
            proof {
                let s = self.view();
                let lo: int = if start <= left { left as int } else { start as int };
                let hi: int = if end <= right { end as int } else { right as int };
                let m = mid as int;
                let a = range_fold(s, lo, if end <= mid { end as int } else { m });
                let b = range_fold(s, if start <= mid { m } else { start as int }, hi);
                T::lemma_identity(a);
                T::lemma_identity(b);
                if lo < m && m < hi {
                    assert(s.subrange(lo, hi) =~= s.subrange(lo, m) + s.subrange(m, hi));
                    lemma_fold_concat(s.subrange(lo, m), s.subrange(m, hi));
                }
            }
            left_part.mappend(&right_part)
        }
    }

    /// The node at depth `d` and position `j` holds the fold of the leaves it covers.
    proof fn lemma_node_fold(&self, d: nat, j: nat)
        requires
            self.wf(),
            d <= self.height@,
            j < pow2(d),
        ensures
            pow2(d) - 1 + j < self.nodes@.len(),
            j * pow2((self.height@ - d) as nat) + pow2((self.height@ - d) as nat)
                <= self.n_leaves,
            self.nodes@[pow2(d) - 1 + j] == fold(
                self.view().subrange(
                    (j * pow2((self.height@ - d) as nat)) as int,
                    (j * pow2((self.height@ - d) as nat) + pow2((self.height@ - d) as nat)) as int,
                ),
            ),
        decreases self.height@ - d,
    {
        let h = self.height@;
        let w: int = pow2((h - d) as nat) as int;
        let n = self.n_leaves as int;
        lemma_pow2_positive(d);
        lemma_pow2_positive((h - d) as nat);
        assert(pow2(d) * w == n) by {
            lemma_pow2_add(d, (h - d) as nat);
        }
        assert(j * w + w <= n) by (nonlinear_arith)
            requires
                j + 1 <= pow2(d),
                pow2(d) * w == n,
                w >= 1,
        ;
        if d == h {
            assert(w == 1);
            assert(j * w == j) by (nonlinear_arith)
                requires
                    w == 1,
            ;
            assert(pow2(d) == n);
            assert(self.view().subrange(j as int, j + 1 as int) =~= seq![self.nodes@[n - 1 + j]]);
            lemma_fold_single(self.nodes@[n - 1 + j]);
            assert(self.nodes@[pow2(d) - 1 + j] == fold(self.view().subrange(j * w, j * w + w)));
        } else {
            let i = pow2(d) - 1 + j;
            let hw: int = pow2((h - d - 1) as nat) as int;
            assert(w == 2 * hw);
            assert(pow2(d + 1) == 2 * pow2(d));
            lemma_pow2_mono(d + 1, h);
            assert(i < n - 1);
            self.lemma_node_fold(d + 1, 2 * j);
            self.lemma_node_fold(d + 1, 2 * j + 1);
            assert(2 * i + 1 == pow2(d + 1) - 1 + 2 * j);
            assert((h - (d + 1)) as nat == (h - d - 1) as nat);
            assert(j * w == (2 * j) * hw) by (nonlinear_arith)
                requires
                    w == 2 * hw,
            ;
            assert((2 * j + 1) * hw == j * w + hw) by (nonlinear_arith)
                requires
                    w == 2 * hw,
            ;
            let s = self.view();
            let lo: int = j * w;
            assert(s.subrange(lo, lo + w) =~= s.subrange(lo, lo + hw) + s.subrange(
                lo + hw,
                lo + w,
            ));
            lemma_fold_concat(s.subrange(lo, lo + hw), s.subrange(lo + hw, lo + w));
            assert(self.nodes@[2 * i + 1] == fold(s.subrange(lo, lo + hw)));
            assert(self.nodes@[2 * i + 2] == fold(s.subrange(lo + hw, lo + w)));
            assert(self.node_values()[i] == T::combine(
                self.node_values()[2 * i + 1],
                self.node_values()[2 * i + 2],
            ));
            assert(self.nodes@[i] == fold(s.subrange(lo, lo + w)));
        }
    }
}

pub proof fn lemma_pow2_add(a: nat, b: nat)
    ensures
        pow2(a) * pow2(b) == pow2(a + b),
    decreases a,
{
    if a > 0 {
        let a1 = (a - 1) as nat;
        lemma_pow2_add(a1, b);
        assert(pow2(a + b) == 2 * pow2(a1 + b));
        assert(pow2(a) * pow2(b) == 2 * (pow2(a1) * pow2(b))) by (nonlinear_arith)
            requires
                pow2(a) == 2 * pow2(a1),
        ;
    } else {
        assert(pow2(a) == 1);
    }
}

} // verus!
