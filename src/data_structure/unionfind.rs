use vstd::prelude::*;
use vstd::set_lib::*;

verus! {

/// The elements whose representative is `r`, given the representative of each element.
pub open spec fn members(rep: Seq<int>, r: int) -> Set<int> {
    Set::new(|z: int| 0 <= z < rep.len() && rep[z] == r)
}

/// Disjoint sets over the elements `0..n`, as a forest of parent pointers
/// with path compression and union by size.
pub struct UnionFind {
    root: Vec<usize>,
    size: Vec<usize>,
    /// The representative (tree root) of each element.
    rep: Ghost<Seq<int>>,
    /// A measure that strictly decreases from an element to its parent.
    depth: Ghost<Seq<nat>>,
}

impl UnionFind {
    /// Number of elements.
    pub closed spec fn len(&self) -> nat {
        self.root@.len()
    }

    /// The representative of each element.
    pub closed spec fn partition(&self) -> Seq<int> {
        self.rep@
    }

    /// The representative of `x`.
    pub open spec fn find(&self, x: int) -> int {
        self.partition()[x]
    }

    /// The stored sizes.
    pub closed spec fn sizes(&self) -> Seq<usize> {
        self.size@
    }

    /// The stored size of `x`.
    pub open spec fn size_of(&self, x: int) -> int {
        self.sizes()[x] as int
    }

    /// The termination measure of `x`.
    pub closed spec fn depth_of(&self, x: int) -> nat {
        self.depth@[x]
    }

    /// Whether `a` and `b` are together once the sets of `x` and `y` are merged.
    pub open spec fn same_after_union(&self, x: int, y: int, a: int, b: int) -> bool {
        ||| self.find(a) == self.find(b)
        ||| (self.find(a) == self.find(x) && self.find(b) == self.find(y))
        ||| (self.find(a) == self.find(y) && self.find(b) == self.find(x))
    }

    pub closed spec fn wf(&self) -> bool {
        let n = self.root@.len();
        let rep = self.rep@;
        let depth = self.depth@;
        &&& n <= usize::MAX
        &&& self.size@.len() == n
        &&& rep.len() == n
        &&& depth.len() == n
        &&& forall|z: int| 0 <= z < n ==> #[trigger] self.root@[z] < n
        &&& forall|z: int|
            0 <= z < n ==> 0 <= #[trigger] rep[z] < n && self.root@[rep[z]] == rep[z]
        &&& forall|z: int| 0 <= z < n ==> rep[#[trigger] self.root@[z] as int] == rep[z]
        &&& forall|z: int|
            0 <= z < n && #[trigger] self.root@[z] != z ==> depth[self.root@[z] as int]
                < depth[z]
        &&& forall|z: int| 0 <= z < n && #[trigger] rep[z] != z ==> depth[rep[z]] < depth[z]
        &&& forall|z: int| 0 <= z < n && #[trigger] self.root@[z] == z ==> rep[z] == z
        &&& forall|r: int|
            0 <= r < n && #[trigger] rep[r] == r ==> self.size@[r] == members(rep, r).len()
    }

    /// Each of `n` elements in a set of its own.
    pub fn new(size: usize) -> (r: Self)
        ensures
            r.wf(),
            r.len() == size,
            forall|x: int| 0 <= x < size ==> #[trigger] r.find(x) == x,
    {
        let mut root: Vec<usize> = Vec::new();
        let mut sizes: Vec<usize> = Vec::new();
        let mut i: usize = 0;
        while i < size
            invariant
                i <= size,
                root@.len() == i,
                sizes@.len() == i,
                forall|z: int| 0 <= z < i ==> #[trigger] root@[z] == z,
                forall|z: int| 0 <= z < i ==> #[trigger] sizes@[z] == 1,
            decreases size - i,
        {
            root.push(i);
            sizes.push(1);
            i = i + 1;
        }
        let ghost rep = Seq::new(size as nat, |z: int| z);
        let r = UnionFind {
            root,
            size: sizes,
            rep: Ghost(rep),
            depth: Ghost(Seq::new(size as nat, |z: int| 0nat)),
        };
        assert forall|x: int| 0 <= x < size && #[trigger] rep[x] == x implies sizes@[x]
            == members(rep, x).len() by {
            assert(members(rep, x) =~= set![x]);
        }
        r
    }

    /// The representative of `x`; compresses the path from `x` on the way.
    pub fn root(&mut self, x: usize) -> (r: usize)
        requires
            old(self).wf(),
            x < old(self).len(),
        ensures
            final(self).wf(),
            final(self).len() == old(self).len(),
            final(self).partition() == old(self).partition(),
            final(self).sizes() == old(self).sizes(),
            r == old(self).find(x as int),
        decreases old(self).depth_of(x as int),
    {
        if self.root[x] == x {
            x
        } else {
            let parent = self.root[x];
            let root = self.root(parent);
            self.root.set(x, root);
            root
        }
    }

    /// Whether `x` and `y` are in the same set.
    pub fn same(&mut self, x: usize, y: usize) -> (r: bool)
        requires
            old(self).wf(),
            x < old(self).len(),
            y < old(self).len(),
        ensures
            final(self).wf(),
            final(self).len() == old(self).len(),
            final(self).partition() == old(self).partition(),
            r == (old(self).find(x as int) == old(self).find(y as int)),
    {
        self.root(x) == self.root(y)
    }

    /// Merges the sets of `x` and `y`; the root of the larger set becomes
    /// the root of the union. Returns whether they were apart.
    pub fn unite(&mut self, x: usize, y: usize) -> (r: bool)
        requires
            old(self).wf(),
            x < old(self).len(),
            y < old(self).len(),
        ensures
            final(self).wf(),
            final(self).len() == old(self).len(),
            r == (old(self).find(x as int) != old(self).find(y as int)),
            forall|a: int, b: int|
                #![trigger final(self).partition()[a], final(self).partition()[b]]
                0 <= a < old(self).len() && 0 <= b < old(self).len() ==> (final(self).find(a)
                    == final(self).find(b) <==> old(self).same_after_union(
                    x as int,
                    y as int,
                    a,
                    b,
                )),
    {
        let x_root = self.root(x);
        let y_root = self.root(y);
        if x_root == y_root {
            return false;
        }
        let (big, small) = if self.size(x_root) < self.size(y_root) {
            (y_root, x_root)
        } else {
            (x_root, y_root)
        };
        let ghost n = self.root@.len();
        let ghost rep = self.rep@;
        let ghost depth = self.depth@;
        let ghost b = big as int;
        let ghost s = small as int;
        proof {
            let all = set_int_range(0, n as int);
            lemma_int_range(0, n as int);
            assert(members(rep, b).subset_of(all));
            assert(members(rep, s).subset_of(all));
            lemma_set_subset_finite(all, members(rep, b));
            lemma_set_subset_finite(all, members(rep, s));
            assert(members(rep, b).disjoint(members(rep, s)));
            lemma_set_disjoint_lens(members(rep, b), members(rep, s));
            assert((members(rep, b) + members(rep, s)).subset_of(all));
            lemma_len_subset(members(rep, b) + members(rep, s), all);
        }
        self.root.set(small, big);
        let total = self.size[big] + self.size[small];
        self.size.set(big, total);
        let ghost new_rep = Seq::new(n, |z: int| if rep[z] == s { b } else { rep[z] });
        self.rep = Ghost(new_rep);
        self.depth = Ghost(
            Seq::new(n, |z: int| if rep[z] == s { depth[z] + depth[b] + 1 } else { depth[z] }),
        );
        proof {
            assert(members(new_rep, b) =~= members(rep, b) + members(rep, s));
            assert forall|r: int|
                0 <= r < n && #[trigger] new_rep[r] == r && r != b implies members(new_rep, r)
                =~= members(rep, r) by {}
        }
        true
    }

    /// The stored size of `x`: for a representative, the number of
    /// elements of its set.
    pub fn size(&self, x: usize) -> (r: usize)
        requires
            self.wf(),
            x < self.len(),
        ensures
            r == self.size_of(x as int),
            self.find(x as int) == x ==> r == members(self.partition(), x as int).len(),
    {
        self.size[x]
    }
}

} // verus!
