//! Array-backed union-find with size tracking.
//!
//! Nodes are the integers `0 .. n`. The structure is modelled by a ghost
//! sequence `rep` giving each node's representative; `same` (equality of
//! representatives) is the partition the exec code maintains. A ghost
//! `depth` sequence decreases strictly along parent edges, which bounds the
//! walk in `find`. The size array is exact at the roots: it holds the
//! cardinality of the root's class.

use vstd::prelude::*;
use vstd::set_lib::lemma_int_range;
use vstd::set_lib::lemma_len_subset;
use vstd::set_lib::lemma_set_disjoint_lens;
use vstd::set_lib::lemma_set_subset_finite;
use vstd::set_lib::set_int_range;

verus! {

pub struct UnionFind {
    parent: Vec<usize>,
    size: Vec<usize>,
    rep: Ghost<Seq<int>>,
    depth: Ghost<Seq<nat>>,
}

impl UnionFind {
    /// The number of nodes.
    pub closed spec fn n(self) -> nat {
        self.parent@.len()
    }

    /// The representative of each node.
    pub closed spec fn repr(self) -> Seq<int> {
        self.rep@
    }

    /// Two nodes lie in the same class.
    pub open spec fn same(self, a: int, b: int) -> bool {
        self.repr()[a] == self.repr()[b]
    }

    /// The class whose representative is `r`.
    pub open spec fn class(self, r: int) -> Set<int> {
        Set::new(|j: int| 0 <= j < self.n() && self.repr()[j] == r)
    }

    /// The class containing node `i`.
    pub open spec fn class_of(self, i: int) -> Set<int> {
        self.class(self.repr()[i])
    }

    /// The cardinality of the class containing node `i`.
    pub open spec fn class_size(self, i: int) -> nat {
        self.class_of(i).len()
    }

    pub closed spec fn wf(self) -> bool {
        &&& self.size@.len() == self.n()
        &&& self.rep@.len() == self.n()
        &&& self.depth@.len() == self.n()
        &&& forall|i: int|
            0 <= i < self.n() ==> 0 <= #[trigger] self.parent@[i] < self.n()
        &&& forall|i: int|
            0 <= i < self.n() ==> 0 <= #[trigger] self.rep@[i] < self.n()
        &&& forall|i: int|
            0 <= i < self.n() ==> ((#[trigger] self.parent@[i] == i) <==> self.rep@[i] == i)
        &&& forall|i: int|
            0 <= i < self.n() ==> self.rep@[#[trigger] self.parent@[i] as int] == self.rep@[i]
        &&& forall|i: int|
            0 <= i < self.n() ==> #[trigger] self.parent@[self.rep@[i]] == self.rep@[i]
        &&& forall|i: int|
            0 <= i < self.n() && #[trigger] self.parent@[i] != i ==> self.depth@[self.parent@[i] as int]
                < self.depth@[i]
        &&& forall|i: int|
            0 <= i < self.n() && #[trigger] self.parent@[i] == i ==> self.size@[i] == self.class(
                i,
            ).len()
    }

    /// Every class is a finite subset of `0 .. n`, so its size is at most `n`.
    pub proof fn lemma_class_bounds(self, r: int)
        requires
            self.wf(),
        ensures
            self.class(r).finite(),
            self.class(r).len() <= self.n(),
    {
        lemma_int_range(0, self.n() as int);
        assert(self.class(r).subset_of(set_int_range(0, self.n() as int)));
        lemma_set_subset_finite(set_int_range(0, self.n() as int), self.class(r));
        lemma_len_subset(self.class(r), set_int_range(0, self.n() as int));
    }

    /// A fresh structure with every node its own singleton class.
    pub fn new(n: usize) -> (uf: UnionFind)
        ensures
            uf.wf(),
            uf.n() == n,
            forall|i: int| 0 <= i < n ==> uf.repr()[i] == i,
    {
        let mut parent: Vec<usize> = Vec::new();
        let mut size: Vec<usize> = Vec::new();
        let mut k: usize = 0;
        while k < n
            invariant
                k <= n,
                parent@.len() == k,
                size@.len() == k,
                forall|j: int| 0 <= j < k ==> #[trigger] parent@[j] == j,
                forall|j: int| 0 <= j < k ==> #[trigger] size@[j] == 1,
            decreases n - k,
        {
            parent.push(k);
            size.push(1);
            k = k + 1;
        }
        let uf = UnionFind {
            parent,
            size,
            rep: Ghost(Seq::new(n as nat, |i: int| i)),
            depth: Ghost(Seq::new(n as nat, |i: int| 0nat)),
        };
        proof {
            assert forall|i: int| 0 <= i < n && #[trigger] uf.parent@[i] == i implies uf.size@[i]
                == uf.class(i).len() by {
                assert(uf.class(i) =~= Set::empty().insert(i));
            }
        }
        uf
    }

    /// The number of nodes, as the exec caller sees it.
    pub fn len(&self) -> (r: usize)
        ensures
            r == self.n(),
    {
        self.parent.len()
    }

    /// Walks parent edges to the root: the node's representative.
    pub fn find(&self, i: usize) -> (r: usize)
        requires
            self.wf(),
            i < self.n(),
        ensures
            r < self.n(),
            r == self.repr()[i as int],
            self.repr()[r as int] == r,
    {
        let mut cur: usize = i;
        while self.parent[cur] != cur
            invariant
                self.wf(),
                cur < self.n(),
                self.repr()[cur as int] == self.repr()[i as int],
            decreases self.depth@[cur as int],
        {
            cur = self.parent[cur];
        }
        cur
    }

    /// The size of the class containing node `i`.
    pub fn size_of(&self, i: usize) -> (s: usize)
        requires
            self.wf(),
            i < self.n(),
        ensures
            s == self.class_size(i as int),
    {
        let r = self.find(i);
        proof {
            assert(self.parent@[r as int] == r as int);
        }
        self.size[r]
    }

    /// Merges the classes of `a` and `b` (a no-op if they already coincide),
    /// linking the smaller class under the larger one's root.
    pub fn union(&mut self, a: usize, b: usize)
        requires
            old(self).wf(),
            a < old(self).n(),
            b < old(self).n(),
        ensures
            final(self).wf(),
            final(self).n() == old(self).n(),
            forall|i: int, j: int|
                0 <= i < old(self).n() && 0 <= j < old(self).n() ==> (#[trigger] final(self).same(
                    i,
                    j,
                ) <==> (old(self).same(i, j) || (old(self).same(i, a as int) && old(self).same(
                    j,
                    b as int,
                )) || (old(self).same(i, b as int) && old(self).same(j, a as int)))),
    {
        let ghost n = old(self).n();
        let node_count = self.len();
        let ra = self.find(a);
        let rb = self.find(b);
        if ra == rb {
            proof {
                assert forall|i: int, j: int| 0 <= i < n && 0 <= j < n implies (
                #[trigger] self.same(i, j) <==> (old(self).same(i, j) || (old(self).same(i, a as int)
                    && old(self).same(j, b as int)) || (old(self).same(i, b as int) && old(
                    self,
                ).same(j, a as int)))) by {}
            }
            return ;
        }
        let (child, root) = if self.size[ra] < self.size[rb] {
            (ra, rb)
        } else {
            (rb, ra)
        };
        proof {
            self.lemma_class_bounds(child as int);
            self.lemma_class_bounds(root as int);
            assert(self.parent@[child as int] == child as int);
            assert(self.parent@[root as int] == root as int);
            assert(self.size@[child as int] == self.class(child as int).len());
            assert(self.size@[root as int] == self.class(root as int).len());
            assert(self.class(child as int).disjoint(self.class(root as int)));
            lemma_set_disjoint_lens(self.class(child as int), self.class(root as int));
            lemma_int_range(0, n as int);
            assert((self.class(child as int) + self.class(root as int)).subset_of(
                set_int_range(0, n as int),
            ));
            lemma_len_subset(
                self.class(child as int) + self.class(root as int),
                set_int_range(0, n as int),
            );
            assert((self.class(child as int) + self.class(root as int)).len() <= n);
        }
        let total = self.size[child] + self.size[root];
        let ghost prev = *self;
        self.parent.set(child, root);
        self.size.set(root, total);
        proof {
            let crep = prev.rep@[child as int];
            self.rep = Ghost(
                Seq::new(n, |i: int| if prev.rep@[i] == child { root as int } else { prev.rep@[i] }),
            );
            self.depth = Ghost(
                Seq::new(
                    n,
                    |i: int|
                        if prev.rep@[i] == child {
                            (prev.depth@[i] + prev.depth@[root as int] + 1) as nat
                        } else {
                            prev.depth@[i]
                        },
                ),
            );
            assert(crep == child as int);
            // the merged class at the surviving root
            assert(self.class(root as int) =~= prev.class(child as int) + prev.class(root as int));
            // classes away from the two merged roots are untouched
            assert forall|r: int|
                0 <= r < n && r != root as int && r != child as int implies self.class(r)
                =~= prev.class(r) by {}
            assert forall|i: int|
                0 <= i < n && #[trigger] self.parent@[i] == i implies self.size@[i] == self.class(
                    i,
                ).len() by {
                if i != root as int {
                    assert(i != child as int);
                    assert(prev.parent@[i] == i);
                    assert(prev.size@[i] == prev.class(i).len());
                }
            }
        }
    }
}

} // verus!
