use vstd::prelude::*;
use vstd::set::{axiom_set_remove_finite, axiom_set_remove_len};
use vstd::set_lib::{lemma_int_range, lemma_len_subset, set_int_range};

verus! {

/// Union-find over the indices `[0, size)`, with union by rank and path
/// compression.
///
/// The ghost `rep` map records the partition that the parent forest encodes:
/// `rep[i]` is the canonical representative (the root) of `i`'s class. The
/// ghost `depth` map decreases strictly along parent links and so witnesses
/// that every parent chain ends at a self-parented root.
pub struct UnionFind {
    parent: Vec<usize>,
    rank: Vec<usize>,
    rep: Ghost<Map<int, int>>,
    depth: Ghost<Map<int, nat>>,
}

impl UnionFind {
    /// The number of elements the structure was built for.
    pub closed spec fn size(self) -> int {
        self.parent@.len() as int
    }

    /// The canonical representative of `x`'s class.
    pub closed spec fn rep_of(self, x: int) -> int {
        self.rep@[x]
    }

    /// Whether `x` and `y` lie in one class.
    pub open spec fn same_set(self, x: int, y: int) -> bool {
        self.rep_of(x) == self.rep_of(y)
    }

    /// The stored parent link of `x`, exposed so that path compression can
    /// be stated: right after `find(x)` the chain from `x` has length at
    /// most one.
    pub closed spec fn parent_of(self, x: int) -> int {
        self.parent@[x] as int
    }

    /// The elements that are their own representative.
    spec fn roots(self) -> Set<int> {
        Set::new(|i: int| 0 <= i < self.size() && self.rep@[i] == i)
    }

    /// The parent forest and the ghost partition agree: parents stay within
    /// their class, an element is self-parented exactly when it is the
    /// representative, `depth` falls strictly along parent links, and every
    /// rank leaves room for the remaining roots (which bounds it by the
    /// number of merges performed, so it cannot overflow).
    pub closed spec fn wf(self) -> bool {
        let n = self.size();
        &&& self.rank@.len() == n
        &&& forall|i: int| 0 <= i < n ==> (#[trigger] self.parent@[i]) < n
        &&& forall|i: int| 0 <= i < n ==> 0 <= (#[trigger] self.rep@[i]) < n
        &&& forall|i: int| 0 <= i < n ==> self.rep@[#[trigger] self.rep@[i]] == self.rep@[i]
        &&& forall|i: int|
            0 <= i < n ==> self.rep@[(#[trigger] self.parent@[i]) as int] == self.rep@[i]
        &&& forall|i: int| 0 <= i < n ==> (((#[trigger] self.parent@[i]) as int == i) <==> self.rep@[i] == i)
        &&& forall|i: int|
            0 <= i < n && (#[trigger] self.parent@[i]) as int != i ==> self.depth@[self.parent@[i] as int]
                < self.depth@[i]
        &&& forall|i: int| 0 <= i < n ==> (#[trigger] self.rank@[i]) + self.roots().len() <= n
    }

    /// Following parents from any element reaches its representative, and
    /// the `depth` measure falls strictly on the way unless the element
    /// already is the representative.
    proof fn lemma_chain_to_root(self, x: int)
        requires
            self.wf(),
            0 <= x < self.size(),
        ensures
            self.depth@[self.rep@[x]] <= self.depth@[x],
            self.parent@[x] as int != x ==> self.depth@[self.rep@[x]] < self.depth@[x],
        decreases self.depth@[x],
    {
        if self.parent@[x] as int != x {
            self.lemma_chain_to_root(self.parent@[x] as int);
        }
    }

    /// Allocates `size` singleton classes: every element starts as its own
    /// representative.
    pub fn new(size: usize) -> (uf: UnionFind)
        ensures
            uf.wf(),
            uf.size() == size,
            forall|i: int| 0 <= i < size ==> uf.rep_of(i) == i,
    {
        let mut parent: Vec<usize> = Vec::new();
        let mut idx: usize = 0;
        while idx < size
            invariant
                idx <= size,
                parent@.len() == idx,
                forall|i: int| 0 <= i < idx ==> (#[trigger] parent@[i]) as int == i,
            decreases size - idx,
        {
            parent.push(idx);
            idx = idx + 1;
        }
        let mut rank: Vec<usize> = Vec::new();
        let mut j: usize = 0;
        while j < size
            invariant
                j <= size,
                rank@.len() == j,
                forall|i: int| 0 <= i < j ==> (#[trigger] rank@[i]) == 0,
            decreases size - j,
        {
            rank.push(0);
            j = j + 1;
        }
        let uf = UnionFind {
            parent,
            rank,
            rep: Ghost(Map::new(|i: int| 0 <= i < size, |i: int| i)),
            depth: Ghost(Map::new(|i: int| 0 <= i < size, |i: int| 0nat)),
        };
        proof {
            lemma_int_range(0, size as int);
            assert(uf.roots() =~= set_int_range(0, size as int));
        }
        uf
    }

    /// Returns the representative of `x`'s class and compresses the path:
    /// afterwards `x` (and every element visited) points straight at the
    /// root, while the partition itself is untouched.
    #[verifier::loop_isolation(false)]
    pub fn find(&mut self, x: usize) -> (r: usize)
        requires
            old(self).wf(),
            x < old(self).size(),
        ensures
            final(self).wf(),
            final(self).size() == old(self).size(),
            forall|i: int| 0 <= i < old(self).size() ==> final(self).rep_of(i) == old(self).rep_of(i),
            r < old(self).size(),
            r as int == old(self).rep_of(x as int),
            final(self).parent_of(x as int) == r as int,
            final(self).parent_of(r as int) == r as int,
    {
        let ghost orig = *self;
        let mut cur: usize = x;
        while self.parent[cur] != cur
            invariant
                *self == orig,
                cur < self.size(),
                self.rep@[cur as int] == orig.rep@[x as int],
            decreases self.depth@[cur as int],
        {
            cur = self.parent[cur];
        }
        let root = cur;
        assert(root as int == orig.rep@[x as int]);
        let mut node: usize = x;
        while self.parent[node] != node
            invariant
                self.wf(),
                self.size() == orig.size(),
                self.rep == orig.rep,
                self.depth == orig.depth,
                self.rank == orig.rank,
                node < self.size(),
                self.rep@[node as int] == root as int,
                node as int == x as int || self.parent@[x as int] as int == root as int,
            decreases self.depth@[node as int],
        {
            let next = self.parent[node];
            proof {
                self.lemma_chain_to_root(node as int);
                assert(self.rep@[node as int] != node as int);
            }
            let ghost pre = *self;
            self.parent[node] = root;
            proof {
                assert(self.roots() =~= pre.roots());
            }
            node = next;
        }
        assert(self.rep@[node as int] == node as int);
        root
    }

    /// Merges the classes of `x` and `y` and reports whether they were
    /// distinct. The new partition is the old one with exactly the classes
    /// of `x` and `y` joined: two elements end up together precisely when
    /// they already were, or when one sat with `x` and the other with `y`.
    pub fn union(&mut self, x: usize, y: usize) -> (merged: bool)
        requires
            old(self).wf(),
            x < old(self).size(),
            y < old(self).size(),
        ensures
            final(self).wf(),
            final(self).size() == old(self).size(),
            merged == !old(self).same_set(x as int, y as int),
            forall|a: int, b: int|
                0 <= a < old(self).size() && 0 <= b < old(self).size() ==> (
                #[trigger] final(self).same_set(a, b) <==> (old(self).same_set(a, b) || (old(
                    self,
                ).same_set(a, x as int) && old(self).same_set(y as int, b)) || (old(self).same_set(
                    a,
                    y as int,
                ) && old(self).same_set(x as int, b)))),
    {
        let root_x = self.find(x);
        let root_y = self.find(y);

        if root_x == root_y {
            return false;
        }
        let ghost pre = *self;
        let ghost n = pre.size();

        let bump = self.rank[root_x] == self.rank[root_y];
        let (winner, loser) = if self.rank[root_x] >= self.rank[root_y] {
            (root_x, root_y)
        } else {
            (root_y, root_x)
        };
        self.parent[loser] = winner;
        self.rep = Ghost(
            Map::new(
                |i: int| 0 <= i < n,
                |i: int|
                    if pre.rep@[i] == loser as int {
                        winner as int
                    } else {
                        pre.rep@[i]
                    },
            ),
        );
        self.depth = Ghost(
            Map::new(
                |i: int| 0 <= i < n,
                |i: int|
                    if pre.rep@[i] == loser as int {
                        (pre.depth@[i] + pre.depth@[winner as int] + 1) as nat
                    } else {
                        pre.depth@[i]
                    },
            ),
        );
        proof {
            lemma_int_range(0, n);
            lemma_len_subset(pre.roots(), set_int_range(0, n));
            axiom_set_remove_len(pre.roots(), loser as int);
            assert(self.roots() =~= pre.roots().remove(loser as int));
            assert(self.wf());
        }
        if bump {
            let ghost mid = *self;
            let total = self.parent.len();
            proof {
                axiom_set_remove_finite(pre.roots(), loser as int);
                assert(self.roots().finite());
                assert(self.roots().contains(winner as int));
                axiom_set_remove_len(self.roots(), winner as int);
                assert(self.roots().len() >= 1);
                assert(self.rank@[winner as int] < total);
            }
            let new_rank = self.rank[winner] + 1;
            self.rank[winner] = new_rank;
            proof {
                assert(self.roots() =~= mid.roots());
                assert(self.wf());
            }
        }
        true
    }
}

} // verus!
