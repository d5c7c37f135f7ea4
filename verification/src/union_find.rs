//! A disjoint-set forest over the elements `0..len`, held in one array of
//! parents, with path compression on lookup and union by representative.

use vstd::prelude::*;

verus! {

/// A forest: every parent is an element, and walking from an element to
/// its parent lowers the depth until a root, which is its own parent, is
/// reached.
pub open spec fn forest_wf(parent: Seq<usize>, depth: Seq<nat>) -> bool {
    &&& depth.len() == parent.len()
    &&& forall|x: int|
        0 <= x < parent.len() ==> (#[trigger] parent[x]) < parent.len() && (parent[x] != x
            ==> depth[parent[x] as int] < depth[x])
}

/// The root of the tree that holds `x`.
pub open spec fn root_of(parent: Seq<usize>, depth: Seq<nat>, x: int) -> int
    decreases depth[x],
{
    if forest_wf(parent, depth) && 0 <= x < parent.len() && parent[x] != x {
        root_of(parent, depth, parent[x] as int)
    } else {
        x
    }
}

/// The labels after the set of `a` has been merged into the set of `b`:
/// whatever carried the label of `a` now carries the label of `b`.
pub open spec fn merged(labels: Seq<int>, a: int, b: int) -> Seq<int> {
    Seq::new(
        labels.len(),
        |x: int|
            if labels[x] == labels[a] {
                labels[b]
            } else {
                labels[x]
            },
    )
}

/// Labels that name a partition: each label is an element, and labels
/// itself.
pub open spec fn labels_wf(labels: Seq<int>) -> bool {
    forall|x: int|
        0 <= x < labels.len() ==> 0 <= (#[trigger] labels[x]) < labels.len()
            && labels[labels[x]] == labels[x]
}

proof fn lemma_root(parent: Seq<usize>, depth: Seq<nat>, x: int)
    requires
        forest_wf(parent, depth),
        0 <= x < parent.len(),
    ensures
        0 <= root_of(parent, depth, x) < parent.len(),
        parent[root_of(parent, depth, x)] == root_of(parent, depth, x),
        root_of(parent, depth, root_of(parent, depth, x)) == root_of(parent, depth, x),
        depth[root_of(parent, depth, x)] <= depth[x],
        root_of(parent, depth, x) != x ==> depth[root_of(parent, depth, x)] < depth[x],
        root_of(parent, depth, parent[x] as int) == root_of(parent, depth, x),
    decreases depth[x],
{
    if parent[x] != x {
        lemma_root(parent, depth, parent[x] as int);
    }
}

/// Pointing an element at any shallower element of its own tree keeps the
/// forest, and keeps every root.
proof fn lemma_compress(parent: Seq<usize>, depth: Seq<nat>, x: int, y: usize, z: int)
    requires
        forest_wf(parent, depth),
        0 <= x < parent.len(),
        y < parent.len(),
        depth[y as int] < depth[x],
        root_of(parent, depth, y as int) == root_of(parent, depth, x),
        0 <= z < parent.len(),
    ensures
        forest_wf(parent.update(x, y), depth),
        root_of(parent.update(x, y), depth, z) == root_of(parent, depth, z),
    decreases depth[z],
{
    let after = parent.update(x, y);
    assert(forest_wf(after, depth)) by {
        assert forall|q: int| 0 <= q < after.len() implies (#[trigger] after[q]) < after.len() && (
        after[q] != q ==> depth[after[q] as int] < depth[q]) by {
            assert(parent[q] < parent.len());
        }
    }
    if z == x {
        lemma_compress(parent, depth, x, y, y as int);
        lemma_root(parent, depth, x);
    } else if parent[z] != z {
        lemma_compress(parent, depth, x, y, parent[z] as int);
    }
}

/// The depths after the root `ra` has been hung below the root `rb`: the
/// tree of `ra` sinks below `rb`.
spec fn sunk(parent: Seq<usize>, depth: Seq<nat>, ra: int, rb: int) -> Seq<nat> {
    Seq::new(
        depth.len(),
        |q: int|
            if root_of(parent, depth, q) == ra {
                depth[q] + depth[rb] + 1
            } else {
                depth[q]
            },
    )
}

/// Hanging one root below another keeps the forest, and moves the elements
/// of the first tree, and no others, to the second root.
proof fn lemma_link(parent: Seq<usize>, depth: Seq<nat>, ra: usize, rb: usize, z: int)
    requires
        forest_wf(parent, depth),
        ra < parent.len(),
        rb < parent.len(),
        parent[ra as int] == ra,
        parent[rb as int] == rb,
        ra != rb,
        0 <= z < parent.len(),
    ensures
        forest_wf(parent.update(ra as int, rb), sunk(parent, depth, ra as int, rb as int)),
        root_of(parent.update(ra as int, rb), sunk(parent, depth, ra as int, rb as int), z) == (
        if root_of(parent, depth, z) == ra {
            rb as int
        } else {
            root_of(parent, depth, z)
        }),
    decreases depth[z],
{
    let after = parent.update(ra as int, rb);
    let deeper = sunk(parent, depth, ra as int, rb as int);
    assert(forest_wf(after, deeper)) by {
        assert forall|q: int| 0 <= q < after.len() implies (#[trigger] after[q]) < after.len() && (
        after[q] != q ==> deeper[after[q] as int] < deeper[q]) by {
            assert(parent[q] < parent.len());
            lemma_root(parent, depth, q);
        }
    }
    if z == ra {
        assert(root_of(after, deeper, rb as int) == rb);
    } else if parent[z] != z {
        lemma_link(parent, depth, ra, rb, parent[z] as int);
        lemma_root(parent, depth, z);
    }
}

/// A partition of `0..len` into disjoint sets, each named by one of its
/// elements.
pub struct UnionFind {
    parent: Vec<usize>,
    depth: Ghost<Seq<nat>>,
}

impl View for UnionFind {
    type V = Seq<int>;

    /// For each element, the representative of its set.
    closed spec fn view(&self) -> Seq<int> {
        Seq::new(self.parent@.len(), |x: int| root_of(self.parent@, self.depth@, x))
    }
}

impl UnionFind {
    /// The parents form a forest.
    pub closed spec fn wf(&self) -> bool {
        forest_wf(self.parent@, self.depth@)
    }

    /// The representatives of a forest name a partition.
    pub proof fn lemma_labels(&self)
        requires
            self.wf(),
        ensures
            labels_wf(self@),
    {
        assert forall|x: int| 0 <= x < self@.len() implies 0 <= (#[trigger] self@[x])
            < self@.len() && self@[self@[x]] == self@[x] by {
            lemma_root(self.parent@, self.depth@, x);
        }
    }

    /// The partition of `0..len` into singletons.
    pub fn new(len: usize) -> (uf: UnionFind)
        ensures
            uf.wf(),
            uf@ == Seq::new(len as nat, |x: int| x),
    {
        let mut parent: Vec<usize> = Vec::new();
        let mut k: usize = 0;
        while k < len
            invariant
                k <= len,
                parent@.len() == k,
                forall|q: int| 0 <= q < k ==> parent@[q] == q,
            decreases len - k,
        {
            parent.push(k);
            k = k + 1;
        }
        let uf = UnionFind { parent, depth: Ghost(Seq::new(len as nat, |x: int| 0nat)) };
        proof {
            assert(uf@ =~= Seq::new(len as nat, |x: int| x));
        }
        uf
    }

    /// The number of elements.
    pub fn len(&self) -> (r: usize)
        ensures
            r == self@.len(),
    {
        self.parent.len()
    }

    /// The representative of the set that holds `x`. Every element on the
    /// way to it is pointed at it; the partition stays as it was.
    pub fn find(&mut self, x: usize) -> (root: usize)
        requires
            old(self).wf(),
            x < old(self)@.len(),
        ensures
            final(self).wf(),
            final(self)@ == old(self)@,
            root == old(self)@[x as int],
    {
        let mut root = x;
        while self.parent[root] != root
            invariant
                self.wf(),
                self.parent@ == old(self).parent@,
                self.depth@ == old(self).depth@,
                root < self.parent@.len(),
                root_of(self.parent@, self.depth@, root as int) == root_of(
                    self.parent@,
                    self.depth@,
                    x as int,
                ),
            decreases self.depth@[root as int],
        {
            proof {
                lemma_root(self.parent@, self.depth@, root as int);
            }
            root = self.parent[root];
        }
        let mut cur = x;
        while cur != root
            invariant
                self.wf(),
                self@ == old(self)@,
                self.depth@ == old(self).depth@,
                cur < self.parent@.len(),
                root < self.parent@.len(),
                root == old(self)@[x as int],
                self.parent@[root as int] == root,
                root_of(self.parent@, self.depth@, cur as int) == root,
            decreases self.depth@[cur as int],
        {
            let next = self.parent[cur];
            proof {
                lemma_root(self.parent@, self.depth@, cur as int);
                assert forall|z: int| 0 <= z < self.parent@.len() implies root_of(
                    self.parent@.update(cur as int, root),
                    self.depth@,
                    z,
                ) == root_of(self.parent@, self.depth@, z) by {
                    lemma_compress(self.parent@, self.depth@, cur as int, root, z);
                }
                lemma_compress(self.parent@, self.depth@, cur as int, root, cur as int);
            }
            let ghost before = self@;
            self.parent[cur] = root;
            proof {
                assert(self@ =~= before);
            }
            cur = next;
        }
        root
    }

    /// Merges the set that holds `a` into the set that holds `b`: the
    /// representative of `b` comes to stand for both.
    pub fn union(&mut self, a: usize, b: usize)
        requires
            old(self).wf(),
            a < old(self)@.len(),
            b < old(self)@.len(),
        ensures
            final(self).wf(),
            final(self)@ == merged(old(self)@, a as int, b as int),
    {
        let ra = self.find(a);
        let rb = self.find(b);
        proof {
            lemma_root(self.parent@, self.depth@, a as int);
            lemma_root(self.parent@, self.depth@, b as int);
        }
        if ra != rb {
            let ghost parent = self.parent@;
            let ghost depth = self.depth@;
            proof {
                assert forall|z: int| 0 <= z < parent.len() implies root_of(
                    parent.update(ra as int, rb),
                    sunk(parent, depth, ra as int, rb as int),
                    z,
                ) == (if root_of(parent, depth, z) == ra {
                    rb as int
                } else {
                    root_of(parent, depth, z)
                }) by {
                    lemma_link(parent, depth, ra, rb, z);
                }
                lemma_link(parent, depth, ra, rb, ra as int);
            }
            self.parent[ra] = rb;
            self.depth = Ghost(sunk(parent, depth, ra as int, rb as int));
        }
        proof {
            assert(self@ =~= merged(old(self)@, a as int, b as int));
        }
    }
}

} // verus!
