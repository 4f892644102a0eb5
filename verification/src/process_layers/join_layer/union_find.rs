use vstd::prelude::*;

verus! {

/// Every non-negative entry points to a larger index within the forest.
pub open spec fn forest_ok(roots: Seq<i64>) -> bool {
    forall|x: int| 0 <= x < roots.len() && roots[x] >= 0 ==> x < #[trigger] roots[x] < roots.len()
}

/// The root of `x` in the forest: follow the parents until a negative entry.
pub open spec fn root_of(roots: Seq<i64>, x: int) -> int
    decreases roots.len() - x,
{
    if x < 0 || x >= roots.len() || roots[x] < 0 || roots[x] <= x || roots[x] >= roots.len() {
        x
    } else {
        root_of(roots, roots[x] as int)
    }
}

/// In a well-formed forest the root of `x` is a root, at or above `x`.
pub proof fn lemma_root_of(roots: Seq<i64>, x: int)
    requires
        forest_ok(roots),
        0 <= x < roots.len(),
    ensures
        x <= root_of(roots, x) < roots.len(),
        roots[root_of(roots, x)] < 0,
        root_of(roots, root_of(roots, x)) == root_of(roots, x),
        roots[x] < 0 ==> root_of(roots, x) == x,
        roots[x] >= 0 ==> root_of(roots, x) <= i64::MAX && root_of(roots, x) != x,
    decreases roots.len() - x,
{
    if roots[x] >= 0 {
        lemma_root_of(roots, roots[x] as int);
    }
}

/// When every entry and `x` lie below `b`, so does the root of `x`.
pub proof fn lemma_root_below(roots: Seq<i64>, x: int, b: int)
    requires
        forest_ok(roots),
        0 <= x < roots.len(),
        x < b,
        forall|z: int| 0 <= z < roots.len() ==> #[trigger] roots[z] < b,
    ensures
        root_of(roots, x) < b,
    decreases roots.len() - x,
{
    if roots[x] >= 0 {
        lemma_root_below(roots, roots[x] as int, b);
    }
}

/// Pointing a node straight at its root keeps every root.
proof fn lemma_compress(roots: Seq<i64>, y: int, x: int)
    requires
        forest_ok(roots),
        0 <= y < roots.len(),
        roots[y] >= 0,
        0 <= x < roots.len(),
    ensures
        forest_ok(roots.update(y, root_of(roots, y) as i64)),
        root_of(roots.update(y, root_of(roots, y) as i64), x) == root_of(roots, x),
    decreases roots.len() - x,
{
    let r = root_of(roots, y);
    let s = roots.update(y, r as i64);
    lemma_root_of(roots, y);
    lemma_root_of(roots, x);
    assert(r != y);
    assert forall|z: int| 0 <= z < s.len() && s[z] >= 0 implies z < #[trigger] s[z] < s.len() by {
        if z == y {
        } else {
            assert(s[z] == roots[z]);
        }
    }
    if x == y {
        assert(s[r] == roots[r]);
        assert(root_of(s, r) == r);
    } else if roots[x] >= 0 {
        lemma_compress(roots, y, roots[x] as int);
    }
}

/// Hanging the roots `r1` and `r2` under the root `nr` above them sends whatever was under
/// either to `nr` and leaves every other root as it was.
proof fn lemma_link_roots(s: Seq<i64>, r1: int, r2: int, nr: int, h: i64, x: int)
    requires
        forest_ok(s),
        0 <= r1 < nr,
        0 <= r2 < nr,
        nr < s.len(),
        nr < i64::MAX,
        s[r1] < 0,
        s[r2] < 0,
        s[nr] < 0,
        h < 0,
        0 <= x < s.len(),
    ensures
        root_of(s.update(nr, h).update(r1, nr as i64).update(r2, nr as i64), x) == (if root_of(s, x) == r1 || root_of(s, x)
            == r2 {
            nr
        } else {
            root_of(s, x)
        }),
    decreases s.len() - x,
{
    let t = s.update(nr, h).update(r1, nr as i64).update(r2, nr as i64);
    assert(t.len() == s.len());
    if x == nr {
        assert(t[nr] == h);
        assert(root_of(t, x) == x);
        assert(root_of(s, x) == x);
    } else if x == r1 || x == r2 {
        assert(t[x] == nr);
        lemma_link_roots(s, r1, r2, nr, h, nr);
        assert(root_of(t, x) == root_of(t, nr));
        assert(root_of(s, x) == x);
    } else {
        assert(t[x] == s[x]);
        if s[x] >= 0 {
            assert(x < s[x] < s.len());
            lemma_link_roots(s, r1, r2, nr, h, s[x] as int);
            assert(root_of(t, x) == root_of(t, s[x] as int));
            assert(root_of(s, x) == root_of(s, s[x] as int));
        } else {
            assert(root_of(t, x) == x);
            assert(root_of(s, x) == x);
        }
    }
}

/// Union-find over the buffers, where a merge creates a new root above the two trees.
///
/// For element `id`, if `roots[id] < 0`, then `id` is the root of its tree and `-roots[id]` is
/// the height of the buffer it stands for; otherwise `roots[id]` is its parent.
pub struct UnionFind {
    pub roots: Vec<i64>,
}

impl UnionFind {
    /// `size` separate trees of height 1.
    pub fn new(size: usize) -> (res: Self)
        ensures
            res.roots@.len() == size,
            forall|x: int| 0 <= x < size ==> #[trigger] res.roots@[x] == -1,
    {
        let mut roots: Vec<i64> = Vec::new();
        let mut k: usize = 0;
        while k < size
            invariant
                k <= size,
                roots@.len() == k,
                forall|x: int| 0 <= x < k ==> #[trigger] roots@[x] == -1,
            decreases size - k,
        {
            roots.push(-1);
            k += 1;
        }
        UnionFind { roots }
    }

    /// Return the root element for `id`, pointing the nodes on the way straight at it.
    pub fn get_root(&mut self, id: usize) -> (res: usize)
        requires
            forest_ok(old(self).roots@),
            id < old(self).roots@.len(),
        ensures
            res == root_of(old(self).roots@, id as int),
            forest_ok(final(self).roots@),
            final(self).roots@.len() == old(self).roots@.len(),
            forall|x: int| 0 <= x < id ==> #[trigger] final(self).roots@[x] == old(self).roots@[x],
            forall|x: int|
                0 <= x < old(self).roots@.len() ==> {
                    &&& root_of(final(self).roots@, x) == root_of(old(self).roots@, x)
                    &&& (old(self).roots@[x] < 0 ==> #[trigger] final(self).roots@[x] == old(self).roots@[x])
                    &&& (old(self).roots@[x] >= 0 ==> final(self).roots@[x] == old(self).roots@[x]
                        || final(self).roots@[x] == root_of(old(self).roots@, x))
                },
        decreases old(self).roots@.len() - id,
    {
        let n = self.roots.len();
        let parent = self.roots[id];
        if parent < 0 {
            proof {
                lemma_root_of(self.roots@, id as int);
            }
            id
        } else {
            assert(id < self.roots@[id as int] < self.roots@.len());
            let ghost s0 = self.roots@;
            let root = self.get_root(parent as usize);
            let ghost s1 = self.roots@;
            proof {
                lemma_root_of(s0, id as int);
                lemma_root_of(s1, id as int);
                assert(root_of(s0, id as int) == root_of(s0, parent as int));
                assert(s1[id as int] == s0[id as int]);
                assert(root_of(s1, id as int) == root as int);
                assert forall|x: int| 0 <= x < s1.len() implies root_of(s1.update(id as int, root as i64), x) == root_of(s1, x) by {
                    lemma_compress(s1, id as int, x);
                }
                lemma_compress(s1, id as int, 0);
            }
            self.roots.set(id, root as i64);
            root
        }
    }

    /// Return the height of the buffer whose root is `id`.
    pub fn get_height(&self, id: usize) -> (res: u32)
        requires
            id < self.roots@.len(),
            i64::MIN < self.roots@[id as int] < 0,
        ensures
            res == (-self.roots@[id as int]) as u32,
    {
        (-self.roots[id]) as u32
    }

    /// Merge the trees of `id1` and `id2` under the new root `new_root`, one higher than the
    /// higher of the two. Nothing changes when they are already in one tree.
    pub fn merge(&mut self, id1: usize, id2: usize, new_root: usize)
        requires
            forest_ok(old(self).roots@),
            id1 < new_root,
            id2 < new_root,
            new_root < old(self).roots@.len(),
            new_root < i64::MAX,
            old(self).roots@[new_root as int] < 0,
            forall|x: int| 0 <= x < old(self).roots@.len() ==> #[trigger] old(self).roots@[x] < new_root as int,
            forall|x: int| 0 <= x < old(self).roots@.len() ==> #[trigger] old(self).roots@[x] > i64::MIN + 1,
        ensures
            forest_ok(final(self).roots@),
            final(self).roots@.len() == old(self).roots@.len(),
            ({
                let r1 = root_of(old(self).roots@, id1 as int);
                let r2 = root_of(old(self).roots@, id2 as int);
                if r1 == r2 {
                    forall|x: int| 0 <= x < old(self).roots@.len() ==> root_of(final(self).roots@, x) == root_of(old(self).roots@, x)
                        && (old(self).roots@[x] < 0 <==> #[trigger] final(self).roots@[x] < 0)
                        && (old(self).roots@[x] < 0 ==> final(self).roots@[x] == old(self).roots@[x])
                        && (old(self).roots@[x] >= 0 ==> final(self).roots@[x] == old(self).roots@[x]
                            || final(self).roots@[x] == root_of(old(self).roots@, x))
                } else {
                    &&& final(self).roots@[r1] == new_root as i64
                    &&& final(self).roots@[r2] == new_root as i64
                    &&& final(self).roots@[new_root as int] == (if old(self).roots@[r1] <= old(self).roots@[r2] {
                        old(self).roots@[r1]
                    } else {
                        old(self).roots@[r2]
                    }) - 1
                    &&& forall|x: int| 0 <= x < old(self).roots@.len() ==> #[trigger] root_of(final(self).roots@, x) == (
                        if root_of(old(self).roots@, x) == r1 || root_of(old(self).roots@, x) == r2 {
                            new_root as int
                        } else {
                            root_of(old(self).roots@, x)
                        })
                    &&& forall|x: int| 0 <= x < old(self).roots@.len() && x != r1 && x != r2 && x != new_root ==> {
                        &&& (old(self).roots@[x] < 0 ==> #[trigger] final(self).roots@[x] == old(self).roots@[x])
                        &&& (old(self).roots@[x] >= 0 ==> final(self).roots@[x] >= 0 && (final(self).roots@[x]
                            == old(self).roots@[x] || final(self).roots@[x] == root_of(old(self).roots@, x)))
                    }
                }
            }),
    {
        let ghost s0 = self.roots@;
        let root1 = self.get_root(id1);
        let root2 = self.get_root(id2);
        let ghost s2 = self.roots@;
        proof {
            lemma_root_of(s0, id1 as int);
            lemma_root_of(s0, id2 as int);
            lemma_root_of(s0, new_root as int);
            lemma_root_below(s0, id1 as int, new_root as int);
            lemma_root_below(s0, id2 as int, new_root as int);
        }
        if root1 == root2 {
            proof {
                assert forall|x: int| 0 <= x < s0.len() implies (s0[x] < 0 <==> #[trigger] s2[x] < 0) by {
                    if s0[x] >= 0 {
                        lemma_root_of(s0, x);
                    }
                }
            }
            return;
        }
        let h1 = self.roots[root1];
        let h2 = self.roots[root2];
        let lower = if h1 <= h2 { h1 } else { h2 };
        self.roots.set(new_root, lower - 1);
        self.roots.set(root1, new_root as i64);
        self.roots.set(root2, new_root as i64);
        proof {
            assert forall|x: int| 0 <= x < s0.len() implies #[trigger] root_of(self.roots@, x) == (
                if root_of(s0, x) == root1 || root_of(s0, x) == root2 {
                    new_root as int
                } else {
                    root_of(s0, x)
                }) by {
                lemma_link_roots(s2, root1 as int, root2 as int, new_root as int, (lower - 1) as i64, x);
            }
            assert forall|x: int| 0 <= x < self.roots@.len() && self.roots@[x] >= 0 implies x < #[trigger] self.roots@[x] < self.roots@.len() by {
                if x == root1 || x == root2 {
                } else if x == new_root {
                } else {
                    assert(self.roots@[x] == s2[x]);
                }
            }
            assert forall|x: int| 0 <= x < s0.len() && x != root1 && x != root2 && x != new_root && s0[x] >= 0 implies #[trigger] self.roots@[x] >= 0 by {
                lemma_root_of(s0, x);
            }
        }
    }
}

} // verus!
