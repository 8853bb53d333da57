//! Equivalence classes over the integers below some bound.

use vstd::prelude::*;

verus! {

/// A partition of `0..n`, which starts with every element alone and is coarsened by unions.
///
/// Each element points to one of its class that is not greater, and the least element of a class
/// points to itself.
pub struct UnionFind {
    parent: Vec<usize>,
}

/// The least element of the class of `x`.
spec fn root(p: Seq<usize>, x: int) -> int
    decreases x,
{
    if 0 <= x < p.len() && p[x] < x {
        root(p, p[x] as int)
    } else {
        x
    }
}

/// No element points to a greater one.
spec fn points_down(p: Seq<usize>) -> bool {
    forall|x: int| 0 <= x < p.len() ==> #[trigger] p[x] <= x
}

proof fn lemma_root(p: Seq<usize>, x: int)
    requires
        points_down(p),
        0 <= x < p.len(),
    ensures
        0 <= root(p, x) <= x,
        p[root(p, x)] == root(p, x),
        root(p, root(p, x)) == root(p, x),
    decreases x,
{
    if p[x] < x {
        lemma_root(p, p[x] as int);
    }
}

/// Pointing an element to another one of its class changes no class.
proof fn lemma_shortcut(p: Seq<usize>, x: int, y: usize, z: int)
    requires
        points_down(p),
        0 <= x < p.len(),
        y < x,
        p[x] < x,
        root(p, y as int) == root(p, x),
        0 <= z < p.len(),
    ensures
        root(p.update(x, y), z) == root(p, z),
    decreases z,
{
    let q = p.update(x, y);
    if z == x {
        lemma_shortcut(p, x, y, y as int);
    } else if p[z] < z {
        lemma_shortcut(p, x, y, p[z] as int);
    }
}

/// Pointing the least element of one class to the least element of another joins the two.
proof fn lemma_join(p: Seq<usize>, x: int, y: usize, z: int)
    requires
        points_down(p),
        0 <= x < p.len(),
        y < x,
        p[x] == x,
        p[y as int] == y,
        0 <= z < p.len(),
    ensures
        root(p.update(x, y), z) == if root(p, z) == x {
            y as int
        } else {
            root(p, z)
        },
    decreases z,
{
    let q = p.update(x, y);
    if z == x {
        assert(root(q, y as int) == y);
    } else if p[z] < z {
        lemma_join(p, x, y, p[z] as int);
    }
}

impl UnionFind {
    pub closed spec fn wf(&self) -> bool {
        points_down(self.parent@)
    }

    /// The number of elements.
    pub closed spec fn size(&self) -> int {
        self.parent@.len() as int
    }

    /// The two elements are in one class.
    pub closed spec fn same(&self, x: int, y: int) -> bool {
        root(self.parent@, x) == root(self.parent@, y)
    }

    /// Being in one class is an equivalence.
    pub proof fn lemma_same(&self)
        ensures
            forall|x: int| #[trigger] self.same(x, x),
            forall|x: int, y: int| #[trigger] self.same(x, y) ==> self.same(y, x),
            forall|x: int, y: int, z: int|
                #[trigger] self.same(x, y) && #[trigger] self.same(y, z) ==> self.same(x, z),
    {
    }

    /// Makes `n` classes of one element each.
    pub fn new(n: usize) -> (uf: UnionFind)
        ensures
            uf.wf(),
            uf.size() == n,
            forall|x: int, y: int|
                0 <= x < n && 0 <= y < n ==> (#[trigger] uf.same(x, y) <==> x == y),
    {
        let mut parent: Vec<usize> = Vec::with_capacity(n);
        let mut i: usize = 0;
        while i < n
            invariant
                i <= n,
                parent@.len() == i,
                forall|x: int| 0 <= x < i ==> #[trigger] parent@[x] == x,
            decreases n - i,
        {
            parent.push(i);
            i += 1;
        }
        UnionFind { parent }
    }

    /// The least element of the class of `x`. On the way there, elements are pointed closer to
    /// it.
    fn find(&mut self, x: usize) -> (r: usize)
        requires
            old(self).wf(),
            x < old(self).size(),
        ensures
            final(self).wf(),
            final(self).size() == old(self).size(),
            forall|z: int|
                0 <= z < old(self).size() ==> #[trigger] root(final(self).parent@, z) == root(
                    old(self).parent@,
                    z,
                ),
            r == root(old(self).parent@, x as int),
            r <= x,
            final(self).parent@[r as int] == r,
    {
        let ghost p0 = self.parent@;
        let mut at: usize = x;
        while self.parent[at] != at
            invariant
                at <= x < self.parent@.len() == p0.len(),
                points_down(self.parent@),
                forall|z: int|
                    0 <= z < p0.len() ==> #[trigger] root(self.parent@, z) == root(p0, z),
                root(p0, at as int) == root(p0, x as int),
            decreases at,
        {
            let ghost p1 = self.parent@;
            let up: usize = self.parent[at];
            let up2: usize = self.parent[up];
            assert(up2 <= up < at);
            assert(root(p1, at as int) == root(p1, up as int));
            assert(root(p1, up as int) == root(p1, up2 as int));
            self.parent.set(at, up2);
            proof {
                assert forall|z: int| 0 <= z < p0.len() implies #[trigger] root(
                    self.parent@,
                    z,
                ) == root(p0, z) by {
                    lemma_shortcut(p1, at as int, up2, z);
                    assert(root(p1, z) == root(p0, z));
                }
                assert(root(p0, up2 as int) == root(p1, up2 as int));
            }
            at = up2;
        }
        proof {
            assert(root(self.parent@, at as int) == at);
        }
        at
    }

    /// Joins the classes of two elements.
    pub fn union(&mut self, a: usize, b: usize)
        requires
            old(self).wf(),
            a < old(self).size(),
            b < old(self).size(),
        ensures
            final(self).wf(),
            final(self).size() == old(self).size(),
            forall|x: int, y: int|
                0 <= x < old(self).size() && 0 <= y < old(self).size() ==> (#[trigger] final(self).same(x, y) <==> {
                    ||| old(self).same(x, y)
                    ||| old(self).same(x, a as int) && old(self).same(y, b as int)
                    ||| old(self).same(x, b as int) && old(self).same(y, a as int)
                }),
    {
        let ghost p0 = self.parent@;
        let ra = self.find(a);
        let rb = self.find(b);
        let ghost p1 = self.parent@;
        proof {
            lemma_root(p0, a as int);
            lemma_root(p0, b as int);
            assert(root(p1, ra as int) == ra);
            lemma_root(p1, ra as int);
            assert(p1[ra as int] == ra);
        }
        if ra < rb {
            self.parent.set(rb, ra);
            proof {
                assert forall|z: int| 0 <= z < p0.len() implies #[trigger] root(self.parent@, z)
                    == if root(p0, z) == rb {
                    ra as int
                } else {
                    root(p0, z)
                } by {
                    lemma_join(p1, rb as int, ra, z);
                    assert(root(p1, z) == root(p0, z));
                }
            }
        } else if rb < ra {
            self.parent.set(ra, rb);
            proof {
                assert forall|z: int| 0 <= z < p0.len() implies #[trigger] root(self.parent@, z)
                    == if root(p0, z) == ra {
                    rb as int
                } else {
                    root(p0, z)
                } by {
                    lemma_join(p1, ra as int, rb, z);
                    assert(root(p1, z) == root(p0, z));
                }
            }
        }
    }

    /// The classes, each in ascending order.
    pub fn get_equiv_classes(&mut self) -> (classes: Vec<Vec<usize>>)
        requires
            old(self).wf(),
        ensures
            final(self).wf(),
            final(self).size() == old(self).size(),
            forall|x: int, y: int|
                0 <= x < old(self).size() && 0 <= y < old(self).size() ==> (#[trigger] final(self).same(x, y) <==> old(self).same(x, y)),
            are_classes(*old(self), classes@),
    {
        let ghost p0 = self.parent@;
        let n: usize = self.parent.len();
        let mut classes: Vec<Vec<usize>> = Vec::new();
        // For each element that has been met and is the least of its class, the position of that
        // class.
        let mut slot: Vec<usize> = Vec::with_capacity(n);
        let mut i: usize = 0;
        while i < n
            invariant
                i <= n == p0.len(),
                slot@.len() == i,
                self.wf(),
                self.parent@.len() == n,
                points_down(p0),
                forall|z: int| 0 <= z < n ==> #[trigger] root(self.parent@, z) == root(p0, z),
                forall|x: int|
                    0 <= x < i && root(p0, x) == x ==> {
                        &&& #[trigger] slot@[x] < classes@.len()
                        &&& classes@[slot@[x] as int]@.len() >= 1
                        &&& classes@[slot@[x] as int]@[0] == x
                    },
                forall|k: int| 0 <= k < classes@.len() ==> {
                    &&& #[trigger] classes@[k]@.len() >= 1
                    &&& classes@[k]@[0] < i
                    &&& root(p0, classes@[k]@[0] as int) == classes@[k]@[0]
                    &&& slot@[classes@[k]@[0] as int] == k
                },
                forall|k: int, a: int|
                    0 <= k < classes@.len() && 0 <= a < classes@[k]@.len() ==> {
                        &&& #[trigger] classes@[k]@[a] < i
                        &&& root(p0, classes@[k]@[a] as int) == classes@[k]@[0]
                    },
                forall|k: int, a: int, b: int|
                    0 <= k < classes@.len() && 0 <= a < b < classes@[k]@.len()
                        ==> #[trigger] classes@[k]@[a] < #[trigger] classes@[k]@[b],
                forall|x: int|
                    0 <= x < i ==> classes@[slot@[#[trigger] root(p0, x)] as int]@.contains(
                        x as usize,
                    ),
            decreases n - i,
        {
            let r = self.find(i);
            let ghost before = classes@;
            let ghost slot0 = slot@;
            proof {
                lemma_root(p0, i as int);
                assert(root(self.parent@, i as int) == root(p0, i as int));
            }
            if r == i {
                let mut class: Vec<usize> = Vec::new();
                class.push(i);
                slot.push(classes.len());
                classes.push(class);
            } else {
                let k: usize = slot[r];
                slot.push(0);
                classes[k].push(i);
            }
            proof {
                assert forall|x: int| 0 <= x < i + 1 implies classes@[slot@[#[trigger] root(
                    p0,
                    x,
                )] as int]@.contains(x as usize) by {
                    lemma_root(p0, x);
                    let k = slot@[root(p0, x)] as int;
                    if x == i {
                        let c = classes@[k]@;
                        assert(c[c.len() - 1] == i);
                    } else {
                        assert(slot0[root(p0, x)] == k);
                        assert(root(p0, root(p0, x)) == root(p0, x));
                        let c = before[k]@;
                        let a = choose|a: int| 0 <= a < c.len() && c[a] == x as usize;
                        assert(classes@[k]@[a] == x as usize);
                    }
                }
            }
            i += 1;
        }
        proof {
            assert forall|x: int| 0 <= x < n implies #[trigger] in_some_class(classes@, x) by {
                lemma_root(p0, x);
                let k = slot@[root(p0, x)] as int;
                assert(classes@[k]@.contains(x as usize));
            }
        }
        classes
    }
}

/// The element is in one of the classes.
pub open spec fn in_some_class(classes: Seq<Vec<usize>>, x: int) -> bool {
    exists|k: int| 0 <= k < classes.len() && (#[trigger] classes[k])@.contains(x as usize)
}

/// `classes` lists the classes of a partition: each holds its elements in ascending order, every
/// element is in one of them, and two elements are in the same one exactly if they are
/// equivalent.
pub open spec fn are_classes(uf: UnionFind, classes: Seq<Vec<usize>>) -> bool {
    &&& forall|k: int| 0 <= k < classes.len() ==> (#[trigger] classes[k])@.len() >= 1
    &&& forall|k: int, a: int|
        0 <= k < classes.len() && 0 <= a < classes[k]@.len() ==> #[trigger] classes[k]@[a]
            < uf.size()
    &&& forall|k: int, a: int, b: int|
        0 <= k < classes.len() && 0 <= a < b < classes[k]@.len() ==> #[trigger] classes[k]@[a]
            < #[trigger] classes[k]@[b]
    &&& forall|x: int|
        0 <= x < uf.size() ==> #[trigger] in_some_class(classes, x)
    &&& forall|k: int, a: int, l: int, b: int|
        0 <= k < classes.len() && 0 <= a < classes[k]@.len() && 0 <= l < classes.len() && 0 <= b
            < classes[l]@.len() ==> (uf.same(
            #[trigger] classes[k]@[a] as int,
            #[trigger] classes[l]@[b] as int,
        ) <==> k == l)
}

} // verus!
