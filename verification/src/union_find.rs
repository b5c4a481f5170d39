//! Disjoint-set structure (union-find) over a fixed universe `{0, ..., n-1}`,
//! with union by size and path compression.

use vstd::prelude::*;
use vstd::set_lib::lemma_int_range;
use vstd::set_lib::lemma_len_subset;
use vstd::set_lib::set_int_range;

verus! {

/// Partition of `{0, ..., n-1}` into disjoint sets.
///
/// `parent[v] == v` exactly when `v` is the representative (root) of its set;
/// at a root, `size` records how many elements resolve to that root. Along
/// every parent chain the recorded sizes strictly increase, so each chain
/// reaches a root in finitely many steps. The tables are open to inspection;
/// the verified operations require and preserve `wf`.
#[derive(Clone, Debug)]
pub struct UnionFind {
    pub parent: Vec<usize>,
    pub size: Vec<usize>,
}

/// The parent and size tables form well-founded chains: every parent pointer
/// stays in range, sizes lie in `[1, n]`, and sizes strictly increase from a
/// child to its parent.
pub open spec fn chain_ok(p: Seq<usize>, s: Seq<usize>) -> bool {
    &&& s.len() == p.len()
    &&& forall|v: int| 0 <= v < p.len() ==> (#[trigger] p[v]) < p.len()
    &&& forall|v: int| 0 <= v < p.len() ==> 1 <= #[trigger] s[v] <= p.len()
    &&& forall|v: int| 0 <= v < p.len() && (#[trigger] p[v]) != v ==> s[v] < s[p[v] as int]
}

/// Representative reached from `v` by following parent pointers. The size
/// table takes no part in the answer; it only supplies the termination
/// measure for the walk.
pub open spec fn root_of(p: Seq<usize>, s: Seq<usize>, v: int) -> int
    decreases s.len() - s[v]
        when 0 <= v < p.len() && chain_ok(p, s)
{
    if p[v] == v {
        v
    } else {
        root_of(p, s, p[v] as int)
    }
}

impl UnionFind {
    /// Number of elements in the universe.
    pub open spec fn n(self) -> nat {
        self.parent@.len()
    }

    /// Representative of the set containing `v`.
    pub open spec fn root(self, v: int) -> int {
        root_of(self.parent@, self.size@, v)
    }

    /// Whether `a` and `b` currently belong to the same set.
    pub open spec fn same_set(self, a: int, b: int) -> bool {
        self.root(a) == self.root(b)
    }

    /// The set of elements whose representative is `r`.
    pub open spec fn class_of(self, r: int) -> Set<int> {
        Set::new(|u: int| 0 <= u < self.n() && self.root(u) == r)
    }

    /// Structure invariant: chains are well founded and the size recorded at
    /// every root equals the exact number of elements resolving to it.
    pub open spec fn wf(self) -> bool {
        &&& chain_ok(self.parent@, self.size@)
        &&& forall|r: int|
            0 <= r < self.n() && (#[trigger] self.parent@[r]) == r ==> self.size@[r]
                == self.class_of(r).len()
    }
}

/// The representative is a root, is reached from every element of its set,
/// and carries a strictly larger size than any other element of the chain.
pub proof fn lemma_root_props(p: Seq<usize>, s: Seq<usize>, v: int)
    requires
        chain_ok(p, s),
        0 <= v < p.len(),
    ensures
        0 <= root_of(p, s, v) < p.len(),
        p[root_of(p, s, v)] == root_of(p, s, v),
        root_of(p, s, v) == v <==> p[v] == v,
        v != root_of(p, s, v) ==> s[v] < s[root_of(p, s, v)],
    decreases s.len() - s[v],
{
    if p[v] != v {
        lemma_root_props(p, s, p[v] as int);
    }
}

proof fn lemma_relink_chain_ok(p: Seq<usize>, s: Seq<usize>, x: int, rt: usize)
    requires
        chain_ok(p, s),
        0 <= x < p.len(),
        rt < p.len(),
        p[rt as int] == rt,
        s[x] < s[rt as int],
    ensures
        chain_ok(p.update(x, rt), s),
{
    let p2 = p.update(x, rt);
    assert forall|v: int| 0 <= v < p2.len() && (#[trigger] p2[v]) != v implies s[v] < s[p2[v] as int] by {
        if v != x {
            assert(p2[v] == p[v]);
        }
    }
}

/// Relinking an element directly to its own root changes no representative.
proof fn lemma_relink_root(p: Seq<usize>, s: Seq<usize>, x: int, rt: usize, u: int)
    requires
        chain_ok(p, s),
        chain_ok(p.update(x, rt), s),
        0 <= x < p.len(),
        rt < p.len(),
        p[rt as int] == rt,
        s[x] < s[rt as int],
        root_of(p, s, x) == rt,
        0 <= u < p.len(),
    ensures
        root_of(p.update(x, rt), s, u) == root_of(p, s, u),
    decreases s.len() - s[u],
{
    let p2 = p.update(x, rt);
    if p[x as int] == x {
        assert(root_of(p, s, x) == x);
        assert(false);
    }
    if u == x {
        assert(p2[u] == rt);
        assert(root_of(p2, s, u) == root_of(p2, s, rt as int));
        assert(p2[rt as int] == rt);
        assert(root_of(p2, s, rt as int) == rt);
    } else if p[u] == u {
        assert(p2[u] == p[u]);
    } else {
        assert(p2[u] == p[u]);
        lemma_relink_root(p, s, x, rt, p[u] as int);
    }
}

proof fn lemma_merge_chain_ok(p: Seq<usize>, s: Seq<usize>, ra: usize, rb: usize)
    requires
        chain_ok(p, s),
        ra < p.len(),
        rb < p.len(),
        ra != rb,
        p[ra as int] == ra,
        p[rb as int] == rb,
        s[ra as int] + s[rb as int] <= p.len(),
        p.len() <= usize::MAX,
    ensures
        chain_ok(
            p.update(rb as int, ra),
            s.update(ra as int, (s[ra as int] + s[rb as int]) as usize),
        ),
{
    let p2 = p.update(rb as int, ra);
    let s2 = s.update(ra as int, (s[ra as int] + s[rb as int]) as usize);
    assert forall|v: int| 0 <= v < p2.len() && (#[trigger] p2[v]) != v implies s2[v] < s2[p2[v] as int] by {
        if v == rb {
            assert(p2[v] == ra);
            assert(s2[v] == s[v]);
        } else {
            assert(p2[v] == p[v]);
        }
    }
}

/// After attaching root `rb` below root `ra`, the elements of `rb`'s set now
/// resolve to `ra`; every other element keeps its representative.
proof fn lemma_merge_root(p: Seq<usize>, s: Seq<usize>, ra: usize, rb: usize, u: int)
    requires
        chain_ok(p, s),
        chain_ok(
            p.update(rb as int, ra),
            s.update(ra as int, (s[ra as int] + s[rb as int]) as usize),
        ),
        ra < p.len(),
        rb < p.len(),
        ra != rb,
        p[ra as int] == ra,
        p[rb as int] == rb,
        s[ra as int] + s[rb as int] <= p.len(),
        p.len() <= usize::MAX,
        0 <= u < p.len(),
    ensures
        root_of(
            p.update(rb as int, ra),
            s.update(ra as int, (s[ra as int] + s[rb as int]) as usize),
            u,
        ) == if root_of(p, s, u) == rb {
            ra as int
        } else {
            root_of(p, s, u)
        },
    decreases s.len() - s[u],
{
    let p2 = p.update(rb as int, ra);
    let s2 = s.update(ra as int, (s[ra as int] + s[rb as int]) as usize);
    if u == rb {
        assert(p2[u] == ra);
        assert(root_of(p2, s2, u) == root_of(p2, s2, ra as int));
        assert(p2[ra as int] == ra);
    } else if p[u] == u {
        assert(p2[u] == p[u]);
    } else {
        assert(p2[u] == p[u]);
        lemma_merge_root(p, s, ra, rb, p[u] as int);
        assert(root_of(p, s, u) == root_of(p, s, p[u] as int));
    }
}

/// The union of two disjoint finite sets has the sum of their cardinalities.
pub proof fn lemma_disjoint_union_len<A>(s1: Set<A>, s2: Set<A>)
    requires
        s1.finite(),
        s2.finite(),
        s1.disjoint(s2),
    ensures
        s1.union(s2).finite(),
        s1.union(s2).len() == s1.len() + s2.len(),
    decreases s2.len(),
{
    if s2.is_empty() {
        assert(s1.union(s2) =~= s1);
    } else {
        let a = s2.choose();
        assert(s2.contains(a));
        let s2r = s2.remove(a);
        lemma_disjoint_union_len(s1, s2r);
        assert(s1.union(s2) =~= s1.union(s2r).insert(a));
        assert(!s1.union(s2r).contains(a));
    }
}

/// What a merge of the sets of `a` and `b` does to the partition: two
/// elements share a set afterwards exactly when they already did, or when one
/// was with `a` and the other with `b`.
pub open spec fn union_post(pre: UnionFind, post: UnionFind, a: int, b: int) -> bool {
    &&& post.n() == pre.n()
    &&& forall|u: int, w: int|
        #![trigger post.root(u), post.root(w)]
        #![trigger pre.root(u), pre.root(w)]
        0 <= u < pre.n() && 0 <= w < pre.n() ==> (post.root(u) == post.root(w) <==> (pre.root(u)
            == pre.root(w) || (pre.root(u) == pre.root(a) && pre.root(w) == pre.root(b)) || (
        pre.root(u) == pre.root(b) && pre.root(w) == pre.root(a))))
}

impl UnionFind {
    /// Builds `n` singleton sets `{0}, ..., {n-1}`; `n` may be zero.
    pub fn new(size: usize) -> (uf: UnionFind)
        ensures
            uf.wf(),
            uf.n() == size,
            forall|v: int| 0 <= v < size ==> #[trigger] uf.root(v) == v,
    {
        let mut parent: Vec<usize> = Vec::new();
        let mut sz: Vec<usize> = Vec::new();
        let mut i: usize = 0;
        while i < size
            invariant
                i <= size,
                parent@.len() == i,
                sz@.len() == i,
                forall|v: int| 0 <= v < i ==> (#[trigger] parent@[v]) == v,
                forall|v: int| 0 <= v < i ==> (#[trigger] sz@[v]) == 1,
            decreases size - i,
        {
            parent.push(i);
            sz.push(1);
            i += 1;
        }
        let uf = UnionFind { parent, size: sz };
        proof {
            assert(chain_ok(uf.parent@, uf.size@));
            assert forall|v: int| 0 <= v < size implies #[trigger] uf.root(v) == v by {
                assert(uf.parent@[v] == v);
            }
            assert forall|r: int|
                0 <= r < uf.n() && (#[trigger] uf.parent@[r]) == r implies uf.size@[r]
                == uf.class_of(r).len() by {
                assert(uf.class_of(r) =~= Set::empty().insert(r));
            }
        }
        uf
    }

    /// Representative of the set containing `v`, flattening the visited chain
    /// so that each visited element points directly at the root afterwards.
    /// The partition itself is unchanged.
    pub fn find_set(&mut self, v: usize) -> (r: usize)
        requires
            old(self).wf(),
            v < old(self).n(),
        ensures
            final(self).wf(),
            final(self).n() == old(self).n(),
            final(self).size@ == old(self).size@,
            r == old(self).root(v as int),
            r < final(self).n(),
            final(self).parent@[r as int] == r,
            forall|u: int|
                0 <= u < final(self).n() ==> #[trigger] final(self).root(u) == old(self).root(u),
    {
        let ghost pre = *self;
        let mut cur: usize = v;
        while self.parent[cur] != cur
            invariant
                self.wf(),
                *self == pre,
                cur < self.n(),
                self.root(cur as int) == pre.root(v as int),
            decreases self.parent@.len() - self.size@[cur as int],
        {
            proof {
                assert(self.root(cur as int) == self.root(self.parent@[cur as int] as int));
            }
            cur = self.parent[cur];
        }
        let root = cur;
        proof {
            assert(self.root(root as int) == root);
        }
        let mut x: usize = v;
        while x != root
            invariant
                self.wf(),
                self.n() == pre.n(),
                self.size@ == pre.size@,
                x < self.n(),
                root < self.n(),
                self.parent@[root as int] == root,
                self.root(x as int) == root,
                root == pre.root(v as int),
                forall|u: int| 0 <= u < self.n() ==> #[trigger] self.root(u) == pre.root(u),
            decreases self.size@[root as int] - self.size@[x as int],
        {
            let next = self.parent[x];
            proof {
                lemma_root_props(self.parent@, self.size@, x as int);
                assert(self.parent@[x as int] != x);
                assert(self.size@[x as int] < self.size@[next as int]);
                assert(self.root(next as int) == root);
            }
            let ghost mid = *self;
            self.parent.set(x, root);
            proof {
                lemma_relink_chain_ok(mid.parent@, mid.size@, x as int, root);
                assert forall|u: int| 0 <= u < self.n() implies #[trigger] self.root(u)
                    == mid.root(u) by {
                    lemma_relink_root(mid.parent@, mid.size@, x as int, root, u);
                }
                assert forall|r: int|
                    0 <= r < self.n() && (#[trigger] self.parent@[r]) == r implies self.size@[r]
                    == self.class_of(r).len() by {
                    assert(mid.parent@[r] == r);
                    assert(self.class_of(r) =~= mid.class_of(r));
                }
                assert(self.root(next as int) == mid.root(next as int));
                assert(self.root(next as int) == root);
                lemma_root_props(self.parent@, self.size@, next as int);
                assert(self.size@[next as int] <= self.size@[root as int]);
                assert(self.size@[x as int] < self.size@[next as int]);
            }
            x = next;
        }
        root
    }

    /// Merges the sets containing `a` and `b`; a no-op when they already
    /// share a set. The smaller set's root is attached below the larger
    /// set's root, whose recorded size grows by the smaller size.
    pub fn union_set(&mut self, a: usize, b: usize)
        requires
            old(self).wf(),
            a < old(self).n(),
            b < old(self).n(),
        ensures
            final(self).wf(),
            final(self).n() == old(self).n(),
            union_post(*old(self), *final(self), a as int, b as int),
    {
        let ghost pre = *self;
        let mut ra = self.find_set(a);
        let mut rb = self.find_set(b);
        proof {
            lemma_root_props(self.parent@, self.size@, ra as int);
            lemma_root_props(self.parent@, self.size@, rb as int);
        }
        if ra != rb {
            if self.size[ra] < self.size[rb] {
                let t = ra;
                ra = rb;
                rb = t;
            }
            let ghost mid = *self;
            let nn = self.parent.len();
            let sa = self.size[ra];
            let sb = self.size[rb];
            proof {
                // The two classes are disjoint subsets of {0, ..., n-1}, so
                // their sizes sum to the merged class's cardinality, at most n.
                let n = mid.n() as int;
                let ca = mid.class_of(ra as int);
                let cb = mid.class_of(rb as int);
                lemma_int_range(0, n);
                assert(ca.subset_of(set_int_range(0, n)));
                assert(cb.subset_of(set_int_range(0, n)));
                lemma_len_subset(ca, set_int_range(0, n));
                lemma_len_subset(cb, set_int_range(0, n));
                lemma_disjoint_union_len(ca, cb);
                assert(ca.union(cb).subset_of(set_int_range(0, n)));
                lemma_len_subset(ca.union(cb), set_int_range(0, n));
                assert(mid.root(ra as int) == ra);
                assert(mid.root(rb as int) == rb);
                assert(n == nn);
                assert(sa + sb <= n);
            }
            self.parent.set(rb, ra);
            self.size.set(ra, sa + sb);
            proof {
                lemma_merge_chain_ok(mid.parent@, mid.size@, ra, rb);
                assert forall|u: int| 0 <= u < self.n() implies #[trigger] self.root(u) == (
                if mid.root(u) == rb {
                    ra as int
                } else {
                    mid.root(u)
                }) by {
                    lemma_merge_root(mid.parent@, mid.size@, ra, rb, u);
                }
                assert forall|r: int|
                    0 <= r < self.n() && (#[trigger] self.parent@[r]) == r implies self.size@[r]
                    == self.class_of(r).len() by {
                    assert(r != rb);
                    assert(mid.parent@[r] == r);
                    if r == ra {
                        assert(self.class_of(r) =~= mid.class_of(ra as int).union(
                            mid.class_of(rb as int),
                        ));
                        lemma_disjoint_union_len(
                            mid.class_of(ra as int),
                            mid.class_of(rb as int),
                        );
                        let n = mid.n() as int;
                        lemma_int_range(0, n);
                        lemma_len_subset(mid.class_of(ra as int), set_int_range(0, n));
                        lemma_len_subset(mid.class_of(rb as int), set_int_range(0, n));
                    } else {
                        assert(self.class_of(r) =~= mid.class_of(r));
                        assert(self.size@[r] == mid.size@[r]);
                    }
                }
                assert(union_post(pre, *self, a as int, b as int));
            }
        } else {
            proof {
                assert(union_post(pre, *self, a as int, b as int));
            }
        }
    }
}

/// "Sharing a representative" is an equivalence relation on the universe:
/// reflexive, symmetric and transitive.
pub proof fn lemma_same_set_equivalence(uf: UnionFind)
    requires
        uf.wf(),
    ensures
        forall|a: int| 0 <= a < uf.n() ==> #[trigger] uf.same_set(a, a),
        forall|a: int, b: int| #[trigger] uf.same_set(a, b) ==> uf.same_set(b, a),
        forall|a: int, b: int, c: int|
            #[trigger] uf.same_set(a, b) && #[trigger] uf.same_set(b, c) ==> uf.same_set(a, c),
{
}

/// After any sequence of unions, the size recorded at a current root equals
/// the exact number of elements that resolve to that root.
pub proof fn lemma_size_accurate(uf: UnionFind, r: int)
    requires
        uf.wf(),
        0 <= r < uf.n(),
        uf.parent@[r] == r,
    ensures
        uf.size@[r] == uf.class_of(r).len(),
{
}

/// Merging the same pair twice in a row yields the same partition as merging
/// it once.
pub proof fn lemma_union_idempotent(
    uf0: UnionFind,
    uf1: UnionFind,
    uf2: UnionFind,
    a: int,
    b: int,
)
    requires
        0 <= a < uf0.n(),
        0 <= b < uf0.n(),
        union_post(uf0, uf1, a, b),
        union_post(uf1, uf2, a, b),
    ensures
        forall|u: int, w: int|
            0 <= u < uf1.n() && 0 <= w < uf1.n() ==> (#[trigger] uf2.same_set(u, w)
                <==> uf1.same_set(u, w)),
{
    assert(uf1.same_set(a, b));
}

/// Merging an element with itself never changes the partition.
pub proof fn lemma_union_self_noop(uf0: UnionFind, uf1: UnionFind, a: int)
    requires
        0 <= a < uf0.n(),
        union_post(uf0, uf1, a, a),
    ensures
        forall|u: int, w: int|
            0 <= u < uf0.n() && 0 <= w < uf0.n() ==> (#[trigger] uf1.same_set(u, w)
                <==> uf0.same_set(u, w)),
{
}



} // verus!
