//! Disjoint sets over `0..n` with union by rank and path compression.
use vstd::prelude::*;
use vstd::arithmetic::power2::{
    lemma_pow2, lemma_pow2_pos, lemma_pow2_strictly_increases, lemma_pow2_unfold, pow2,
};
use vstd::set_lib::*;

verus! {

/// The node reached from `x` by following parent links.  A link is only
/// followed while it climbs to a strictly higher rank, which makes the
/// definition total; on well-formed forests every link does.
pub open spec fn root_of(parent: Seq<usize>, rank: Seq<usize>, x: int) -> int
    decreases usize::MAX - rank[x],
{
    if 0 <= x < parent.len() && x < rank.len() && parent[x] != x && (parent[x] as int) < rank.len()
        && rank[x] < rank[parent[x] as int] {
        root_of(parent, rank, parent[x] as int)
    } else {
        x
    }
}

/// Parent links stay in range and strictly increase the rank.
pub open spec fn links_ok(parent: Seq<usize>, rank: Seq<usize>) -> bool {
    &&& parent.len() == rank.len()
    &&& forall|i: int| #![trigger parent[i]] 0 <= i < parent.len() ==> (parent[i] as int) < parent.len()
    &&& forall|i: int|
        #![trigger parent[i]]
        0 <= i < parent.len() && parent[i] != i ==> rank[i] < rank[parent[i] as int]
}

/// The elements of `0..n` whose representative is `r`.
pub open spec fn class_of(parent: Seq<usize>, rank: Seq<usize>, r: int) -> Set<int> {
    set_int_range(0, parent.len() as int).filter(|i: int| root_of(parent, rank, i) == r)
}

/// Well-formed forest: valid links, and every root of rank `k` has at
/// least `2^k` members (which bounds every rank by `log2 n`).
pub open spec fn forest_ok(parent: Seq<usize>, rank: Seq<usize>) -> bool {
    &&& links_ok(parent, rank)
    &&& forall|r: int|
        #![trigger class_of(parent, rank, r)]
        0 <= r < parent.len() && parent[r] == r ==> class_of(parent, rank, r).len() >= pow2(
            rank[r] as nat,
        )
}

/// `i` lies on the chain of parent links from `x` to its representative.
pub open spec fn on_chain(parent: Seq<usize>, rank: Seq<usize>, x: int, i: int) -> bool
    decreases usize::MAX - rank[x],
{
    i == x || (0 <= x < parent.len() && x < rank.len() && parent[x] != x && (parent[x] as int)
        < rank.len() && rank[x] < rank[parent[x] as int] && on_chain(
        parent,
        rank,
        parent[x] as int,
        i,
    ))
}

/// The parent links after path compression from `x`: every element on the
/// chain from `x` points straight at the representative of `x`.
pub open spec fn compressed(parent: Seq<usize>, rank: Seq<usize>, x: int) -> Seq<usize> {
    Seq::new(
        parent.len(),
        |i: int|
            if on_chain(parent, rank, x, i) {
                root_of(parent, rank, x) as usize
            } else {
                parent[i]
            },
    )
}

proof fn lemma_pow2_zero()
    ensures
        pow2(0) == 1,
{
    lemma_pow2(0);
    reveal(vstd::arithmetic::power::pow);
}

/// `2^k` exceeds `k`.
proof fn lemma_pow2_above(k: nat)
    ensures
        pow2(k) >= k + 1,
    decreases k,
{
    if k == 0 {
        lemma_pow2_zero();
    } else {
        lemma_pow2_above((k - 1) as nat);
        lemma_pow2_unfold(k);
        lemma_pow2_pos((k - 1) as nat);
    }
}

/// The representatives after the classes of `a` and `b` have been merged
/// under the representative `w`.
pub open spec fn merged(roots: Seq<int>, a: int, b: int, w: int) -> Seq<int> {
    roots.map_values(|r: int| if r == a || r == b { w } else { r })
}

/// Two elements are in one class when they share their representative.
pub open spec fn same_class(roots: Seq<int>, i: int, j: int) -> bool {
    roots[i] == roots[j]
}

proof fn lemma_root_props(parent: Seq<usize>, rank: Seq<usize>, x: int)
    requires
        links_ok(parent, rank),
        0 <= x < parent.len(),
    ensures
        0 <= root_of(parent, rank, x) < parent.len(),
        parent[root_of(parent, rank, x)] == root_of(parent, rank, x),
        rank[x] <= rank[root_of(parent, rank, x)],
        parent[x] != x ==> rank[x] < rank[root_of(parent, rank, x)],
        root_of(parent, rank, root_of(parent, rank, x)) == root_of(parent, rank, x),
        parent[x] == x ==> root_of(parent, rank, x) == x,
        parent[x] != x ==> root_of(parent, rank, x) == root_of(parent, rank, parent[x] as int),
    decreases usize::MAX - rank[x],
{
    let p = parent[x] as int;
    if parent[x] != x {
        assert(rank[x] < rank[p]);
        lemma_root_props(parent, rank, p);
    }
}

proof fn lemma_compress_one(parent: Seq<usize>, rank: Seq<usize>, x: int, i: int)
    requires
        links_ok(parent, rank),
        0 <= x < parent.len(),
        0 <= i < parent.len(),
        links_ok(parent.update(x, root_of(parent, rank, x) as usize), rank),
    ensures
        root_of(parent.update(x, root_of(parent, rank, x) as usize), rank, i) == root_of(
            parent,
            rank,
            i,
        ),
    decreases usize::MAX - rank[i],
{
    let r = root_of(parent, rank, x);
    let p2 = parent.update(x, r as usize);
    lemma_root_props(parent, rank, x);
    lemma_root_props(parent, rank, i);
    if i == x {
        if parent[x] != x {
            assert(p2[x] != x);
            assert(root_of(p2, rank, x) == root_of(p2, rank, r));
            assert(p2[r] == r);
        }
    } else if parent[i] != i {
        let q = parent[i] as int;
        assert(p2[i] == parent[i]);
        lemma_compress_one(parent, rank, x, q);
    } else {
        assert(p2[i] == i);
    }
}

/// Pointing `x` straight at its representative changes no representative.
proof fn lemma_compress(parent: Seq<usize>, rank: Seq<usize>, x: int)
    requires
        forest_ok(parent, rank),
        0 <= x < parent.len(),
    ensures
        forest_ok(parent.update(x, root_of(parent, rank, x) as usize), rank),
        forall|i: int|
            0 <= i < parent.len() ==> #[trigger] root_of(
                parent.update(x, root_of(parent, rank, x) as usize),
                rank,
                i,
            ) == root_of(parent, rank, i),
{
    let r = root_of(parent, rank, x);
    let p2 = parent.update(x, r as usize);
    lemma_root_props(parent, rank, x);
    assert forall|i: int| #![trigger p2[i]] 0 <= i < p2.len() && p2[i] != i implies rank[i]
        < rank[p2[i] as int] by {
        if i != x {
            assert(p2[i] == parent[i]);
        }
    }
    assert(links_ok(p2, rank));
    assert forall|i: int| 0 <= i < parent.len() implies #[trigger] root_of(p2, rank, i) == root_of(
        parent,
        rank,
        i,
    ) by {
        lemma_compress_one(parent, rank, x, i);
    }
    assert forall|c: int|
        #![trigger class_of(p2, rank, c)]
        0 <= c < p2.len() && p2[c] == c implies class_of(p2, rank, c).len() >= pow2(rank[c] as nat) by {
        assert(class_of(p2, rank, c) =~= class_of(parent, rank, c));
        if c == x {
            assert(parent[x] == x) by {
                if parent[x] != x {
                    assert(rank[x] < rank[r]);
                }
            }
        } else {
            assert(parent[c] == c);
        }
    }
}

proof fn lemma_link_one(
    parent: Seq<usize>,
    rank: Seq<usize>,
    rank2: Seq<usize>,
    a: int,
    b: int,
    i: int,
)
    requires
        links_ok(parent, rank),
        links_ok(parent.update(a, b as usize), rank2),
        0 <= a < parent.len(),
        0 <= b < parent.len(),
        a != b,
        parent[a] == a,
        parent[b] == b,
        0 <= i < parent.len(),
    ensures
        root_of(parent.update(a, b as usize), rank2, i) == if root_of(parent, rank, i) == a {
            b
        } else {
            root_of(parent, rank, i)
        },
    decreases usize::MAX - rank[i],
{
    let p2 = parent.update(a, b as usize);
    lemma_root_props(parent, rank, i);
    if parent[i] == i {
        if i == a {
            assert(p2[a] != a);
            assert(root_of(p2, rank2, a) == root_of(p2, rank2, b));
            assert(p2[b] == b);
        } else {
            assert(p2[i] == i);
        }
    } else {
        let q = parent[i] as int;
        assert(p2[i] == parent[i]);
        assert(root_of(p2, rank2, i) == root_of(p2, rank2, q));
        lemma_link_one(parent, rank, rank2, a, b, q);
    }
}

/// The members of two distinct classes number at most `n` together.
proof fn lemma_two_classes(parent: Seq<usize>, rank: Seq<usize>, a: int, b: int)
    requires
        a != b,
        parent.len() == rank.len(),
    ensures
        class_of(parent, rank, a).finite(),
        class_of(parent, rank, b).finite(),
        class_of(parent, rank, a).disjoint(class_of(parent, rank, b)),
        class_of(parent, rank, a).len() + class_of(parent, rank, b).len() <= parent.len(),
        (class_of(parent, rank, a) + class_of(parent, rank, b)).len() == class_of(
            parent,
            rank,
            a,
        ).len() + class_of(parent, rank, b).len(),
{
    let all = set_int_range(0, parent.len() as int);
    let ca = class_of(parent, rank, a);
    let cb = class_of(parent, rank, b);
    lemma_int_range(0, parent.len() as int);
    lemma_len_subset(ca, all);
    lemma_len_subset(cb, all);
    lemma_len_subset(ca + cb, all);
    lemma_set_disjoint_lens(ca, cb);
}

/// Linking root `a` under root `b` merges the class of `a` into that of `b`
/// and keeps the forest well formed, given the ranks `rank2` after the link.
proof fn lemma_link(parent: Seq<usize>, rank: Seq<usize>, rank2: Seq<usize>, a: int, b: int)
    requires
        forest_ok(parent, rank),
        0 <= a < parent.len(),
        0 <= b < parent.len(),
        a != b,
        parent[a] == a,
        parent[b] == b,
        rank2.len() == rank.len(),
        forall|i: int| 0 <= i < rank.len() && i != b ==> rank2[i] == rank[i],
        rank[b] <= rank2[b],
        rank[a] < rank2[b],
        class_of(parent, rank, a).len() + class_of(parent, rank, b).len() >= pow2(rank2[b] as nat),
    ensures
        forest_ok(parent.update(a, b as usize), rank2),
        forall|i: int|
            0 <= i < parent.len() ==> #[trigger] root_of(parent.update(a, b as usize), rank2, i)
                == if root_of(parent, rank, i) == a {
                b
            } else {
                root_of(parent, rank, i)
            },
{
    let p2 = parent.update(a, b as usize);
    assert forall|i: int| #![trigger p2[i]] 0 <= i < p2.len() && p2[i] != i implies rank2[i]
        < rank2[p2[i] as int] by {
        if i != a {
            assert(p2[i] == parent[i]);
            assert(parent[i] != i);
            lemma_root_props(parent, rank, i);
        }
    }
    assert(links_ok(p2, rank2));
    assert forall|i: int| 0 <= i < parent.len() implies #[trigger] root_of(p2, rank2, i) == if root_of(
        parent,
        rank,
        i,
    ) == a {
        b
    } else {
        root_of(parent, rank, i)
    } by {
        lemma_link_one(parent, rank, rank2, a, b, i);
    }
    lemma_two_classes(parent, rank, a, b);
    assert forall|c: int|
        #![trigger class_of(p2, rank2, c)]
        0 <= c < p2.len() && p2[c] == c implies class_of(p2, rank2, c).len() >= pow2(rank2[c] as nat) by {
        assert(c != a);
        assert(parent[c] == c);
        if c == b {
            assert(class_of(p2, rank2, b) =~= class_of(parent, rank, a) + class_of(parent, rank, b))
                by {
                assert forall|i: int| #[trigger]
                    class_of(p2, rank2, b).contains(i) implies (class_of(parent, rank, a)
                    + class_of(parent, rank, b)).contains(i) by {
                    lemma_root_props(parent, rank, i);
                }
                assert forall|i: int| #[trigger]
                    (class_of(parent, rank, a) + class_of(parent, rank, b)).contains(i)
                    implies class_of(p2, rank2, b).contains(i) by {
                    lemma_root_props(parent, rank, i);
                }
            }
        } else {
            assert(class_of(p2, rank2, c) =~= class_of(parent, rank, c));
        }
    }
}

/// Merging the classes of `a` and `b` under one of the two puts two
/// elements together exactly when they were together before, or each was
/// in the class of `a` or of `b`.
pub proof fn law_merge_joins_exactly(roots: Seq<int>, a: int, b: int, w: int, i: int, j: int)
    requires
        w == a || w == b,
        0 <= i < roots.len(),
        0 <= j < roots.len(),
    ensures
        same_class(merged(roots, a, b, w), i, j) <==> (same_class(roots, i, j) || ((roots[i] == a
            || roots[i] == b) && (roots[j] == a || roots[j] == b))),
{
}

/// After a union of `x` and `y`, `x` and `y` are in one class.
pub proof fn law_union_joins(roots: Seq<int>, x: int, y: int, w: int)
    requires
        w == roots[x] || w == roots[y],
        0 <= x < roots.len(),
        0 <= y < roots.len(),
    ensures
        same_class(merged(roots, roots[x], roots[y], w), x, y),
{
}

/// The partition after a union does not depend on the order of its two
/// arguments.
pub proof fn law_union_symmetric(roots: Seq<int>, x: int, y: int, w1: int, w2: int, i: int, j: int)
    requires
        w1 == roots[x] || w1 == roots[y],
        w2 == roots[x] || w2 == roots[y],
        0 <= x < roots.len(),
        0 <= y < roots.len(),
        0 <= i < roots.len(),
        0 <= j < roots.len(),
    ensures
        same_class(merged(roots, roots[x], roots[y], w1), i, j) == same_class(
            merged(roots, roots[y], roots[x], w2),
            i,
            j,
        ),
{
}

/// A union only coarsens the partition: elements that were together stay together.
pub proof fn law_union_keeps_classes(roots: Seq<int>, a: int, b: int, w: int, i: int, j: int)
    requires
        w == a || w == b,
        0 <= i < roots.len(),
        0 <= j < roots.len(),
        same_class(roots, i, j),
    ensures
        same_class(merged(roots, a, b, w), i, j),
{
}

/// A forest of disjoint sets over `0..n`.  Each element has a
/// representative; two elements are in one set exactly when their
/// representatives agree.
pub struct UnionFind {
    parent: Vec<usize>,
    rank: Vec<usize>,
}

impl View for UnionFind {
    /// The representative of each element.
    type V = Seq<int>;

    closed spec fn view(&self) -> Seq<int> {
        Seq::new(self.parent@.len(), |i: int| root_of(self.parent@, self.rank@, i))
    }
}

impl UnionFind {
    /// The number of elements.
    pub closed spec fn size(&self) -> nat {
        self.parent@.len()
    }

    /// The rank of each element; it decides which representative survives a union.
    pub closed spec fn ranks(&self) -> Seq<usize> {
        self.rank@
    }

    /// The parent link of each element.
    pub closed spec fn parents(&self) -> Seq<usize> {
        self.parent@
    }

    /// The internal invariant of the forest.
    pub closed spec fn wf(&self) -> bool {
        forest_ok(self.parent@, self.rank@)
    }

    /// Representatives are elements, every representative is its own, and
    /// the representatives are exactly the elements that are their own parent.
    pub proof fn law_representatives_are_canonical(&self)
        requires
            self.wf(),
        ensures
            self@.len() == self.size(),
            self.ranks().len() == self.size(),
            self.parents().len() == self.size(),
            forall|i: int|
                0 <= i < self.size() ==> 0 <= #[trigger] self@[i] < self.size() && self@[self@[i]]
                    == self@[i] && self.parents()[self@[i]] == self@[i],
            forall|i: int| 0 <= i < self.size() ==> (#[trigger] self.parents()[i] == i <==> self@[i] == i),
    {
        assert forall|i: int| 0 <= i < self.size() implies (#[trigger] self.parents()[i] == i <==> self@[i] == i) by {
            lemma_root_props(self.parent@, self.rank@, i);
        }
        assert forall|i: int| 0 <= i < self.size() implies 0 <= #[trigger] self@[i] < self.size()
            && self@[self@[i]] == self@[i] && self.parents()[self@[i]] == self@[i] by {
            lemma_root_props(self.parent@, self.rank@, i);
        }
    }

    /// The number of elements.
    pub fn len(&self) -> (n: usize)
        ensures
            n == self.size(),
    {
        self.parent.len()
    }

    /// After a `find` of `x`, `x` points straight at its representative.
    pub proof fn law_find_links_to_representative(&self, x: int)
        requires
            self.wf(),
            0 <= x < self.size(),
        ensures
            compressed(self.parents(), self.ranks(), x)[x] == self@[x],
    {
        lemma_root_props(self.parent@, self.rank@, x);
        assert(on_chain(self.parent@, self.rank@, x, x));
    }

    /// A `find` of an element that already points at its representative
    /// changes no parent link: a second `find` of the same element changes
    /// nothing.
    pub proof fn law_find_again_changes_nothing(&self, x: int)
        requires
            self.wf(),
            0 <= x < self.size(),
            self.parents()[x] == self@[x],
        ensures
            compressed(self.parents(), self.ranks(), x) == self.parents(),
    {
        let p = self.parent@;
        let rk = self.rank@;
        lemma_root_props(p, rk, x);
        let r = root_of(p, rk, x);
        assert(compressed(p, rk, x) =~= p) by {
            assert forall|i: int| 0 <= i < p.len() implies #[trigger] compressed(p, rk, x)[i] == p[i] by {
                if on_chain(p, rk, x, i) && i != x {
                    assert(on_chain(p, rk, r, i));
                    assert(i == r);
                }
            }
        }
    }

    /// A representative of rank `k` stands for at least `2^k` elements.
    pub proof fn law_class_size_bound(&self, r: int)
        requires
            self.wf(),
            0 <= r < self.size(),
            self@[r] == r,
        ensures
            set_int_range(0, self.size() as int).filter(|i: int| self@[i] == r).len() >= pow2(
                self.ranks()[r] as nat,
            ),
    {
        let p = self.parent@;
        let rk = self.rank@;
        lemma_root_props(p, rk, r);
        let s = set_int_range(0, self.size() as int).filter(|i: int| self@[i] == r);
        assert(s =~= class_of(p, rk, r));
    }

    /// Every rank is at most `log2 n`: a root of rank `k` holds at least
    /// `2^k` elements, and ranks grow along parent links.
    pub proof fn law_rank_bound(&self, i: int)
        requires
            self.wf(),
            0 <= i < self.size(),
        ensures
            pow2(self.ranks()[i] as nat) <= self.size(),
    {
        let p = self.parent@;
        let rk = self.rank@;
        lemma_root_props(p, rk, i);
        let r = root_of(p, rk, i);
        let all = set_int_range(0, p.len() as int);
        lemma_int_range(0, p.len() as int);
        lemma_len_subset(class_of(p, rk, r), all);
        assert(class_of(p, rk, r).len() >= pow2(rk[r] as nat));
        if rk[i] < rk[r] {
            lemma_pow2_strictly_increases(rk[i] as nat, rk[r] as nat);
        }
    }

    /// `n` singleton sets `{0}`, ..., `{n - 1}`, all of rank zero.
    pub fn new(n: usize) -> (uf: Self)
        ensures
            uf.wf(),
            uf.size() == n,
            uf@ == Seq::new(n as nat, |i: int| i),
            uf.ranks() == Seq::new(n as nat, |i: int| 0usize),
            uf.parents() == Seq::new(n as nat, |i: int| i as usize),
    {
        let mut parent: Vec<usize> = Vec::new();
        let mut rank: Vec<usize> = Vec::new();
        let mut k: usize = 0;
        while k < n
            invariant
                k <= n,
                parent@.len() == k,
                rank@.len() == k,
                forall|i: int| 0 <= i < k ==> parent@[i] == i,
                forall|i: int| 0 <= i < k ==> rank@[i] == 0,
            decreases n - k,
        {
            parent.push(k);
            rank.push(0);
            k = k + 1;
        }
        let uf = UnionFind { parent, rank };
        assert forall|i: int| 0 <= i < n implies #[trigger] root_of(parent@, rank@, i) == i by {}
        assert forall|r: int|
            #![trigger class_of(parent@, rank@, r)]
            0 <= r < parent@.len() && parent@[r] == r implies class_of(parent@, rank@, r).len()
            >= pow2(rank@[r] as nat) by {
            assert(class_of(parent@, rank@, r) =~= Set::empty().insert(r));
            lemma_pow2_zero();
        }
        assert(uf@ =~= Seq::new(n as nat, |i: int| i));
        assert(uf.ranks() =~= Seq::new(n as nat, |i: int| 0usize));
        assert(uf.parents() =~= Seq::new(n as nat, |i: int| i as usize));
        uf
    }

    /// The representative of `x`.  Compresses the path from `x`, which
    /// changes no representative and no rank.
    pub fn find(&mut self, x: usize) -> (r: usize)
        requires
            old(self).wf(),
            x < old(self).size(),
        ensures
            final(self).wf(),
            final(self).size() == old(self).size(),
            r == old(self)@[x as int],
            final(self)@ == old(self)@,
            final(self).ranks() == old(self).ranks(),
            final(self).parents() == compressed(old(self).parents(), old(self).ranks(), x as int),
            final(self).parents().len() == final(self).size(),
            final(self).parents()[x as int] == r,
            final(self).parents()[r as int] == r,
        decreases usize::MAX - old(self).ranks()[x as int],
    {
        proof {
            lemma_root_props(self.parent@, self.rank@, x as int);
        }
        let p = self.parent[x];
        if p != x {
            let ghost parent0 = self.parent@;
            let r = self.find(p);
            let ghost parent1 = self.parent@;
            proof {
                lemma_root_props(parent1, self.rank@, x as int);
                assert(self@[x as int] == old(self)@[x as int]);
                assert(root_of(parent1, self.rank@, x as int) == root_of(
                    parent0,
                    self.rank@,
                    x as int,
                ));
                lemma_compress(parent1, self.rank@, x as int);
            }
            self.parent[x] = r;
            proof {
                assert(self.parent@ == parent1.update(x as int, r));
                assert(self@ =~= old(self)@);
                assert(parent1 == compressed(parent0, self.rank@, p as int));
                assert(root_of(parent0, self.rank@, p as int) == r);
                assert(self.parent@ =~= compressed(parent0, self.rank@, x as int)) by {
                    assert forall|i: int| 0 <= i < parent0.len() implies #[trigger] self.parent@[i]
                        == compressed(parent0, self.rank@, x as int)[i] by {
                        if i != x {
                            assert(on_chain(parent0, self.rank@, x as int, i) == on_chain(
                                parent0,
                                self.rank@,
                                p as int,
                                i,
                            ));
                        }
                    }
                }
            }
        } else {
            proof {
                assert(self.parent@ =~= compressed(self.parent@, self.rank@, x as int)) by {
                    assert forall|i: int| 0 <= i < self.parent@.len() implies #[trigger] self.parent@[i]
                        == compressed(self.parent@, self.rank@, x as int)[i] by {
                        if i == x {
                            assert(root_of(self.parent@, self.rank@, x as int) == x);
                        }
                    }
                }
            }
        }
        self.parent[x]
    }

    /// Merges the sets of `x` and `y`.  The finds of `x` and `y` compress
    /// their paths; then the representative of higher rank survives; on equal
    /// ranks that of `x` survives and its rank grows by one.
    pub fn union(&mut self, x: usize, y: usize)
        requires
            old(self).wf(),
            x < old(self).size(),
            y < old(self).size(),
        ensures
            final(self).wf(),
            final(self).size() == old(self).size(),
            ({
                let rx = old(self)@[x as int];
                let ry = old(self)@[y as int];
                let rk = old(self).ranks();
                if rx == ry {
                    final(self)@ == old(self)@ && final(self).ranks() == rk
                } else if rk[rx] < rk[ry] {
                    final(self)@ == merged(old(self)@, rx, ry, ry) && final(self).ranks() == rk
                } else if rk[ry] < rk[rx] {
                    final(self)@ == merged(old(self)@, rx, ry, rx) && final(self).ranks() == rk
                } else {
                    final(self)@ == merged(old(self)@, rx, ry, rx) && final(self).ranks()
                        == rk.update(rx, (rk[rx] + 1) as usize)
                }
            }),
            ({
                let rx = old(self)@[x as int];
                let ry = old(self)@[y as int];
                let rk = old(self).ranks();
                let c = compressed(compressed(old(self).parents(), rk, x as int), rk, y as int);
                if rx == ry {
                    final(self).parents() == c
                } else if rk[rx] < rk[ry] {
                    final(self).parents() == c.update(rx, ry as usize)
                } else {
                    final(self).parents() == c.update(ry, rx as usize)
                }
            }),
    {
        let rx = self.find(x);
        let ry = self.find(y);
        if rx == ry {
            return ;
        }
        let ghost parent = self.parent@;
        let ghost rank = self.rank@;
        proof {
            lemma_root_props(parent, rank, x as int);
            lemma_root_props(parent, rank, y as int);
            lemma_two_classes(parent, rank, rx as int, ry as int);
            assert(class_of(parent, rank, rx as int).len() >= pow2(rank[rx as int] as nat));
            assert(class_of(parent, rank, ry as int).len() >= pow2(rank[ry as int] as nat));
            lemma_pow2_above(rank[rx as int] as nat);
            lemma_pow2_above(rank[ry as int] as nat);
        }
        let n = self.parent.len();
        let kx = self.rank[rx];
        let ky = self.rank[ry];
        if kx < ky {
            self.parent[rx] = ry;
            proof {
                lemma_link(parent, rank, rank, rx as int, ry as int);
                assert(self.parent@ == parent.update(rx as int, ry));
                assert(self@ =~= merged(old(self)@, rx as int, ry as int, ry as int));
            }
        } else if ky < kx {
            self.parent[ry] = rx;
            proof {
                lemma_link(parent, rank, rank, ry as int, rx as int);
                assert(self.parent@ == parent.update(ry as int, rx));
                assert(self@ =~= merged(old(self)@, rx as int, ry as int, rx as int));
            }
        } else {
            proof {
                assert(kx + 1 < n);
                lemma_pow2_unfold((kx + 1) as nat);
            }
            self.parent[ry] = rx;
            self.rank[rx] = kx + 1;
            proof {
                lemma_link(parent, rank, self.rank@, ry as int, rx as int);
                assert(self.parent@ == parent.update(ry as int, rx));
                assert(self@ =~= merged(old(self)@, rx as int, ry as int, rx as int));
                assert(self.ranks() =~= rank.update(rx as int, (rank[rx as int] + 1) as usize));
            }
        }
    }
}

} // verus!
