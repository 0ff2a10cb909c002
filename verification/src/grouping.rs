//! Grouping of files: by equal labels (sizes, digests, representatives) and
//! by chains of pairwise similarity.
use vstd::prelude::*;
use crate::union_find::{law_merge_joins_exactly, merged, same_class, UnionFind};

verus! {

/// No element before `i` carries the label of `i`.
pub open spec fn first_of_label(l: Seq<u64>, i: int) -> bool {
    forall|j: int| 0 <= j < i ==> l[j] != l[i]
}

/// Some other element carries the label of `j`.
pub open spec fn label_shared(l: Seq<u64>, j: int) -> bool {
    exists|k: int| 0 <= k < l.len() && k != j && l[k] == l[j]
}

/// `gs` lists exactly the sets of at least two elements sharing a label:
/// each group is increasing, holds every element of its label, and the
/// groups are ordered by their least element.
pub open spec fn label_groups(l: Seq<u64>, gs: Seq<Vec<usize>>) -> bool {
    &&& forall|g: int| 0 <= g < gs.len() ==> #[trigger] gs[g]@.len() >= 2
    &&& forall|g: int, a: int, b: int|
        0 <= g < gs.len() && 0 <= a < b < gs[g]@.len() ==> #[trigger] gs[g]@[a] < #[trigger] gs[g]@[b]
    &&& forall|g: int, a: int|
        0 <= g < gs.len() && 0 <= a < gs[g]@.len() ==> #[trigger] gs[g]@[a] < l.len() && l[gs[g]@[a] as int]
            == l[gs[g]@[0] as int]
    &&& forall|g: int, j: int|
        #![trigger gs[g]@[0], l[j]]
        0 <= g < gs.len() && 0 <= j < l.len() && l[j] == l[gs[g]@[0] as int] ==> gs[g]@.contains(
            j as usize,
        )
    &&& forall|j: int|
        0 <= j < l.len() && #[trigger] label_shared(l, j) ==> exists|g: int|
            0 <= g < gs.len() && #[trigger] gs[g]@.contains(j as usize)
    &&& forall|g1: int, g2: int|
        0 <= g1 < g2 < gs.len() ==> #[trigger] gs[g1]@[0] < #[trigger] gs[g2]@[0]
}

/// Whether `i` is the first element carrying its label.
fn is_first_of_label(labels: &[u64], i: usize) -> (r: bool)
    requires
        i < labels@.len(),
    ensures
        r == first_of_label(labels@, i as int),
{
    let mut j: usize = 0;
    while j < i
        invariant
            i < labels@.len(),
            j <= i,
            forall|k: int| 0 <= k < j ==> labels@[k] != labels@[i as int],
        decreases i - j,
    {
        if labels[j] == labels[i] {
            return false;
        }
        j = j + 1;
    }
    true
}

/// The elements from `i` on that carry the label of `i`, increasing.
fn members_from(labels: &[u64], i: usize) -> (r: Vec<usize>)
    requires
        i < labels@.len(),
    ensures
        r@.len() >= 1,
        r@[0] == i,
        forall|a: int, b: int| 0 <= a < b < r@.len() ==> #[trigger] r@[a] < #[trigger] r@[b],
        forall|a: int|
            0 <= a < r@.len() ==> i <= #[trigger] r@[a] < labels@.len() && labels@[r@[a] as int]
                == labels@[i as int],
        forall|j: int|
            i <= j < labels@.len() && labels@[j] == labels@[i as int] ==> r@.contains(j as usize),
{
    let n = labels.len();
    let mut r: Vec<usize> = Vec::new();
    r.push(i);
    assert(r@[0] == i);
    assert(r@.contains(i));
    let mut j: usize = i + 1;
    while j < labels.len()
        invariant
            n == labels@.len(),
            i < j <= labels@.len(),
            r@.len() >= 1,
            r@[0] == i,
            forall|a: int, b: int| 0 <= a < b < r@.len() ==> #[trigger] r@[a] < #[trigger] r@[b],
            forall|a: int|
                0 <= a < r@.len() ==> i <= #[trigger] r@[a] < j && labels@[r@[a] as int]
                    == labels@[i as int],
            forall|k: int|
                i <= k < j && labels@[k] == labels@[i as int] ==> r@.contains(k as usize),
        decreases labels@.len() - j,
    {
        let ghost prev = r@;
        if labels[j] == labels[i] {
            r.push(j);
            assert(r@[r@.len() - 1] == j);
        }
        proof {
            assert forall|k: int|
                i <= k < j + 1 && labels@[k] == labels@[i as int] implies r@.contains(k as usize) by {
                if k == j {
                    assert(r@[r@.len() - 1] == j);
                } else {
                    let a = choose|a: int| 0 <= a < prev.len() && prev[a] == k as usize;
                    assert(r@[a] == k as usize);
                }
            }
        }
        j = j + 1;
    }
    r
}

/// The groups of at least two elements that share a label, each increasing,
/// ordered by their least element.
pub fn groups_of_labels(labels: &[u64]) -> (r: Vec<Vec<usize>>)
    ensures
        label_groups(labels@, r@),
{
    let n = labels.len();
    let mut result: Vec<Vec<usize>> = Vec::new();
    let mut i: usize = 0;
    while i < n
        invariant
            n == labels@.len(),
            i <= n,
            forall|g: int| 0 <= g < result@.len() ==> #[trigger] result@[g]@.len() >= 2,
            forall|g: int, a: int, b: int|
                0 <= g < result@.len() && 0 <= a < b < result@[g]@.len() ==> #[trigger] result@[g]@[a]
                    < #[trigger] result@[g]@[b],
            forall|g: int, a: int|
                0 <= g < result@.len() && 0 <= a < result@[g]@.len() ==> #[trigger] result@[g]@[a] < n
                    && labels@[result@[g]@[a] as int] == labels@[result@[g]@[0] as int],
            forall|g: int, j: int|
                #![trigger result@[g]@[0], labels@[j]]
                0 <= g < result@.len() && 0 <= j < n && labels@[j] == labels@[result@[g]@[0] as int]
                    ==> result@[g]@.contains(j as usize),
            forall|j: int|
                0 <= j < n && #[trigger] label_shared(labels@, j) && (exists|f: int|
                    0 <= f < i && labels@[f] == labels@[j]) ==> exists|g: int|
                    0 <= g < result@.len() && #[trigger] result@[g]@.contains(j as usize),
            forall|g: int| 0 <= g < result@.len() ==> #[trigger] result@[g]@[0] < i,
            forall|g1: int, g2: int|
                0 <= g1 < g2 < result@.len() ==> #[trigger] result@[g1]@[0]
                    < #[trigger] result@[g2]@[0],
        decreases n - i,
    {
        if is_first_of_label(labels, i) {
            let members = members_from(labels, i);
            if members.len() >= 2 {
                let ghost old_result = result@;
                result.push(members);
                proof {
                    let last = result@.len() - 1;
                    assert(result@[last]@ == members@);
                    assert forall|g: int, j: int|
                        #![trigger result@[g]@[0], labels@[j]]
                        0 <= g < result@.len() && 0 <= j < n && labels@[j] == labels@[
                            result@[g]@[0] as int] implies result@[g]@.contains(j as usize) by {
                        if g == last {
                            assert(i <= j) by {
                                if j < i {
                                    assert(labels@[j] != labels@[i as int]);
                                }
                            }
                        } else {
                            assert(result@[g] == old_result[g]);
                        }
                    }
                    assert forall|j: int|
                        0 <= j < n && #[trigger] label_shared(labels@, j) && (exists|f: int|
                            0 <= f < i + 1 && labels@[f] == labels@[j]) implies exists|g: int|
                        0 <= g < result@.len() && #[trigger] result@[g]@.contains(j as usize) by {
                        if exists|f: int| 0 <= f < i && labels@[f] == labels@[j] {
                            let g = choose|g: int|
                                0 <= g < old_result.len() && #[trigger] old_result[g]@.contains(
                                    j as usize,
                                );
                            assert(result@[g] == old_result[g]);
                        } else {
                            assert(labels@[i as int] == labels@[j]);
                            assert(i <= j);
                            assert(result@[last]@.contains(j as usize));
                        }
                    }
                }
            } else {
                proof {
                    assert forall|j: int|
                        0 <= j < n && #[trigger] label_shared(labels@, j) && (exists|f: int|
                            0 <= f < i + 1 && labels@[f] == labels@[j]) implies exists|g: int|
                        0 <= g < result@.len() && #[trigger] result@[g]@.contains(j as usize) by {
                        if !(exists|f: int| 0 <= f < i && labels@[f] == labels@[j]) {
                            assert(labels@[i as int] == labels@[j]);
                            let k = choose|k: int| 0 <= k < n && k != j && labels@[k] == labels@[j];
                            assert(i <= j && i <= k) by {
                                if j < i {
                                    assert(labels@[j] != labels@[i as int]);
                                }
                                if k < i {
                                    assert(labels@[k] != labels@[i as int]);
                                }
                            }
                            assert(members@.contains(j as usize));
                            assert(members@.contains(k as usize));
                            let a = choose|a: int| 0 <= a < members@.len() && members@[a] == j as usize;
                            let b = choose|b: int| 0 <= b < members@.len() && members@[b] == k as usize;
                            assert(a != b);
                        }
                    }
                }
            }
        } else {
            proof {
                assert forall|j: int|
                    0 <= j < n && #[trigger] label_shared(labels@, j) && (exists|f: int|
                        0 <= f < i + 1 && labels@[f] == labels@[j]) implies exists|g: int|
                    0 <= g < result@.len() && #[trigger] result@[g]@.contains(j as usize) by {
                    if !(exists|f: int| 0 <= f < i && labels@[f] == labels@[j]) {
                        assert(labels@[i as int] == labels@[j]);
                        let f = choose|f: int| 0 <= f < i && labels@[f] == labels@[i as int];
                        assert(labels@[f] == labels@[j]);
                    }
                }
            }
        }
        i = i + 1;
    }
    proof {
        assert forall|j: int|
            0 <= j < n && #[trigger] label_shared(labels@, j) implies exists|g: int|
            0 <= g < result@.len() && #[trigger] result@[g]@.contains(j as usize) by {
            assert(0 <= j < i && labels@[j] == labels@[j]);
        }
    }
    result
}

/// The similarity graph after the first `limit` candidate pairs: pair `k`
/// joins its two files when `flags[k]` holds.
pub open spec fn similarity_edges(pairs: Seq<(usize, usize)>, flags: Seq<bool>, limit: int) -> spec_fn(
    int,
    int,
) -> bool {
    |u: int, v: int|
        exists|k: int|
            0 <= k < limit && flags[k] && ((pairs[k].0 == u && pairs[k].1 == v) || (pairs[k].0 == v
                && pairs[k].1 == u))
}

/// `w` is a non-empty walk along edges of `adj`.
pub open spec fn is_walk(adj: spec_fn(int, int) -> bool, w: Seq<int>) -> bool {
    w.len() > 0 && forall|k: int| #![trigger w[k]] 0 <= k < w.len() - 1 ==> adj(w[k], w[k + 1])
}

/// `a` and `b` are connected in the graph `adj`.
pub open spec fn linked(adj: spec_fn(int, int) -> bool, a: int, b: int) -> bool {
    exists|w: Seq<int>| is_walk(adj, w) && w[0] == a && w.last() == b
}

proof fn lemma_walk_concat(adj: spec_fn(int, int) -> bool, w1: Seq<int>, w2: Seq<int>)
    requires
        is_walk(adj, w1),
        is_walk(adj, w2),
        adj(w1.last(), w2[0]),
    ensures
        is_walk(adj, w1 + w2),
        (w1 + w2)[0] == w1[0],
        (w1 + w2).last() == w2.last(),
{
    let w = w1 + w2;
    assert forall|k: int| #![trigger w[k]] 0 <= k < w.len() - 1 implies adj(w[k], w[k + 1]) by {
        if k < w1.len() - 1 {
            assert(w1[k] == w[k] && w1[k + 1] == w[k + 1]);
        } else if k == w1.len() - 1 {
        } else {
            let m = k - w1.len();
            assert(w2[m] == w[k] && w2[m + 1] == w[k + 1]);
        }
    }
}

/// Along a walk whose edges stay inside classes, the class never changes.
proof fn lemma_walk_same_class(adj: spec_fn(int, int) -> bool, roots: Seq<int>, w: Seq<int>)
    requires
        is_walk(adj, w),
        0 <= w[0] < roots.len(),
        forall|u: int, v: int|
            #[trigger] adj(u, v) ==> 0 <= u < roots.len() && 0 <= v < roots.len() && same_class(
                roots,
                u,
                v,
            ),
    ensures
        0 <= w.last() < roots.len(),
        same_class(roots, w[0], w.last()),
    decreases w.len(),
{
    if w.len() > 1 {
        let v = w.drop_last();
        assert forall|k: int| #![trigger v[k]] 0 <= k < v.len() - 1 implies adj(v[k], v[k + 1]) by {
            assert(w[k] == v[k] && w[k + 1] == v[k + 1]);
        }
        lemma_walk_same_class(adj, roots, v);
        assert(adj(w[w.len() - 2], w[w.len() - 1]));
    }
}

/// The single-edge walk.
proof fn lemma_edge_walk(adj: spec_fn(int, int) -> bool, u: int, v: int)
    requires
        adj(u, v),
    ensures
        linked(adj, u, v),
{
    let w = seq![u, v];
    assert(w[0] == u && w[1] == v && w.last() == v);
    assert(is_walk(adj, w));
    assert(is_walk(adj, w) && w[0] == u && w.last() == v);
}

/// The one-vertex walk.
proof fn lemma_trivial_walk(adj: spec_fn(int, int) -> bool, u: int)
    ensures
        linked(adj, u, u),
{
    let w = seq![u];
    assert(w[0] == u && w.last() == u);
    assert(is_walk(adj, w));
    assert(is_walk(adj, w) && w[0] == u && w.last() == u);
}

/// A walk in a graph is a walk in any graph with more edges.
proof fn lemma_walk_mono(adj1: spec_fn(int, int) -> bool, adj2: spec_fn(int, int) -> bool, a: int, b: int)
    requires
        linked(adj1, a, b),
        forall|u: int, v: int| #[trigger] adj1(u, v) ==> adj2(u, v),
    ensures
        linked(adj2, a, b),
{
    let w = choose|w: Seq<int>| is_walk(adj1, w) && w[0] == a && w.last() == b;
    assert(is_walk(adj2, w));
}

/// Joins, pair by pair in order, the two files of every candidate pair whose
/// flag is set.  Two files end in one set exactly when the flagged pairs
/// connect them.
pub fn link_similar(n: usize, pairs: &Vec<(usize, usize)>, flags: &Vec<bool>) -> (uf: UnionFind)
    requires
        pairs@.len() == flags@.len(),
        forall|k: int| 0 <= k < pairs@.len() ==> (#[trigger] pairs@[k]).0 < n && pairs@[k].1 < n,
    ensures
        uf.wf(),
        uf.size() == n,
        forall|a: int, b: int|
            0 <= a < n && 0 <= b < n ==> (same_class(uf@, a, b) <==> linked(
                similarity_edges(pairs@, flags@, pairs@.len() as int),
                a,
                b,
            )),
{
    let mut uf = UnionFind::new(n);
    proof {
        let adj0 = similarity_edges(pairs@, flags@, 0);
        assert forall|a: int, b: int| 0 <= a < n && 0 <= b < n implies (same_class(uf@, a, b)
            <==> linked(adj0, a, b)) by {
            if linked(adj0, a, b) {
                let w = choose|w: Seq<int>| is_walk(adj0, w) && w[0] == a && w.last() == b;
                if w.len() > 1 {
                    assert(adj0(w[0], w[1]));
                }
            }
            if same_class(uf@, a, b) {
                lemma_trivial_walk(adj0, a);
            }
        }
    }
    let mut k: usize = 0;
    while k < pairs.len()
        invariant
            pairs@.len() == flags@.len(),
            forall|m: int| 0 <= m < pairs@.len() ==> (#[trigger] pairs@[m]).0 < n && pairs@[m].1 < n,
            k <= pairs@.len(),
            uf.wf(),
            uf.size() == n,
            forall|a: int, b: int|
                0 <= a < n && 0 <= b < n ==> (same_class(uf@, a, b) <==> linked(
                    similarity_edges(pairs@, flags@, k as int),
                    a,
                    b,
                )),
        decreases pairs@.len() - k,
    {
        let ghost adj1 = similarity_edges(pairs@, flags@, k as int);
        let ghost adj2 = similarity_edges(pairs@, flags@, k + 1);
        let ghost roots1 = uf@;
        let (pa, pb) = pairs[k];
        proof {
            assert(pairs@[k as int] == (pa, pb));
            assert forall|u: int, v: int| #[trigger] adj1(u, v) implies adj2(u, v) by {
                let m = choose|m: int|
                    0 <= m < k && flags@[m] && ((pairs@[m].0 == u && pairs@[m].1 == v) || (
                    pairs@[m].0 == v && pairs@[m].1 == u));
                assert(0 <= m < k + 1);
            }
            uf.law_representatives_are_canonical();
        }
        if flags[k] {
            uf.union(pa, pb);
            proof {
                let roots2 = uf@;
                let rx = roots1[pa as int];
                let ry = roots1[pb as int];
                assert(exists|w: int| (w == rx || w == ry) && roots2 == merged(roots1, rx, ry, w));
                let w = choose|w: int| (w == rx || w == ry) && roots2 == merged(roots1, rx, ry, w);
                assert(adj2(pa as int, pb as int)) by {
                    assert(pairs@[k as int].0 == pa && pairs@[k as int].1 == pb);
                }
                assert forall|u: int, v: int| #[trigger] adj2(u, v) implies 0 <= u < n && 0 <= v < n
                    && same_class(roots2, u, v) by {
                    let m = choose|m: int|
                        0 <= m < k + 1 && flags@[m] && ((pairs@[m].0 == u && pairs@[m].1 == v) || (
                        pairs@[m].0 == v && pairs@[m].1 == u));
                    assert(pairs@[m].0 < n && pairs@[m].1 < n);
                    law_merge_joins_exactly(roots1, rx, ry, w, u, v);
                    if m < k {
                        assert(adj1(u, v));
                        lemma_edge_walk(adj1, u, v);
                    } else {
                        law_merge_joins_exactly(roots1, rx, ry, w, pa as int, pb as int);
                    }
                }
                assert forall|a: int, b: int| 0 <= a < n && 0 <= b < n implies (same_class(
                    roots2,
                    a,
                    b,
                ) <==> linked(adj2, a, b)) by {
                    if linked(adj2, a, b) {
                        let wk = choose|wk: Seq<int>| is_walk(adj2, wk) && wk[0] == a && wk.last() == b;
                        lemma_walk_same_class(adj2, roots2, wk);
                    }
                    if same_class(roots2, a, b) {
                        law_merge_joins_exactly(roots1, rx, ry, w, a, b);
                        if same_class(roots1, a, b) {
                            lemma_walk_mono(adj1, adj2, a, b);
                        } else {
                            // a reaches one end of pair k, b the other
                            let (ea, eb) = if roots1[a] == rx {
                                (pa as int, pb as int)
                            } else {
                                (pb as int, pa as int)
                            };
                            assert(same_class(roots1, a, ea));
                            assert(same_class(roots1, eb, b));
                            assert(linked(adj1, a, ea));
                            assert(linked(adj1, eb, b));
                            lemma_walk_mono(adj1, adj2, a, ea);
                            lemma_walk_mono(adj1, adj2, eb, b);
                            let w1 = choose|w1: Seq<int>|
                                is_walk(adj2, w1) && w1[0] == a && w1.last() == ea;
                            let w2 = choose|w2: Seq<int>|
                                is_walk(adj2, w2) && w2[0] == eb && w2.last() == b;
                            assert(adj2(ea, eb));
                            lemma_walk_concat(adj2, w1, w2);
                        }
                    }
                }
            }
        } else {
            proof {
                assert(adj1 =~= adj2) by {
                    assert forall|u: int, v: int| #[trigger] adj2(u, v) implies adj1(u, v) by {
                        let m = choose|m: int|
                            0 <= m < k + 1 && flags@[m] && ((pairs@[m].0 == u && pairs@[m].1 == v)
                            || (pairs@[m].0 == v && pairs@[m].1 == u));
                        assert(m < k);
                    }
                }
            }
        }
        k = k + 1;
    }
    uf
}

/// The representative of every element, read as labels; the partition is
/// unchanged.
pub fn representatives(uf: &mut UnionFind) -> (l: Vec<u64>)
    requires
        old(uf).wf(),
    ensures
        final(uf).wf(),
        final(uf).size() == old(uf).size(),
        final(uf)@ == old(uf)@,
        l@.len() == old(uf).size(),
        forall|i: int| 0 <= i < l@.len() ==> l@[i] as int == old(uf)@[i],
{
    let n = uf.len();
    let mut l: Vec<u64> = Vec::new();
    let mut i: usize = 0;
    while i < n
        invariant
            n == uf.size(),
            n == old(uf).size(),
            uf.wf(),
            uf@ == old(uf)@,
            i <= n,
            l@.len() == i,
            forall|j: int| 0 <= j < i ==> l@[j] as int == old(uf)@[j],
        decreases n - i,
    {
        let r = uf.find(i);
        l.push(r as u64);
        i = i + 1;
    }
    l
}

/// The files joined by chains of flagged candidate pairs, as groups of at
/// least two: each group increasing, holding its whole component, and the
/// groups ordered by their least element.
pub fn similar_groups(n: usize, pairs: &Vec<(usize, usize)>, flags: &Vec<bool>) -> (r: Vec<
    Vec<usize>,
>)
    requires
        pairs@.len() == flags@.len(),
        forall|k: int| 0 <= k < pairs@.len() ==> (#[trigger] pairs@[k]).0 < n && pairs@[k].1 < n,
    ensures
        exists|l: Seq<u64>|
            {
                &&& l.len() == n
                &&& forall|a: int, b: int|
                    0 <= a < n && 0 <= b < n ==> (l[a] == l[b] <==> linked(
                        similarity_edges(pairs@, flags@, pairs@.len() as int),
                        a,
                        b,
                    ))
                &&& label_groups(l, r@)
            },
{
    let mut uf = link_similar(n, pairs, flags);
    proof {
        uf.law_representatives_are_canonical();
    }
    let ghost roots = uf@;
    let labels = representatives(&mut uf);
    let groups = groups_of_labels(labels.as_slice());
    proof {
        let l = labels@;
        assert forall|a: int, b: int| 0 <= a < n && 0 <= b < n implies (l[a] == l[b] <==> linked(
            similarity_edges(pairs@, flags@, pairs@.len() as int),
            a,
            b,
        )) by {
            assert(l[a] as int == roots[a] && l[b] as int == roots[b]);
            assert(same_class(roots, a, b) <==> linked(
                similarity_edges(pairs@, flags@, pairs@.len() as int),
                a,
                b,
            ));
        }
    }
    groups
}

/// Lexicographic order on index pairs.
pub open spec fn pair_lt(p: (usize, usize), q: (usize, usize)) -> bool {
    p.0 < q.0 || (p.0 == q.0 && p.1 < q.1)
}

/// The pairs of files worth comparing: `i < j` with equal extension keys,
/// in lexicographic order.
pub fn candidate_pairs(keys: &Vec<String>) -> (r: Vec<(usize, usize)>)
    ensures
        forall|k: int|
            0 <= k < r@.len() ==> (#[trigger] r@[k]).0 < r@[k].1 < keys@.len() && keys@[r@[k].0 as int]@
                == keys@[r@[k].1 as int]@,
        forall|i: int, j: int|
            0 <= i < j < keys@.len() && keys@[i]@ == keys@[j]@ ==> r@.contains((i as usize, j as usize)),
        forall|k1: int, k2: int|
            0 <= k1 < k2 < r@.len() ==> pair_lt(#[trigger] r@[k1], #[trigger] r@[k2]),
{
    let n = keys.len();
    let mut r: Vec<(usize, usize)> = Vec::new();
    let mut i: usize = 0;
    while i < n
        invariant
            n == keys@.len(),
            i <= n,
            forall|k: int|
                0 <= k < r@.len() ==> (#[trigger] r@[k]).0 < r@[k].1 < n && r@[k].0 < i && keys@[r@[
                    k].0 as int]@ == keys@[r@[k].1 as int]@,
            forall|a: int, b: int|
                0 <= a < i && a < b < n && keys@[a]@ == keys@[b]@ ==> r@.contains((a as usize, b as usize)),
            forall|k1: int, k2: int|
                0 <= k1 < k2 < r@.len() ==> pair_lt(#[trigger] r@[k1], #[trigger] r@[k2]),
        decreases n - i,
    {
        let mut j: usize = i + 1;
        while j < n
            invariant
                n == keys@.len(),
                i < n,
                i < j <= n,
                forall|k: int|
                    0 <= k < r@.len() ==> (#[trigger] r@[k]).0 < r@[k].1 < n && (r@[k].0 < i || (
                    r@[k].0 == i && r@[k].1 < j)) && keys@[r@[k].0 as int]@ == keys@[r@[k].1 as int]@,
                forall|a: int, b: int|
                    ((0 <= a < i && a < b < n) || (a == i && i < b < j)) && keys@[a]@ == keys@[b]@
                        ==> r@.contains((a as usize, b as usize)),
                forall|k1: int, k2: int|
                    0 <= k1 < k2 < r@.len() ==> pair_lt(#[trigger] r@[k1], #[trigger] r@[k2]),
            decreases n - j,
        {
            let ghost prev = r@;
            if keys[i] == keys[j] {
                r.push((i, j));
                proof {
                    assert(r@[r@.len() - 1] == (i, j));
                    assert forall|a: int, b: int|
                        ((0 <= a < i && a < b < n) || (a == i && i < b < j + 1)) && keys@[a]@
                            == keys@[b]@ implies r@.contains((a as usize, b as usize)) by {
                        if a == i && b == j {
                            assert(r@[r@.len() - 1] == (a as usize, b as usize));
                        } else {
                            let k = choose|k: int| 0 <= k < prev.len() && prev[k] == (a as usize, b as usize);
                            assert(r@[k] == prev[k]);
                        }
                    }
                }
            } else {
                proof {
                    assert forall|a: int, b: int|
                        ((0 <= a < i && a < b < n) || (a == i && i < b < j + 1)) && keys@[a]@
                            == keys@[b]@ implies r@.contains((a as usize, b as usize)) by {
                        if a == i && b == j {
                        }
                    }
                }
            }
            j = j + 1;
        }
        i = i + 1;
    }
    r
}

/// No element is in two groups: the groups of `label_groups` are disjoint.
pub proof fn law_groups_disjoint(l: Seq<u64>, gs: Seq<Vec<usize>>, g1: int, g2: int, j: usize)
    requires
        label_groups(l, gs),
        0 <= g1 < gs.len(),
        0 <= g2 < gs.len(),
        g1 != g2,
    ensures
        !(gs[g1]@.contains(j) && gs[g2]@.contains(j)),
{
    if gs[g1]@.contains(j) && gs[g2]@.contains(j) {
        let a1 = choose|a: int| 0 <= a < gs[g1]@.len() && gs[g1]@[a] == j;
        let a2 = choose|a: int| 0 <= a < gs[g2]@.len() && gs[g2]@[a] == j;
        assert(gs[g1]@[a1] < l.len());
        assert(gs[g2]@[a2] < l.len());
        let f1 = gs[g1]@[0];
        let f2 = gs[g2]@[0];
        assert(l[f1 as int] == l[j as int] && l[f2 as int] == l[j as int]);
        assert(f1 < l.len() && f2 < l.len());
        assert(gs[g2]@.contains(f1));
        assert(gs[g1]@.contains(f2));
        let b2 = choose|b: int| 0 <= b < gs[g2]@.len() && gs[g2]@[b] == f1;
        let b1 = choose|b: int| 0 <= b < gs[g1]@.len() && gs[g1]@[b] == f2;
        if b2 > 0 {
            assert(gs[g2]@[0] < gs[g2]@[b2]);
        }
        if b1 > 0 {
            assert(gs[g1]@[0] < gs[g1]@[b1]);
        }
        if g1 < g2 {
            assert(gs[g1]@[0] < gs[g2]@[0]);
        } else {
            assert(gs[g2]@[0] < gs[g1]@[0]);
        }
    }
}

/// Flagging more candidate pairs only coarsens the groups: two files
/// linked by the pairs flagged in `flags1` stay linked when `flags2` flags
/// at least those pairs (a lower similarity threshold never splits a group).
pub proof fn law_more_flags_coarser(
    pairs: Seq<(usize, usize)>,
    flags1: Seq<bool>,
    flags2: Seq<bool>,
    a: int,
    b: int,
)
    requires
        flags1.len() == pairs.len(),
        flags2.len() == pairs.len(),
        forall|k: int| 0 <= k < pairs.len() && #[trigger] flags1[k] ==> flags2[k],
        linked(similarity_edges(pairs, flags1, pairs.len() as int), a, b),
    ensures
        linked(similarity_edges(pairs, flags2, pairs.len() as int), a, b),
{
    let e1 = similarity_edges(pairs, flags1, pairs.len() as int);
    let e2 = similarity_edges(pairs, flags2, pairs.len() as int);
    assert forall|u: int, v: int| #[trigger] e1(u, v) implies e2(u, v) by {
        let k = choose|k: int|
            0 <= k < pairs.len() && flags1[k] && ((pairs[k].0 == u && pairs[k].1 == v) || (pairs[k].0
                == v && pairs[k].1 == u));
        assert(flags2[k]);
    }
    lemma_walk_mono(e1, e2, a, b);
}

/// Pairs of distinct files with equal keys, as `candidate_pairs` gives.
pub open spec fn pairs_share_keys(keys: Seq<String>, pairs: Seq<(usize, usize)>) -> bool {
    forall|k: int|
        0 <= k < pairs.len() ==> (#[trigger] pairs[k]).0 < pairs[k].1 < keys.len() && keys[pairs[k].0 as int]@
            == keys[pairs[k].1 as int]@
}

/// No other file has the key of file `i`.
pub open spec fn key_unique(keys: Seq<String>, i: int) -> bool {
    forall|j: int| 0 <= j < keys.len() && j != i ==> keys[j]@ != keys[i]@
}

/// A file whose key no other file has is linked to no other file, whatever
/// the flags.
proof fn lemma_unique_key_alone(
    keys: Seq<String>,
    pairs: Seq<(usize, usize)>,
    flags: Seq<bool>,
    i: int,
    b: int,
)
    requires
        0 <= i < keys.len(),
        pairs_share_keys(keys, pairs),
        key_unique(keys, i),
        linked(similarity_edges(pairs, flags, pairs.len() as int), i, b),
    ensures
        b == i,
{
    let e = similarity_edges(pairs, flags, pairs.len() as int);
    let w = choose|w: Seq<int>| is_walk(e, w) && w[0] == i && w.last() == b;
    if w.len() > 1 {
        assert(e(w[0], w[1]));
        let k = choose|k: int|
            0 <= k < pairs.len() && flags[k] && ((pairs[k].0 == w[0] && pairs[k].1 == w[1]) || (
            pairs[k].0 == w[1] && pairs[k].1 == w[0]));
        assert(pairs[k].0 < pairs[k].1 < keys.len());
        if pairs[k].0 == i {
            assert(keys[pairs[k].1 as int]@ != keys[i]@);
        } else {
            assert(keys[pairs[k].0 as int]@ != keys[i]@);
        }
    }
}

/// A file whose key (its extension) no other file has is in no group of
/// similar files, whatever the flags: the groups that `similar_groups`
/// describes never hold it.
pub proof fn law_unique_key_never_grouped(
    keys: Seq<String>,
    pairs: Seq<(usize, usize)>,
    flags: Seq<bool>,
    l: Seq<u64>,
    gs: Seq<Vec<usize>>,
    i: usize,
)
    requires
        i < keys.len(),
        pairs_share_keys(keys, pairs),
        key_unique(keys, i as int),
        l.len() == keys.len(),
        forall|a: int, b: int|
            0 <= a < l.len() && 0 <= b < l.len() ==> (l[a] == l[b] <==> linked(
                similarity_edges(pairs, flags, pairs.len() as int),
                a,
                b,
            )),
        label_groups(l, gs),
    ensures
        forall|g: int| 0 <= g < gs.len() ==> !(#[trigger] gs[g]@).contains(i),
{
    assert forall|g: int| 0 <= g < gs.len() implies !(#[trigger] gs[g]@).contains(i) by {
        if gs[g]@.contains(i) {
            let a = choose|a: int| 0 <= a < gs[g]@.len() && gs[g]@[a] == i;
            assert(gs[g]@.len() >= 2);
            assert(gs[g]@[0] < gs[g]@[1]);
            let other: int = if gs[g]@[0] == i {
                gs[g]@[1] as int
            } else {
                gs[g]@[0] as int
            };
            assert(l[gs[g]@[a] as int] == l[gs[g]@[0] as int]);
            assert(l[gs[g]@[1] as int] == l[gs[g]@[0] as int]);
            assert(gs[g]@[0] < l.len() && gs[g]@[1] < l.len());
            assert(l[i as int] == l[gs[g]@[0] as int]);
            assert(0 <= other < l.len() && other != i && l[other] == l[i as int]);
            lemma_unique_key_alone(keys, pairs, flags, i as int, other);
        }
    }
}

} // verus!
