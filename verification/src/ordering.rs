//! Stable ordering of files by a score and their names.
use vstd::prelude::*;
use crate::text::chars_of;

verus! {

/// Strict lexicographic order on character sequences, by code point; the
/// order in which `String`s compare.
pub open spec fn name_lt(a: Seq<char>, b: Seq<char>) -> bool
    decreases a.len(),
{
    if a.len() == 0 {
        b.len() > 0
    } else if b.len() == 0 {
        false
    } else if a[0] != b[0] {
        a[0] < b[0]
    } else {
        name_lt(a.drop_first(), b.drop_first())
    }
}

/// `p` comes before `q`: lower score, then smaller name, then earlier position.
pub open spec fn ranked_before(scores: Seq<u32>, names: Seq<Seq<char>>, p: int, q: int) -> bool {
    scores[p] < scores[q] || (scores[p] == scores[q] && (name_lt(names[p], names[q]) || (names[p]
        == names[q] && p < q)))
}

/// `ord` lists the positions `0..m` in strictly increasing rank.
pub open spec fn ranks_in_order(scores: Seq<u32>, names: Seq<Seq<char>>, m: int, ord: Seq<usize>) -> bool {
    &&& ord.len() == m
    &&& forall|k: int| 0 <= k < m ==> #[trigger] ord[k] < m
    &&& forall|p: usize| p < m ==> #[trigger] ord.contains(p)
    &&& forall|k1: int, k2: int|
        0 <= k1 < k2 < m ==> ranked_before(scores, names, #[trigger] ord[k1] as int, #[trigger] ord[k2] as int)
}

pub proof fn lemma_name_lt_irreflexive(a: Seq<char>)
    ensures
        !name_lt(a, a),
    decreases a.len(),
{
    if a.len() > 0 {
        lemma_name_lt_irreflexive(a.drop_first());
    }
}

pub proof fn lemma_name_lt_trans(a: Seq<char>, b: Seq<char>, c: Seq<char>)
    requires
        name_lt(a, b),
        name_lt(b, c),
    ensures
        name_lt(a, c),
    decreases a.len(),
{
    if a.len() > 0 && b.len() > 0 && c.len() > 0 && a[0] == b[0] && b[0] == c[0] {
        lemma_name_lt_trans(a.drop_first(), b.drop_first(), c.drop_first());
    }
}

pub proof fn lemma_name_lt_total(a: Seq<char>, b: Seq<char>)
    ensures
        a == b || name_lt(a, b) || name_lt(b, a),
    decreases a.len(),
{
    if a.len() > 0 && b.len() > 0 && a[0] == b[0] {
        lemma_name_lt_total(a.drop_first(), b.drop_first());
        if a.drop_first() == b.drop_first() {
            assert(a =~= seq![a[0]] + a.drop_first());
            assert(b =~= seq![b[0]] + b.drop_first());
        }
    } else if a.len() == 0 && b.len() == 0 {
        assert(a =~= b);
    }
}

proof fn lemma_name_lt_asym(a: Seq<char>, b: Seq<char>)
    requires
        name_lt(a, b),
    ensures
        !name_lt(b, a),
{
    if name_lt(b, a) {
        lemma_name_lt_trans(a, b, a);
        lemma_name_lt_irreflexive(a);
    }
}

proof fn lemma_ranked_trans(scores: Seq<u32>, names: Seq<Seq<char>>, p: int, q: int, r: int)
    requires
        ranked_before(scores, names, p, q),
        ranked_before(scores, names, q, r),
    ensures
        ranked_before(scores, names, p, r),
{
    if scores[p] == scores[q] && scores[q] == scores[r] {
        if name_lt(names[p], names[q]) && name_lt(names[q], names[r]) {
            lemma_name_lt_trans(names[p], names[q], names[r]);
        }
    }
}

proof fn lemma_ranked_total(scores: Seq<u32>, names: Seq<Seq<char>>, p: int, q: int)
    requires
        p != q,
    ensures
        ranked_before(scores, names, p, q) || ranked_before(scores, names, q, p),
{
    lemma_name_lt_total(names[p], names[q]);
}

proof fn lemma_ranked_asym(scores: Seq<u32>, names: Seq<Seq<char>>, p: int, q: int)
    requires
        ranked_before(scores, names, p, q),
    ensures
        !ranked_before(scores, names, q, p),
{
    if scores[p] == scores[q] {
        if name_lt(names[p], names[q]) {
            lemma_name_lt_asym(names[p], names[q]);
        } else {
            lemma_name_lt_irreflexive(names[p]);
        }
    }
}

/// Whether `a` comes before `b` in lexicographic order.
pub fn name_less(a: &[char], b: &[char]) -> (r: bool)
    ensures
        r == name_lt(a@, b@),
{
    let mut i: usize = 0;
    assert(a@.subrange(0, a@.len() as int) =~= a@);
    assert(b@.subrange(0, b@.len() as int) =~= b@);
    assert(a@.subrange(0, 0) =~= b@.subrange(0, 0));
    while i < a.len() && i < b.len()
        invariant
            i <= a@.len(),
            i <= b@.len(),
            a@.subrange(0, i as int) == b@.subrange(0, i as int),
            name_lt(a@, b@) == name_lt(a@.subrange(i as int, a@.len() as int), b@.subrange(
                i as int,
                b@.len() as int,
            )),
        decreases a@.len() - i,
    {
        let ghost sa = a@.subrange(i as int, a@.len() as int);
        let ghost sb = b@.subrange(i as int, b@.len() as int);
        if a[i] != b[i] {
            assert(sa[0] == a@[i as int] && sb[0] == b@[i as int]);
            return a[i] < b[i];
        }
        assert(sa.drop_first() =~= a@.subrange(i + 1, a@.len() as int));
        assert(sb.drop_first() =~= b@.subrange(i + 1, b@.len() as int));
        assert(a@.subrange(0, i + 1) =~= a@.subrange(0, i as int).push(a@[i as int]));
        assert(b@.subrange(0, i + 1) =~= b@.subrange(0, i as int).push(b@[i as int]));
        i = i + 1;
    }
    i < b.len()
}

fn ranked_before_exec(scores: &[u32], names: &Vec<Vec<char>>, p: usize, q: usize) -> (r: bool)
    requires
        p < scores@.len(),
        q < scores@.len(),
        names@.len() == scores@.len(),
    ensures
        r == ranked_before(scores@, names@.map_values(|v: Vec<char>| v@), p as int, q as int),
{
    let ghost nm = names@.map_values(|v: Vec<char>| v@);
    assert(nm[p as int] == names@[p as int]@ && nm[q as int] == names@[q as int]@);
    if scores[p] != scores[q] {
        return scores[p] < scores[q];
    }
    if name_less(names[p].as_slice(), names[q].as_slice()) {
        return true;
    }
    if name_less(names[q].as_slice(), names[p].as_slice()) {
        proof {
            lemma_name_lt_asym(nm[q as int], nm[p as int]);
        }
        return false;
    }
    proof {
        lemma_name_lt_total(nm[p as int], nm[q as int]);
    }
    p < q
}

fn positions_in_order(scores: &[u32], names: &Vec<Vec<char>>) -> (ord: Vec<usize>)
    requires
        names@.len() == scores@.len(),
    ensures
        ranks_in_order(scores@, names@.map_values(|v: Vec<char>| v@), scores@.len() as int, ord@),
{
    let ghost nm = names@.map_values(|v: Vec<char>| v@);
    let m = scores.len();
    let mut ord: Vec<usize> = Vec::new();
    let mut p: usize = 0;
    while p < m
        invariant
            m == scores@.len(),
            names@.len() == m,
            nm == names@.map_values(|v: Vec<char>| v@),
            p <= m,
            ord@.len() == p,
            forall|k: int| 0 <= k < p ==> #[trigger] ord@[k] < p,
            forall|q: usize| q < p ==> #[trigger] ord@.contains(q),
            forall|k1: int, k2: int|
                0 <= k1 < k2 < p ==> ranked_before(
                    scores@,
                    nm,
                    #[trigger] ord@[k1] as int,
                    #[trigger] ord@[k2] as int,
                ),
        decreases m - p,
    {
        let mut idx: usize = 0;
        while idx < ord.len() && !ranked_before_exec(scores, names, p, ord[idx])
            invariant
                m == scores@.len(),
                names@.len() == m,
                nm == names@.map_values(|v: Vec<char>| v@),
                p < m,
                ord@.len() == p,
                forall|k: int| 0 <= k < p ==> #[trigger] ord@[k] < p,
                idx <= ord@.len(),
                forall|k: int| 0 <= k < idx ==> ranked_before(scores@, nm, #[trigger] ord@[k] as int, p as int),
            decreases ord@.len() - idx,
        {
            proof {
                lemma_ranked_total(scores@, nm, ord@[idx as int] as int, p as int);
            }
            idx = idx + 1;
        }
        let ghost prev = ord@;
        proof {
            if idx < prev.len() {
                assert forall|k: int| idx <= k < prev.len() implies ranked_before(
                    scores@,
                    nm,
                    p as int,
                    #[trigger] prev[k] as int,
                ) by {
                    if k > idx {
                        lemma_ranked_trans(scores@, nm, p as int, prev[idx as int] as int, prev[k] as int);
                    }
                }
            }
        }
        ord.insert(idx, p);
        proof {
            assert(ord@ == prev.insert(idx as int, p));
            assert forall|k: int| 0 <= k < p + 1 implies #[trigger] ord@[k] < p + 1 by {
                if k < idx {
                    assert(ord@[k] == prev[k]);
                } else if k > idx {
                    assert(ord@[k] == prev[k - 1]);
                }
            }
            assert forall|q: usize| q < p + 1 implies #[trigger] ord@.contains(q) by {
                if q == p {
                    assert(ord@[idx as int] == p);
                } else {
                    assert(prev.contains(q));
                    let k = choose|k: int| 0 <= k < prev.len() && prev[k] == q;
                    if k < idx {
                        assert(ord@[k] == prev[k]);
                    } else {
                        assert(ord@[k + 1] == prev[k]);
                    }
                }
            }
            assert forall|k1: int, k2: int| 0 <= k1 < k2 < p + 1 implies ranked_before(
                scores@,
                nm,
                #[trigger] ord@[k1] as int,
                #[trigger] ord@[k2] as int,
            ) by {
                if k2 < idx {
                    assert(ord@[k1] == prev[k1] && ord@[k2] == prev[k2]);
                } else if k2 == idx {
                    assert(ord@[k1] == prev[k1]);
                } else if k1 < idx {
                    assert(ord@[k1] == prev[k1] && ord@[k2] == prev[k2 - 1]);
                    lemma_ranked_trans(scores@, nm, prev[k1] as int, p as int, prev[k2 - 1] as int);
                } else if k1 == idx {
                    assert(ord@[k2] == prev[k2 - 1]);
                } else {
                    assert(ord@[k1] == prev[k1 - 1] && ord@[k2] == prev[k2 - 1]);
                }
            }
        }
        p = p + 1;
    }
    ord
}

/// The characters of each string.
fn all_chars(names: &Vec<String>) -> (r: Vec<Vec<char>>)
    ensures
        r@.map_values(|v: Vec<char>| v@) == names@.map_values(|s: String| s@),
{
    let mut r: Vec<Vec<char>> = Vec::new();
    let mut i: usize = 0;
    while i < names.len()
        invariant
            i <= names@.len(),
            r@.len() == i,
            forall|k: int| 0 <= k < i ==> #[trigger] r@[k]@ == names@[k]@,
        decreases names@.len() - i,
    {
        r.push(chars_of(names[i].as_str()));
        i = i + 1;
    }
    assert(r@.map_values(|v: Vec<char>| v@) =~= names@.map_values(|s: String| s@));
    r
}

/// The positions `0..m` ordered by score, then by name, then by position:
/// the order of a stable sort by score and name.
pub fn order_by_score_and_name(scores: &Vec<u32>, names: &Vec<String>) -> (ord: Vec<usize>)
    requires
        names@.len() == scores@.len(),
    ensures
        ranks_in_order(
            scores@,
            names@.map_values(|s: String| s@),
            scores@.len() as int,
            ord@,
        ),
{
    let chars = all_chars(names);
    assert(chars@.len() == chars@.map_values(|v: Vec<char>| v@).len());
    positions_in_order(scores.as_slice(), &chars)
}

/// The positions of `names` in the order of a stable sort by name.
pub fn order_by_name(names: &Vec<String>) -> (ord: Vec<usize>)
    ensures
        ranks_in_order(
            Seq::new(names@.len(), |i: int| 0u32),
            names@.map_values(|s: String| s@),
            names@.len() as int,
            ord@,
        ),
{
    let mut zeros: Vec<u32> = Vec::new();
    let mut i: usize = 0;
    while i < names.len()
        invariant
            i <= names@.len(),
            zeros@.len() == i,
            forall|k: int| 0 <= k < i ==> zeros@[k] == 0,
        decreases names@.len() - i,
    {
        zeros.push(0);
        i = i + 1;
    }
    assert(zeros@ =~= Seq::new(names@.len(), |i: int| 0u32));
    order_by_score_and_name(&zeros, names)
}

/// The first of a ranked order has the lowest score: the kept file is the
/// most original one.
pub proof fn law_first_has_lowest_score(
    scores: Seq<u32>,
    names: Seq<Seq<char>>,
    m: int,
    ord: Seq<usize>,
    p: usize,
)
    requires
        ranks_in_order(scores, names, m, ord),
        m == scores.len(),
        p < m,
    ensures
        scores[ord[0] as int] <= scores[p as int],
{
    assert(ord.contains(p));
    let k = choose|k: int| 0 <= k < ord.len() && ord[k] == p;
    if k > 0 {
        assert(ranked_before(scores, names, ord[0] as int, ord[k] as int));
    }
}

/// A ranked order lists every position exactly once.
pub proof fn law_order_is_permutation(
    scores: Seq<u32>,
    names: Seq<Seq<char>>,
    m: int,
    ord: Seq<usize>,
    k1: int,
    k2: int,
)
    requires
        ranks_in_order(scores, names, m, ord),
        0 <= k1 < m,
        0 <= k2 < m,
        k1 != k2,
    ensures
        ord[k1] != ord[k2],
{
    if k1 < k2 {
        assert(ranked_before(scores, names, ord[k1] as int, ord[k2] as int));
        if ord[k1] == ord[k2] {
            lemma_ranked_asym(scores, names, ord[k1] as int, ord[k2] as int);
        }
    } else {
        assert(ranked_before(scores, names, ord[k2] as int, ord[k1] as int));
        if ord[k1] == ord[k2] {
            lemma_ranked_asym(scores, names, ord[k2] as int, ord[k1] as int);
        }
    }
}

} // verus!
