//! Character-sequence primitives: searching, decimal parsing, conversions
//! between `str` and character vectors, and the std text functions the
//! library relies on.
use vstd::prelude::*;
use vstd::utf8::is_ascii_chars;

verus! {

broadcast use vstd::string::group_string_axioms;

/// `p` occurs in `s` starting at index `i`.
pub open spec fn occurs_at(s: Seq<char>, p: Seq<char>, i: int) -> bool {
    0 <= i && i + p.len() <= s.len() && s.subrange(i, i + p.len()) == p
}

/// `p` occurs somewhere in `s`.
#[verifier::opaque]
pub open spec fn contains(s: Seq<char>, p: Seq<char>) -> bool {
    exists|i: int| occurs_at(s, p, i)
}

/// The index of the first occurrence of `p` in `s`.
#[verifier::opaque]
pub open spec fn find_first(s: Seq<char>, p: Seq<char>) -> Option<int> {
    if contains(s, p) {
        Some(choose|i: int| occurs_at(s, p, i) && forall|j: int| 0 <= j < i ==> !occurs_at(s, p, j))
    } else {
        None
    }
}

/// The index of the last occurrence of `p` in `s`.
#[verifier::opaque]
pub open spec fn find_last(s: Seq<char>, p: Seq<char>) -> Option<int> {
    if contains(s, p) {
        Some(choose|i: int| occurs_at(s, p, i) && forall|j: int| i < j ==> !occurs_at(s, p, j))
    } else {
        None
    }
}

/// An `Option<usize>` read as an optional integer.
pub open spec fn opt_int(r: Option<usize>) -> Option<int> {
    match r {
        Some(i) => Some(i as int),
        None => None,
    }
}

pub open spec fn is_ascii_digit(c: char) -> bool {
    '0' <= c <= '9'
}

/// The value of a string of decimal digits.
pub open spec fn digits_value(d: Seq<char>) -> int
    decreases d.len(),
{
    if d.len() == 0 {
        0
    } else {
        digits_value(d.drop_last()) * 10 + (d.last() as int - '0' as int)
    }
}

pub open spec fn all_ascii_digits(d: Seq<char>) -> bool {
    forall|i: int| 0 <= i < d.len() ==> is_ascii_digit(#[trigger] d[i])
}

/// What `str::parse::<u32>` accepts: an optional `+`, then one or more
/// ASCII digits whose value fits in a `u32`.
pub open spec fn parses_as_u32(s: Seq<char>) -> bool {
    let d = if s.len() > 0 && s[0] == '+' {
        s.drop_first()
    } else {
        s
    };
    d.len() > 0 && all_ascii_digits(d) && digits_value(d) <= u32::MAX
}

/// The value of an all-digit string is at least that of each of its prefixes.
pub proof fn lemma_digits_value_prefix(d: Seq<char>, k: int)
    requires
        all_ascii_digits(d),
        0 <= k <= d.len(),
    ensures
        0 <= digits_value(d.subrange(0, k)) <= digits_value(d),
    decreases d.len(),
{
    if d.len() > 0 {
        let e = d.drop_last();
        assert(all_ascii_digits(e)) by {
            assert forall|i: int| 0 <= i < e.len() implies is_ascii_digit(#[trigger] e[i]) by {
                assert(e[i] == d[i]);
            }
        }
        if k < d.len() {
            lemma_digits_value_prefix(e, k);
            assert(e.subrange(0, k) =~= d.subrange(0, k));
        } else {
            assert(d.subrange(0, k) =~= d);
            lemma_digits_value_prefix(e, e.len() as int);
            assert(e.subrange(0, e.len() as int) =~= e);
        }
        assert(is_ascii_digit(d[d.len() - 1]));
    }
}

/// The first occurrence is the occurrence before which there is none.
pub proof fn lemma_find_first_at(s: Seq<char>, p: Seq<char>, i: int)
    requires
        occurs_at(s, p, i),
        forall|j: int| 0 <= j < i ==> !occurs_at(s, p, j),
    ensures
        find_first(s, p) == Some(i),
{
    reveal(find_first);
    reveal(contains);
    let k = choose|k: int| occurs_at(s, p, k) && forall|j: int| 0 <= j < k ==> !occurs_at(s, p, j);
    if k < i {
    } else if k > i {
    }
}

/// The last occurrence is the occurrence after which there is none.
pub proof fn lemma_find_last_at(s: Seq<char>, p: Seq<char>, i: int)
    requires
        occurs_at(s, p, i),
        forall|j: int| i < j ==> !occurs_at(s, p, j),
    ensures
        find_last(s, p) == Some(i),
{
    reveal(find_last);
    reveal(contains);
    let k = choose|k: int| occurs_at(s, p, k) && forall|j: int| k < j ==> !occurs_at(s, p, j);
    if k < i {
    } else if k > i {
    }
}

proof fn lemma_minimal_occurrence(s: Seq<char>, p: Seq<char>, i: int)
    requires
        occurs_at(s, p, i),
    ensures
        exists|k: int| occurs_at(s, p, k) && forall|j: int| 0 <= j < k ==> !occurs_at(s, p, j),
    decreases i,
{
    if exists|j: int| 0 <= j < i && occurs_at(s, p, j) {
        let j = choose|j: int| 0 <= j < i && occurs_at(s, p, j);
        lemma_minimal_occurrence(s, p, j);
    } else {
        assert(occurs_at(s, p, i) && forall|j: int| 0 <= j < i ==> !occurs_at(s, p, j));
    }
}

proof fn lemma_maximal_occurrence(s: Seq<char>, p: Seq<char>, i: int)
    requires
        occurs_at(s, p, i),
    ensures
        exists|k: int| occurs_at(s, p, k) && forall|j: int| k < j ==> !occurs_at(s, p, j),
    decreases s.len() - i,
{
    if exists|j: int| i < j && occurs_at(s, p, j) {
        let j = choose|j: int| i < j && occurs_at(s, p, j);
        lemma_maximal_occurrence(s, p, j);
    } else {
        assert(occurs_at(s, p, i) && forall|j: int| i < j ==> !occurs_at(s, p, j));
    }
}

/// What `find_first` finds is the first occurrence; `None` means none.
pub proof fn lemma_find_first_props(s: Seq<char>, p: Seq<char>)
    ensures
        match find_first(s, p) {
            Some(i) => occurs_at(s, p, i) && forall|j: int| 0 <= j < i ==> !occurs_at(s, p, j),
            None => forall|i: int| !occurs_at(s, p, i),
        },
{
    reveal(find_first);
    reveal(contains);
    if contains(s, p) {
        let i = choose|i: int| occurs_at(s, p, i);
        lemma_minimal_occurrence(s, p, i);
    }
}

/// What `find_last` finds is the last occurrence; `None` means none.
pub proof fn lemma_find_last_props(s: Seq<char>, p: Seq<char>)
    ensures
        match find_last(s, p) {
            Some(i) => occurs_at(s, p, i) && forall|j: int| i < j ==> !occurs_at(s, p, j),
            None => forall|i: int| !occurs_at(s, p, i),
        },
{
    reveal(find_last);
    reveal(contains);
    if contains(s, p) {
        let i = choose|i: int| occurs_at(s, p, i);
        lemma_maximal_occurrence(s, p, i);
    }
}

/// What `find_first` finds is an occurrence.
pub proof fn lemma_find_first_occurs(s: Seq<char>, p: Seq<char>)
    ensures
        find_first(s, p) matches Some(i) ==> occurs_at(s, p, i),
{
    reveal(find_first);
    reveal(contains);
    if contains(s, p) {
        let i = choose|i: int| occurs_at(s, p, i);
        lemma_minimal_occurrence(s, p, i);
    }
}

/// The characters of `s`, in order.
pub fn chars_of(s: &str) -> (v: Vec<char>)
    ensures
        v@ == s@,
{
    let mut v: Vec<char> = Vec::new();
    for c in it: s.chars()
        invariant
            v@ == it.seq().take(it.index() as int),
    {
        v.push(c);
    }
    v
}

/// Calls `String::push`: appends `c` at the end of `s`.
#[verifier::external_body]
fn push_char(s: &mut String, c: char)
    ensures
        final(s)@ == old(s)@.push(c),
{
    s.push(c);
}

/// The string made of the characters of `v`.
pub fn string_of(v: &[char]) -> (s: String)
    ensures
        s@ == v@,
{
    let mut s = String::new();
    let mut i: usize = 0;
    while i < v.len()
        invariant
            i <= v@.len(),
            s@ == v@.subrange(0, i as int),
        decreases v@.len() - i,
    {
        push_char(&mut s, v[i]);
        i = i + 1;
        assert(s@ =~= v@.subrange(0, i as int));
    }
    assert(v@.subrange(0, v@.len() as int) =~= v@);
    s
}

/// The result of `str::to_lowercase` on a string: its lowercase form by the
/// Unicode rules, which map most characters one by one but look at the
/// neighbours of some (a final capital sigma).
pub uninterp spec fn spec_to_lowercase(s: Seq<char>) -> Seq<char>;

/// The lowercase letter of an ASCII capital: `A`-`Z` become `a`-`z`, every
/// other character stays.
pub open spec fn ascii_lower_char(c: char) -> char {
    if 'A' <= c <= 'Z' {
        seq![
            'a', 'b', 'c', 'd', 'e', 'f', 'g', 'h', 'i', 'j', 'k', 'l', 'm', 'n', 'o', 'p', 'q', 'r',
            's', 't', 'u', 'v', 'w', 'x', 'y', 'z',
        ][c as int - 'A' as int]
    } else {
        c
    }
}

/// `s` with its ASCII capitals lowered, as `str::to_ascii_lowercase` gives it.
pub open spec fn ascii_lower(s: Seq<char>) -> Seq<char> {
    s.map_values(|c: char| ascii_lower_char(c))
}

/// Calls `str::to_lowercase`.  Its result is a function of the characters
/// of `s`, named `spec_to_lowercase`.  One fact is stated, as std documents
/// it: `to_lowercase` lowers ASCII characters as `to_ascii_lowercase` does
/// (`A`-`Z` to `a`-`z`, other ASCII characters unchanged), so on a string
/// of ASCII characters alone the two agree.  What it does to other
/// characters is not stated.
#[verifier::external_body]
pub(crate) fn to_lowercase(s: &str) -> (r: String)
    ensures
        r@ == spec_to_lowercase(s@),
        is_ascii_chars(s@) ==> r@ == ascii_lower(s@),
{
    s.to_lowercase()
}

/// Lowering ASCII capitals keeps the length, and keeps or breaks nothing
/// but letters: a character that is not a letter is its own lowercase.
pub proof fn lemma_ascii_lower_char(c: char)
    ensures
        !('A' <= c <= 'Z') && !('a' <= c <= 'z') ==> ascii_lower_char(c) == c,
        ('A' <= c <= 'Z') || ('a' <= c <= 'z') ==> 'a' <= ascii_lower_char(c) <= 'z',
        '\0' <= c <= '\u{7f}' ==> '\0' <= ascii_lower_char(c) <= '\u{7f}',
{
}

/// Whether `p` occurs in `s` at index `i`.
pub fn occurs_at_exec(s: &[char], p: &[char], i: usize) -> (r: bool)
    ensures
        r == occurs_at(s@, p@, i as int),
{
    let n = s.len();
    if i > n || p.len() > n - i {
        return false;
    }
    let mut k: usize = 0;
    while k < p.len()
        invariant
            n == s@.len(),
            i + p@.len() <= s@.len(),
            k <= p@.len(),
            forall|m: int| 0 <= m < k ==> s@[i + m] == p@[m],
        decreases p@.len() - k,
    {
        if s[i + k] != p[k] {
            assert(s@.subrange(i as int, i + p@.len())[k as int] != p@[k as int]);
            return false;
        }
        k = k + 1;
    }
    assert(s@.subrange(i as int, i + p@.len()) =~= p@);
    true
}

/// Occurrences in a suffix are occurrences in the whole, shifted.
pub proof fn lemma_occurs_shift(s: Seq<char>, p: Seq<char>, from: int, j: int)
    requires
        0 <= from <= s.len(),
        0 <= j,
    ensures
        occurs_at(s.subrange(from, s.len() as int), p, j) == occurs_at(s, p, from + j),
{
    if from + j + p.len() <= s.len() {
        assert(s.subrange(from, s.len() as int).subrange(j, j + p.len()) =~= s.subrange(
            from + j,
            from + j + p.len(),
        ));
    }
}

/// The index of the first occurrence of `p` in `s` at or after `from`.
pub fn find_from(s: &[char], p: &[char], from: usize) -> (r: Option<usize>)
    requires
        from <= s@.len(),
    ensures
        match r {
            Some(i) => from <= i && find_first(s@.subrange(from as int, s@.len() as int), p@)
                == Some(i - from),
            None => find_first(s@.subrange(from as int, s@.len() as int), p@) is None,
        },
        r matches Some(i) ==> occurs_at(s@, p@, i as int),
{
    reveal(find_first);
    reveal(contains);
    let ghost t = s@.subrange(from as int, s@.len() as int);
    if p.len() == 0 {
        assert(s@.subrange(from as int, from as int) =~= p@);
        assert(t.subrange(0, 0) =~= p@);
        assert(occurs_at(t, p@, 0));
        proof {
            let k = choose|k: int|
                occurs_at(t, p@, k) && forall|j: int| 0 <= j < k ==> !occurs_at(t, p@, j);
            assert(k <= 0);
        }
        return Some(from);
    }
    let mut i: usize = from;
    while i < s.len()
        invariant
            p@.len() > 0,
            from <= i <= s@.len(),
            t == s@.subrange(from as int, s@.len() as int),
            forall|j: int| from <= j < i ==> !occurs_at(s@, p@, j),
        decreases s@.len() - i,
    {
        if occurs_at_exec(s, p, i) {
            proof {
                reveal(find_first);
                reveal(contains);
                lemma_occurs_shift(s@, p@, from as int, i - from);
                assert(occurs_at(t, p@, i - from));
                assert forall|j: int| 0 <= j < i - from implies !occurs_at(t, p@, j) by {
                    lemma_occurs_shift(s@, p@, from as int, j);
                }
                let k = choose|k: int|
                    occurs_at(t, p@, k) && forall|j: int| 0 <= j < k ==> !occurs_at(t, p@, j);
                if k < i - from {
                } else if k > i - from {
                }
            }
            return Some(i);
        }
        i = i + 1;
    }
    assert forall|j: int| !occurs_at(t, p@, j) by {
        if 0 <= j && occurs_at(t, p@, j) {
            lemma_occurs_shift(s@, p@, from as int, j);
            assert(from + j < i);
        }
    }
    None
}

/// The index of the first occurrence of `p` in `s`.
pub fn find(s: &[char], p: &[char]) -> (r: Option<usize>)
    ensures
        opt_int(r) == find_first(s@, p@),
        r is Some <==> contains(s@, p@),
        r matches Some(i) ==> occurs_at(s@, p@, i as int),
{
    reveal(find_first);
    assert(s@.subrange(0, s@.len() as int) =~= s@);
    find_from(s, p, 0)
}

/// The index of the last occurrence of `p` in `s`.
pub fn rfind(s: &[char], p: &[char]) -> (r: Option<usize>)
    ensures
        opt_int(r) == find_last(s@, p@),
        r is Some <==> contains(s@, p@),
        r matches Some(i) ==> occurs_at(s@, p@, i as int),
{
    reveal(find_last);
    reveal(contains);
    if p.len() == 0 {
        assert(s@.subrange(s@.len() as int, s@.len() as int) =~= p@);
        assert(occurs_at(s@, p@, s@.len() as int));
        proof {
            let k = choose|k: int| occurs_at(s@, p@, k) && forall|j: int| k < j ==> !occurs_at(s@, p@, j);
            assert(k >= s@.len());
        }
        return Some(s.len());
    }
    let mut i: usize = s.len();
    while i > 0
        invariant
            p@.len() > 0,
            i <= s@.len(),
            forall|j: int| i <= j ==> !occurs_at(s@, p@, j),
        decreases i,
    {
        i = i - 1;
        if occurs_at_exec(s, p, i) {
            proof {
                reveal(find_last);
                reveal(contains);
                let k = choose|k: int| occurs_at(s@, p@, k) && forall|j: int| k < j ==> !occurs_at(s@, p@, j);
                assert(occurs_at(s@, p@, i as int));
                if k < i {
                } else if k > i {
                }
            }
            return Some(i);
        }
    }
    assert forall|j: int| !occurs_at(s@, p@, j) by {
        if 0 <= j && occurs_at(s@, p@, j) {
            assert(i <= j);
        }
    }
    None
}

/// Whether `p` occurs in `s`.
pub fn contains_exec(s: &[char], p: &[char]) -> (r: bool)
    ensures
        r == contains(s@, p@),
{
    reveal(find_first);
    find(s, p).is_some()
}

/// Whether the characters `s[lo..hi]` would be accepted by `str::parse::<u32>`.
pub fn parses_as_u32_exec(s: &[char], lo: usize, hi: usize) -> (r: bool)
    requires
        lo <= hi <= s@.len(),
    ensures
        r == parses_as_u32(s@.subrange(lo as int, hi as int)),
{
    let ghost t = s@.subrange(lo as int, hi as int);
    let mut start = lo;
    if lo < hi && s[lo] == '+' {
        start = lo + 1;
    }
    let ghost d = s@.subrange(start as int, hi as int);
    assert(d =~= (if t.len() > 0 && t[0] == '+' {
        t.drop_first()
    } else {
        t
    }));
    if start == hi {
        return false;
    }
    let mut acc: u64 = 0;
    let mut i = start;
    while i < hi
        invariant
            lo <= start <= i <= hi <= s@.len(),
            d == s@.subrange(start as int, hi as int),
            parses_as_u32(s@.subrange(lo as int, hi as int)) == (d.len() > 0 && all_ascii_digits(d)
                && digits_value(d) <= u32::MAX),
            acc == digits_value(s@.subrange(start as int, i as int)),
            acc <= u32::MAX,
            all_ascii_digits(s@.subrange(start as int, i as int)),
        decreases hi - i,
    {
        let c = s[i];
        if !('0' <= c && c <= '9') {
            assert(d[i - start] == c);
            return false;
        }
        let ghost prev = s@.subrange(start as int, i as int);
        let ghost next = s@.subrange(start as int, i + 1);
        assert(next.drop_last() =~= prev);
        assert(all_ascii_digits(next)) by {
            assert forall|m: int| 0 <= m < next.len() implies is_ascii_digit(#[trigger] next[m]) by {
                if m < prev.len() {
                    assert(next[m] == prev[m]);
                }
            }
        }
        acc = acc * 10 + ((c as u32) - ('0' as u32)) as u64;
        i = i + 1;
        if acc > 0xffff_ffff {
            proof {
                if all_ascii_digits(d) {
                    assert(d.subrange(0, i - start) =~= next);
                    lemma_digits_value_prefix(d, i - start);
                }
            }
            return false;
        }
    }
    assert(d =~= s@.subrange(start as int, i as int));
    true
}

} // verus!
