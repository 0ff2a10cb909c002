//! Heuristics that recognise names of copied files, such as `photo (2).jpg`
//! or `report - Copy.txt`, and score how "original" a name looks.
use vstd::prelude::*;
use vstd::utf8::{encode_utf8, is_ascii_chars, is_ascii_chars_encode_utf8};
use crate::text::{
    ascii_lower, chars_of, contains, lemma_ascii_lower_char, contains_exec, find_first, find_from, find_last, occurs_at, occurs_at_exec,
    find, is_ascii_digit, lemma_find_first_at, lemma_find_first_occurs, lemma_find_first_props, lemma_find_last_at, parses_as_u32, parses_as_u32_exec, rfind, spec_to_lowercase, string_of, to_lowercase,
};

verus! {

pub open spec fn space_paren() -> Seq<char> {
    seq![' ', '(']
}

pub open spec fn close_paren() -> Seq<char> {
    seq![')']
}

pub open spec fn copy_word() -> Seq<char> {
    seq!['c', 'o', 'p', 'y']
}

pub open spec fn space_copy() -> Seq<char> {
    seq![' ', 'c', 'o', 'p', 'y']
}

pub open spec fn dash_copy() -> Seq<char> {
    seq![' ', '-', ' ', 'c', 'o', 'p', 'y']
}

pub open spec fn underscore_copy() -> Seq<char> {
    seq!['_', 'c', 'o', 'p', 'y']
}

pub open spec fn hyphen_copy() -> Seq<char> {
    seq!['-', 'c', 'o', 'p', 'y']
}

/// The index of the first `)` at or after `start`.
pub open spec fn paren_end(name: Seq<char>, start: int) -> int {
    start + find_first(name.subrange(start, name.len() as int), close_paren())->0
}

/// The text between the ` (` at `start` and the next `)` is a number that
/// `u32` parsing accepts, or the word `copy`.
pub open spec fn paren_names_copy(name: Seq<char>, start: int) -> bool {
    let inner = name.subrange(start + 2, paren_end(name, start));
    parses_as_u32(inner) || inner == copy_word()
}

/// The last ` (` of `name` is closed by a later `)` and the group is
/// `(N)` or `(copy)`.
pub open spec fn last_paren_names_copy(name: Seq<char>) -> bool {
    &&& contains(name, space_paren())
    &&& find_first(
        name.subrange(find_last(name, space_paren())->0, name.len() as int),
        close_paren(),
    ) is Some
    &&& paren_names_copy(name, find_last(name, space_paren())->0)
}

/// `name` looks like the name of a copy: its last ` (` group is `(N)` or
/// `(copy)`, or it holds ` copy` or ` - copy`.
pub open spec fn spec_is_copy_pattern(name: Seq<char>) -> bool {
    last_paren_names_copy(name) || contains(name, space_copy()) || contains(name, dash_copy())
}

/// The score of a name for picking the original among identical files:
/// 1 for a copy pattern in its lowercase form, else 0.
pub open spec fn spec_copy_score(name: Seq<char>) -> u32 {
    if spec_is_copy_pattern(spec_to_lowercase(name)) {
        1
    } else {
        0
    }
}

/// The copy score of a name of ASCII characters alone, whose lowercase form
/// is known: 1 for a copy pattern with its capitals lowered, else 0.
pub open spec fn ascii_copy_score(name: Seq<char>) -> u32 {
    if spec_is_copy_pattern(ascii_lower(name)) {
        1
    } else {
        0
    }
}

fn space_paren_vec() -> (v: Vec<char>)
    ensures
        v@ == space_paren(),
{
    let v = vec![' ', '('];
    assert(v@ =~= space_paren());
    v
}

fn close_paren_vec() -> (v: Vec<char>)
    ensures
        v@ == close_paren(),
{
    let v = vec![')'];
    assert(v@ =~= close_paren());
    v
}

/// Whether `s[lo..hi]` equals `p`.
fn range_equals(s: &[char], lo: usize, hi: usize, p: &[char]) -> (r: bool)
    requires
        lo <= hi <= s@.len(),
    ensures
        r == (s@.subrange(lo as int, hi as int) == p@),
{
    if hi - lo != p.len() {
        assert(s@.subrange(lo as int, hi as int).len() != p@.len());
        return false;
    }
    occurs_at_exec(s, p, lo)
}

/// A ` (` at `start` is closed by a `)` at least two places later.
proof fn lemma_paren_end(s: Seq<char>, start: int, end: int)
    requires
        occurs_at(s, space_paren(), start),
        occurs_at(s, close_paren(), end),
        start <= end,
    ensures
        start + 2 <= end,
{
    assert(s[start] == s.subrange(start, start + 2)[0]);
    assert(s[start + 1] == s.subrange(start, start + 2)[1]);
    assert(s[end] == s.subrange(end, end + 1)[0]);
}

/// Whether the ` (` at `start`, closed by the `)` at `end`, encloses a
/// number or the word `copy`.
fn paren_names_copy_exec(s: &[char], start: usize, end: usize) -> (r: bool)
    requires
        start + 2 <= end <= s@.len(),
    ensures
        r == (parses_as_u32(s@.subrange(start + 2, end as int)) || s@.subrange(
            start + 2,
            end as int,
        ) == copy_word()),
{
    let copy = vec!['c', 'o', 'p', 'y'];
    parses_as_u32_exec(s, start + 2, end) || range_equals(s, start + 2, end, copy.as_slice())
}

fn last_paren_names_copy_exec(s: &[char]) -> (r: bool)
    ensures
        r == last_paren_names_copy(s@),
{
    let sp = space_paren_vec();
    let cp = close_paren_vec();
    match rfind(s, sp.as_slice()) {
        Some(start) => match find_from(s, cp.as_slice(), start) {
            Some(end) => {
                proof {
                    lemma_paren_end(s@, start as int, end as int);
                }
                paren_names_copy_exec(s, start, end)
            },
            None => false,
        },
        None => false,
    }
}

fn is_copy_pattern_chars(s: &[char]) -> (r: bool)
    ensures
        r == spec_is_copy_pattern(s@),
{
    let space_copy = vec![' ', 'c', 'o', 'p', 'y'];
    let dash_copy = vec![' ', '-', ' ', 'c', 'o', 'p', 'y'];
    last_paren_names_copy_exec(s) || contains_exec(s, space_copy.as_slice()) || contains_exec(
        s,
        dash_copy.as_slice(),
    )
}

/// Whether `name` looks like the name of a copy.
pub fn is_copy_pattern(name: &str) -> (r: bool)
    ensures
        r == spec_is_copy_pattern(name@),
{
    let s = chars_of(name);
    is_copy_pattern_chars(s.as_slice())
}

/// 1 when the lowercase form of `name` looks like a copy, else 0: the lower
/// score marks the original among identical files.
pub fn copy_score(name: &str) -> (r: u32)
    ensures
        r == spec_copy_score(name@),
        is_ascii_chars(name@) ==> r == ascii_copy_score(name@),
{
    let lower = to_lowercase(name);
    if is_copy_pattern(lower.as_str()) {
        1
    } else {
        0
    }
}

/// The copy penalty of a lowercase name: 10 for a `(N)` or `(copy)` last
/// group, 10 for a ` copy`, ` - copy` or `_copy`.
pub open spec fn copy_penalty(lower: Seq<char>) -> int {
    (if last_paren_names_copy(lower) {
        10int
    } else {
        0int
    }) + (if contains(lower, space_copy()) || contains(lower, dash_copy()) || contains(
        lower,
        underscore_copy(),
    ) {
        10int
    } else {
        0int
    })
}

/// The score of a name for picking the original among similar files; lower
/// is more original: the copy penalty of its lowercase form plus a tenth
/// of its UTF-8 length (taken as `u32`).
pub open spec fn spec_originality_score(name: Seq<char>) -> int {
    copy_penalty(spec_to_lowercase(name)) + ((encode_utf8(name).len() as usize) as u32) / 10
}

/// The originality score of a name of ASCII characters alone (one byte
/// each): the copy penalty with its capitals lowered plus a tenth of its
/// length (taken as `u32`).
pub open spec fn ascii_originality_score(name: Seq<char>) -> int {
    copy_penalty(ascii_lower(name)) + ((name.len() as usize) as u32) / 10
}

/// The originality score from the lowercase form of a name and the UTF-8
/// length of the name.
pub fn originality_score_lowered(lower: &str, name_len: usize) -> (r: u32)
    ensures
        r == copy_penalty(lower@) + (name_len as u32) / 10,
{
    let s = chars_of(lower);
    let mut score: u32 = 0;
    if last_paren_names_copy_exec(s.as_slice()) {
        score = score + 10;
    }
    if has_copy_suffix_word(s.as_slice()) {
        score = score + 10;
    }
    score + (name_len as u32) / 10
}

/// How "original" `name` looks; lower is more original.
pub fn originality_score(name: &str) -> (r: u32)
    ensures
        r == spec_originality_score(name@),
        is_ascii_chars(name@) ==> r == ascii_originality_score(name@),
{
    proof {
        if is_ascii_chars(name@) {
            is_ascii_chars_encode_utf8(name@);
        }
    }
    let lower = to_lowercase(name);
    originality_score_lowered(lower.as_str(), name.len())
}

fn has_copy_suffix_word(s: &[char]) -> (r: bool)
    ensures
        r == (contains(s@, space_copy()) || contains(s@, dash_copy()) || contains(
            s@,
            underscore_copy(),
        )),
{
    let space_copy = vec![' ', 'c', 'o', 'p', 'y'];
    let dash_copy = vec![' ', '-', ' ', 'c', 'o', 'p', 'y'];
    let underscore_copy = vec!['_', 'c', 'o', 'p', 'y'];
    contains_exec(s, space_copy.as_slice()) || contains_exec(s, dash_copy.as_slice())
        || contains_exec(s, underscore_copy.as_slice())
}

/// Where the search goes on after a group at `start` is cut out: one place
/// back, so that a ` (` formed by the cut is found too.
pub open spec fn resume_after_cut(start: int) -> int {
    if start > 0 {
        start - 1
    } else {
        0
    }
}

/// From index `pos` on, removes every ` (`...`)` group that encloses a
/// number or the word `copy` (the group of a ` (` ends at the first `)`
/// after it); other groups are kept and skipped.  After a cut the search
/// goes on one place back, where the cut may have formed a new ` (`.
pub open spec fn strip_paren_copies_from(s: Seq<char>, pos: int) -> Seq<char>
    decreases s.len() - pos,
{
    if 0 <= pos <= s.len() {
        match find_first(s.subrange(pos, s.len() as int), space_paren()) {
            Some(k) => {
                let start = pos + k;
                match find_first(s.subrange(start, s.len() as int), close_paren()) {
                    Some(off) => {
                        if 0 <= k && 2 <= off && start + off < s.len() {
                            if paren_names_copy(s, start) {
                                strip_paren_copies_from(
                                    s.subrange(0, start) + s.subrange(start + off + 1, s.len() as int),
                                    resume_after_cut(start),
                                )
                            } else {
                                strip_paren_copies_from(s, start + 1)
                            }
                        } else {
                            s
                        }
                    },
                    None => s,
                }
            },
            None => s,
        }
    } else {
        s
    }
}

/// `s` without any `(N)` or `(copy)` group after a space.
pub open spec fn strip_paren_copies(s: Seq<char>) -> Seq<char> {
    strip_paren_copies_from(s, 0)
}

/// `s` cut before the first occurrence of `p`, if any.
pub open spec fn cut_at(s: Seq<char>, p: Seq<char>) -> Seq<char> {
    match find_first(s, p) {
        Some(pos) => s.subrange(0, pos),
        None => s,
    }
}

/// The copy markers removed from a name: `(N)`/`(copy)` groups, then
/// everything from ` - copy`, ` copy`, `_copy` and `-copy`, in that order.
pub open spec fn spec_remove_copy_patterns(s: Seq<char>) -> Seq<char> {
    cut_at(
        cut_at(cut_at(cut_at(strip_paren_copies(s), dash_copy()), space_copy()), underscore_copy()),
        hyphen_copy(),
    )
}

/// `v` without the characters `v[a..b]`.
fn remove_range(v: &Vec<char>, a: usize, b: usize) -> (r: Vec<char>)
    requires
        a <= b <= v@.len(),
    ensures
        r@ == v@.subrange(0, a as int) + v@.subrange(b as int, v@.len() as int),
{
    let mut r: Vec<char> = Vec::new();
    let mut i: usize = 0;
    while i < a
        invariant
            i <= a <= b <= v@.len(),
            r@ == v@.subrange(0, i as int),
        decreases a - i,
    {
        r.push(v[i]);
        i = i + 1;
        assert(r@ =~= v@.subrange(0, i as int));
    }
    let mut j: usize = b;
    while j < v.len()
        invariant
            a <= b <= j <= v@.len(),
            r@ == v@.subrange(0, a as int) + v@.subrange(b as int, j as int),
        decreases v@.len() - j,
    {
        r.push(v[j]);
        j = j + 1;
        assert(r@ =~= v@.subrange(0, a as int) + v@.subrange(b as int, j as int));
    }
    r
}

/// Cuts `v` before the first occurrence of `p`.
fn cut_at_exec(v: &mut Vec<char>, p: &[char])
    ensures
        final(v)@ == cut_at(old(v)@, p@),
{
    match find(v.as_slice(), p) {
        Some(pos) => {
            v.truncate(pos);
        },
        None => {},
    }
}

/// One step of `strip_paren_copies_from`: the next ` (` group from `pos`
/// removed when it names a copy, or skipped when it does not; `None` when
/// no closed group is left.
fn strip_step(v: &Vec<char>, pos: usize) -> (r: Option<(Vec<char>, usize)>)
    requires
        pos <= v@.len(),
    ensures
        match r {
            Some((w, q)) => q <= w@.len() && w@.len() - q < v@.len() - pos && strip_paren_copies_from(
                w@,
                q as int,
            ) == strip_paren_copies_from(v@, pos as int),
            None => strip_paren_copies_from(v@, pos as int) == v@,
        },
{
    let sp = space_paren_vec();
    let cp = close_paren_vec();
    let n = v.len();
    match find_from(v.as_slice(), sp.as_slice(), pos) {
        Some(start) => match find_from(v.as_slice(), cp.as_slice(), start) {
            Some(end) => {
                proof {
                    lemma_paren_end(v@, start as int, end as int);
                    assert(paren_end(v@, start as int) == end);
                    assert(end < n);
                    assert(find_first(v@.subrange(pos as int, v@.len() as int), space_paren())
                        == Some(start - pos));
                    assert(find_first(v@.subrange(start as int, v@.len() as int), close_paren())
                        == Some(end - start));
                }
                if paren_names_copy_exec(v.as_slice(), start, end) {
                    let w = remove_range(v, start, end + 1);
                    assert(w@ == v@.subrange(0, start as int) + v@.subrange(
                        start + (end - start) + 1,
                        v@.len() as int,
                    ));
                    let q: usize = if start > 0 {
                        start - 1
                    } else {
                        0
                    };
                    Some((w, q))
                } else {
                    let w = remove_range(v, 0, 0);
                    assert(w@ =~= v@);
                    Some((w, start + 1))
                }
            },
            None => None,
        },
        None => None,
    }
}

pub(crate) fn remove_copy_patterns_chars(s: Vec<char>) -> (r: Vec<char>)
    ensures
        r@ == spec_remove_copy_patterns(s@),
{
    let mut result = s;
    let mut pos: usize = 0;
    let mut go = true;
    while go
        invariant
            pos <= result@.len(),
            strip_paren_copies_from(result@, pos as int) == strip_paren_copies(s@),
            !go ==> strip_paren_copies_from(result@, pos as int) == result@,
        decreases (result@.len() - pos) * 2 + if go {
            1int
        } else {
            0int
        },
    {
        match strip_step(&result, pos) {
            Some((next, q)) => {
                result = next;
                pos = q;
            },
            None => {
                go = false;
            },
        }
    }
    let dash_copy = vec![' ', '-', ' ', 'c', 'o', 'p', 'y'];
    let space_copy = vec![' ', 'c', 'o', 'p', 'y'];
    let underscore_copy = vec!['_', 'c', 'o', 'p', 'y'];
    let hyphen_copy = vec!['-', 'c', 'o', 'p', 'y'];
    cut_at_exec(&mut result, dash_copy.as_slice());
    cut_at_exec(&mut result, space_copy.as_slice());
    cut_at_exec(&mut result, underscore_copy.as_slice());
    cut_at_exec(&mut result, hyphen_copy.as_slice());
    result
}

/// `s` without its copy markers (see `spec_remove_copy_patterns`).
pub fn remove_copy_patterns(s: &str) -> (r: String)
    ensures
        r@ == spec_remove_copy_patterns(s@),
{
    let v = chars_of(s);
    let w = remove_copy_patterns_chars(v);
    string_of(w.as_slice())
}

/// Every character of `s` satisfies `pred`.
pub open spec fn all_chars(s: Seq<char>, pred: spec_fn(char) -> bool) -> bool {
    forall|i: int| 0 <= i < s.len() ==> pred(#[trigger] s[i])
}

proof fn lemma_strip_keeps(s: Seq<char>, pos: int, pred: spec_fn(char) -> bool)
    requires
        all_chars(s, pred),
    ensures
        all_chars(strip_paren_copies_from(s, pos), pred),
    decreases s.len() - pos,
{
    if 0 <= pos <= s.len() {
        match find_first(s.subrange(pos, s.len() as int), space_paren()) {
            Some(k) => {
                let start = pos + k;
                match find_first(s.subrange(start, s.len() as int), close_paren()) {
                    Some(off) => {
                        if 0 <= k && 2 <= off && start + off < s.len() {
                            if paren_names_copy(s, start) {
                                let t = s.subrange(0, start) + s.subrange(
                                    start + off + 1,
                                    s.len() as int,
                                );
                                assert forall|i: int| 0 <= i < t.len() implies pred(#[trigger] t[i]) by {
                                    if i < start {
                                        assert(t[i] == s[i]);
                                    } else {
                                        assert(t[i] == s[i + off + 1]);
                                    }
                                }
                                lemma_strip_keeps(t, resume_after_cut(start), pred);
                            } else {
                                lemma_strip_keeps(s, start + 1, pred);
                            }
                        }
                    },
                    None => {},
                }
            },
            None => {},
        }
    }
}

proof fn lemma_cut_keeps(s: Seq<char>, p: Seq<char>, pred: spec_fn(char) -> bool)
    requires
        all_chars(s, pred),
    ensures
        all_chars(cut_at(s, p), pred),
{
    lemma_find_first_occurs(s, p);
    if let Some(pos) = find_first(s, p) {
        let t = s.subrange(0, pos);
        assert forall|i: int| 0 <= i < t.len() implies pred(#[trigger] t[i]) by {
            assert(t[i] == s[i]);
        }
    }
}

/// Removing copy markers only removes characters: whatever holds of every
/// character of the name holds of every character of the result.
pub proof fn law_remove_copy_patterns_keeps_chars(s: Seq<char>, pred: spec_fn(char) -> bool)
    requires
        all_chars(s, pred),
    ensures
        all_chars(spec_remove_copy_patterns(s), pred),
{
    lemma_strip_keeps(s, 0, pred);
    let a = strip_paren_copies(s);
    lemma_cut_keeps(a, dash_copy(), pred);
    let b = cut_at(a, dash_copy());
    lemma_cut_keeps(b, space_copy(), pred);
    let c = cut_at(b, space_copy());
    lemma_cut_keeps(c, underscore_copy(), pred);
    let d = cut_at(c, underscore_copy());
    lemma_cut_keeps(d, hyphen_copy(), pred);
}

/// An occurrence of `x` holds an occurrence of each of its suffixes.
proof fn lemma_suffix_occurs(s: Seq<char>, x: Seq<char>, i: int, k: int)
    requires
        occurs_at(s, x, i),
        0 <= k <= x.len(),
    ensures
        occurs_at(s, x.subrange(k, x.len() as int), i + k),
{
    assert(s.subrange(i + k, i + x.len()) =~= s.subrange(i, i + x.len()).subrange(k, x.len() as int));
}

/// A name without `(` and without the word `copy` carries no copy penalty.
proof fn lemma_plain_name_no_penalty(s: Seq<char>)
    requires
        forall|i: int| 0 <= i < s.len() ==> s[i] != '(',
        !contains(s, copy_word()),
    ensures
        copy_penalty(s) == 0,
{
    reveal(contains);
    assert(!contains(s, space_paren())) by {
        assert forall|i: int| !occurs_at(s, space_paren(), i) by {
            if occurs_at(s, space_paren(), i) {
                assert(s[i + 1] == s.subrange(i, i + 2)[1]);
            }
        }
    }
    assert forall|i: int| !occurs_at(s, space_copy(), i) by {
        if occurs_at(s, space_copy(), i) {
            lemma_suffix_occurs(s, space_copy(), i, 1);
            assert(space_copy().subrange(1, 5) =~= copy_word());
        }
    }
    assert forall|i: int| !occurs_at(s, dash_copy(), i) by {
        if occurs_at(s, dash_copy(), i) {
            lemma_suffix_occurs(s, dash_copy(), i, 3);
            assert(dash_copy().subrange(3, 7) =~= copy_word());
        }
    }
    assert forall|i: int| !occurs_at(s, underscore_copy(), i) by {
        if occurs_at(s, underscore_copy(), i) {
            lemma_suffix_occurs(s, underscore_copy(), i, 1);
            assert(underscore_copy().subrange(1, 5) =~= copy_word());
        }
    }
}

/// A number that `u32` parsing accepts, or the word `copy`, holds no
/// parenthesis.
proof fn lemma_marker_has_no_parens(inner: Seq<char>)
    requires
        parses_as_u32(inner) || inner == copy_word(),
    ensures
        forall|i: int| 0 <= i < inner.len() ==> inner[i] != '(' && inner[i] != ')',
{
    assert forall|i: int| 0 <= i < inner.len() implies inner[i] != '(' && inner[i] != ')' by {
        if inner != copy_word() {
            if inner.len() > 0 && inner[0] == '+' {
                if i > 0 {
                    assert(inner[i] == inner.drop_first()[i - 1]);
                    assert(is_ascii_digit(inner.drop_first()[i - 1]));
                }
            } else {
                assert(is_ascii_digit(inner[i]));
            }
        }
    }
}

/// With no `(` after it, a ` (N)` or ` (copy)` group is the last group and
/// names a copy.
proof fn lemma_marked_name_last_group(base: Seq<char>, inner: Seq<char>, ext: Seq<char>)
    requires
        forall|i: int| 0 <= i < ext.len() ==> ext[i] != '(',
        parses_as_u32(inner) || inner == copy_word(),
    ensures
        last_paren_names_copy(base + space_paren() + inner + close_paren() + ext),
{
    lemma_marker_has_no_parens(inner);
    let m = base + space_paren() + inner + close_paren() + ext;
    let start = base.len() as int;
    let end = start + 2 + inner.len();
    assert(m.len() == end + 1 + ext.len());
    assert(m[start] == ' ' && m[start + 1] == '(');
    assert(m[end] == ')');
    assert(forall|i: int| 0 <= i < inner.len() ==> m[start + 2 + i] == inner[i]);
    assert(forall|i: int| 0 <= i < ext.len() ==> m[end + 1 + i] == ext[i]);
    assert(occurs_at(m, space_paren(), start)) by {
        assert(m.subrange(start, start + 2) =~= space_paren());
    }
    assert forall|j: int| start < j implies !occurs_at(m, space_paren(), j) by {
        if occurs_at(m, space_paren(), j) {
            assert(m[j + 1] == m.subrange(j, j + 2)[1]);
            if j + 1 < end {
                assert(m[j + 1] == inner[j + 1 - start - 2]);
            } else if j + 1 > end {
                assert(m[j + 1] == ext[j + 1 - end - 1]);
            }
        }
    }
    lemma_find_last_at(m, space_paren(), start);
    let tail = m.subrange(start, m.len() as int);
    assert(occurs_at(tail, close_paren(), end - start)) by {
        assert(tail.subrange(end - start, end - start + 1) =~= close_paren());
    }
    assert forall|j: int| 0 <= j < end - start implies !occurs_at(tail, close_paren(), j) by {
        if occurs_at(tail, close_paren(), j) {
            assert(tail[j] == tail.subrange(j, j + 1)[0]);
            assert(tail[j] == m[start + j]);
            if j >= 2 {
                assert(m[start + j] == inner[j - 2]);
            }
        }
    }
    lemma_find_first_at(tail, close_paren(), end - start);
    assert(paren_end(m, start) == end);
    assert(m.subrange(start + 2, end) =~= inner);
    reveal(contains);
}

/// A copy marker costs at least ten: a name without parentheses and
/// without the word `copy` scores ten less, once lowercased, than the same
/// name with a `(N)` or `(copy)` group before its extension, or with
/// ` - copy` there.
pub proof fn law_copy_marker_costs_ten(base: Seq<char>, inner: Seq<char>, ext: Seq<char>)
    requires
        forall|i: int| 0 <= i < base.len() ==> base[i] != '(' && base[i] != ')',
        forall|i: int| 0 <= i < ext.len() ==> ext[i] != '(' && ext[i] != ')',
        !contains(base + ext, copy_word()),
        parses_as_u32(inner) || inner == copy_word(),
    ensures
        copy_penalty(base + ext) == 0,
        copy_penalty(base + space_paren() + inner + close_paren() + ext) >= copy_penalty(base + ext)
            + 10,
        copy_penalty(base + dash_copy() + ext) >= copy_penalty(base + ext) + 10,
{
    let plain = base + ext;
    assert forall|i: int| 0 <= i < plain.len() implies plain[i] != '(' by {
        if i >= base.len() {
            assert(plain[i] == ext[i - base.len()]);
        }
    }
    lemma_plain_name_no_penalty(plain);
    lemma_marked_name_last_group(base, inner, ext);
    let start = base.len() as int;
    let m2 = base + dash_copy() + ext;
    assert(contains(m2, dash_copy())) by {
        reveal(contains);
        assert(m2.subrange(start, start + 7) =~= dash_copy());
        assert(occurs_at(m2, dash_copy(), start));
    }
}

/// The copy score sees a name only through its lowercase form: names with
/// one lowercase form score alike.
pub proof fn law_copy_score_by_lowercase(a: Seq<char>, b: Seq<char>)
    requires
        spec_to_lowercase(a) == spec_to_lowercase(b),
    ensures
        spec_copy_score(a) == spec_copy_score(b),
{
}

/// ASCII names that differ only in the case of their letters get the same
/// copy score.
pub proof fn law_copy_score_ignores_ascii_case(a: Seq<char>, b: Seq<char>)
    requires
        ascii_lower(a) == ascii_lower(b),
    ensures
        ascii_copy_score(a) == ascii_copy_score(b),
{
}

/// Lowering ASCII capitals commutes with joining.
proof fn lemma_ascii_lower_concat(a: Seq<char>, b: Seq<char>)
    ensures
        ascii_lower(a + b) == ascii_lower(a) + ascii_lower(b),
{
    assert(ascii_lower(a + b) =~= ascii_lower(a) + ascii_lower(b));
}

/// Lowering ASCII capitals leaves the parentheses where they are.
proof fn lemma_ascii_lower_no_parens(a: Seq<char>)
    requires
        forall|i: int| 0 <= i < a.len() ==> a[i] != '(' && a[i] != ')',
    ensures
        forall|i: int|
            0 <= i < ascii_lower(a).len() ==> ascii_lower(a)[i] != '(' && ascii_lower(a)[i] != ')',
{
    assert forall|i: int| 0 <= i < ascii_lower(a).len() implies ascii_lower(a)[i] != '('
        && ascii_lower(a)[i] != ')' by {
        lemma_ascii_lower_char(a[i]);
    }
}

/// A copy marker costs at least ten in the originality score of a name of
/// ASCII characters, whatever the case of its letters: a name without
/// parentheses and without the word `copy` (in any case) scores at least
/// ten less than the same name with a `(N)` or `(Copy)` group before its
/// extension, or with ` - Copy` there.  Lengths are kept within `u32`.
pub proof fn law_copy_marker_costs_ten_any_case(
    base: Seq<char>,
    inner: Seq<char>,
    dash: Seq<char>,
    ext: Seq<char>,
)
    requires
        forall|i: int| 0 <= i < base.len() ==> base[i] != '(' && base[i] != ')',
        forall|i: int| 0 <= i < ext.len() ==> ext[i] != '(' && ext[i] != ')',
        !contains(ascii_lower(base + ext), copy_word()),
        parses_as_u32(ascii_lower(inner)) || ascii_lower(inner) == copy_word(),
        ascii_lower(dash) == dash_copy(),
        base.len() + inner.len() + dash.len() + ext.len() + 4 <= u32::MAX,
    ensures
        ascii_originality_score(base + space_paren() + inner + close_paren() + ext)
            >= ascii_originality_score(base + ext) + 10,
        ascii_originality_score(base + dash + ext) >= ascii_originality_score(base + ext) + 10,
{
    let lb = ascii_lower(base);
    let li = ascii_lower(inner);
    let le = ascii_lower(ext);
    lemma_ascii_lower_no_parens(base);
    lemma_ascii_lower_no_parens(ext);
    lemma_ascii_lower_concat(base, ext);
    law_copy_marker_costs_ten(lb, li, le);
    let m = base + space_paren() + inner + close_paren() + ext;
    lemma_ascii_lower_concat(base, space_paren());
    lemma_ascii_lower_concat(base + space_paren(), inner);
    lemma_ascii_lower_concat(base + space_paren() + inner, close_paren());
    lemma_ascii_lower_concat(base + space_paren() + inner + close_paren(), ext);
    assert(ascii_lower(space_paren()) =~= space_paren());
    assert(ascii_lower(close_paren()) =~= close_paren());
    assert(ascii_lower(m) == lb + space_paren() + li + close_paren() + le);
    let m2 = base + dash + ext;
    lemma_ascii_lower_concat(base, dash);
    lemma_ascii_lower_concat(base + dash, ext);
    assert(ascii_lower(m2) == lb + dash_copy() + le);
    let n0 = (base + ext).len();
    assert(m.len() >= n0 && m2.len() >= n0);
    assert(((m.len() as usize) as u32) as int == m.len());
    assert(((m2.len() as usize) as u32) as int == m2.len());
    assert(((n0 as usize) as u32) as int == n0);
    assert(m.len() / 10 >= n0 / 10) by (nonlinear_arith)
        requires
            m.len() >= n0,
    ;
    assert(m2.len() / 10 >= n0 / 10) by (nonlinear_arith)
        requires
            m2.len() >= n0,
    ;
}

/// A name that holds ` copy` or ` - copy` anywhere is the name of a copy,
/// whatever follows: its copy score is 1 when its lowercase form holds
/// either, and the copy penalty counts ` copy`, ` - copy` and `_copy`
/// anywhere.
pub proof fn law_copy_word_anywhere(name: Seq<char>, lower: Seq<char>)
    ensures
        contains(name, seq![' ', 'c', 'o', 'p', 'y']) ==> spec_is_copy_pattern(name),
        contains(name, seq![' ', '-', ' ', 'c', 'o', 'p', 'y']) ==> spec_is_copy_pattern(name),
        contains(spec_to_lowercase(name), seq![' ', 'c', 'o', 'p', 'y']) ==> spec_copy_score(name)
            == 1,
        contains(spec_to_lowercase(name), seq![' ', '-', ' ', 'c', 'o', 'p', 'y'])
            ==> spec_copy_score(name) == 1,
        contains(lower, seq![' ', 'c', 'o', 'p', 'y']) ==> copy_penalty(lower) >= 10,
        contains(lower, seq![' ', '-', ' ', 'c', 'o', 'p', 'y']) ==> copy_penalty(lower) >= 10,
        contains(lower, seq!['_', 'c', 'o', 'p', 'y']) ==> copy_penalty(lower) >= 10,
{
    assert(seq![' ', 'c', 'o', 'p', 'y'] =~= space_copy());
    assert(seq![' ', '-', ' ', 'c', 'o', 'p', 'y'] =~= dash_copy());
    assert(seq!['_', 'c', 'o', 'p', 'y'] =~= underscore_copy());
}

/// The last ` (` group decides: whatever comes before it (other groups
/// included), a name whose last ` (` opens a `(N)` or `(copy)` group, with
/// no `(` after it, is the name of a copy and carries the paren penalty.
pub proof fn law_last_group_decides(base: Seq<char>, inner: Seq<char>, ext: Seq<char>)
    requires
        forall|i: int| 0 <= i < ext.len() ==> ext[i] != '(',
        parses_as_u32(inner) || inner == seq!['c', 'o', 'p', 'y'],
    ensures
        spec_is_copy_pattern(base + seq![' ', '('] + inner + seq![')'] + ext),
        copy_penalty(base + seq![' ', '('] + inner + seq![')'] + ext) >= 10,
{
    assert(seq!['c', 'o', 'p', 'y'] =~= copy_word());
    assert(seq![' ', '('] =~= space_paren());
    assert(seq![')'] =~= close_paren());
    lemma_marked_name_last_group(base, inner, ext);
}

/// A pattern whose first character does not occur in `s` is not found.
proof fn lemma_absent_head_not_found(s: Seq<char>, p: Seq<char>)
    requires
        p.len() > 0,
        forall|i: int| 0 <= i < s.len() ==> s[i] != p[0],
    ensures
        find_first(s, p) is None,
{
    lemma_find_first_occurs(s, p);
    if let Some(k) = find_first(s, p) {
        assert(s[k] == s.subrange(k, k + p.len())[0]);
    }
}

/// A name without spaces, underscores and hyphens holds no copy marker:
/// removing copy markers leaves it as it is.
pub proof fn law_no_marker_without_separators(s: Seq<char>)
    requires
        forall|i: int| 0 <= i < s.len() ==> s[i] != ' ' && s[i] != '_' && s[i] != '-',
    ensures
        spec_remove_copy_patterns(s) == s,
{
    assert(s.subrange(0, s.len() as int) =~= s);
    lemma_absent_head_not_found(s, space_paren());
    assert(strip_paren_copies(s) == s);
    lemma_absent_head_not_found(s, dash_copy());
    lemma_absent_head_not_found(s, space_copy());
    lemma_absent_head_not_found(s, underscore_copy());
    lemma_absent_head_not_found(s, hyphen_copy());
}

/// What is cut before the first occurrence of `p` holds no `p`.
proof fn lemma_cut_removes(s: Seq<char>, p: Seq<char>)
    requires
        p.len() > 0,
    ensures
        !contains(cut_at(s, p), p),
{
    lemma_find_first_props(s, p);
    reveal(contains);
    match find_first(s, p) {
        Some(k) => {
            let t = s.subrange(0, k);
            assert forall|j: int| !occurs_at(t, p, j) by {
                if occurs_at(t, p, j) {
                    assert(s.subrange(j, j + p.len()) =~= t.subrange(j, j + p.len()));
                    assert(occurs_at(s, p, j));
                }
            }
        },
        None => {},
    }
}

/// A cut keeps a string free of `q` if it was.
proof fn lemma_cut_keeps_absent(s: Seq<char>, p: Seq<char>, q: Seq<char>)
    requires
        !contains(s, q),
    ensures
        !contains(cut_at(s, p), q),
{
    lemma_find_first_occurs(s, p);
    reveal(contains);
    match find_first(s, p) {
        Some(k) => {
            let t = s.subrange(0, k);
            assert forall|j: int| !occurs_at(t, q, j) by {
                if occurs_at(t, q, j) {
                    assert(s.subrange(j, j + q.len()) =~= t.subrange(j, j + q.len()));
                    assert(occurs_at(s, q, j));
                }
            }
        },
        None => {},
    }
}

/// Removing copy markers leaves no copy suffix word: the result holds none
/// of ` - copy`, ` copy`, `_copy` and `-copy`.
pub proof fn law_no_copy_word_left(s: Seq<char>)
    ensures
        !contains(spec_remove_copy_patterns(s), seq![' ', '-', ' ', 'c', 'o', 'p', 'y']),
        !contains(spec_remove_copy_patterns(s), seq![' ', 'c', 'o', 'p', 'y']),
        !contains(spec_remove_copy_patterns(s), seq!['_', 'c', 'o', 'p', 'y']),
        !contains(spec_remove_copy_patterns(s), seq!['-', 'c', 'o', 'p', 'y']),
{
    assert(seq![' ', '-', ' ', 'c', 'o', 'p', 'y'] =~= dash_copy());
    assert(seq![' ', 'c', 'o', 'p', 'y'] =~= space_copy());
    assert(seq!['_', 'c', 'o', 'p', 'y'] =~= underscore_copy());
    assert(seq!['-', 'c', 'o', 'p', 'y'] =~= hyphen_copy());
    let a = strip_paren_copies(s);
    let b = cut_at(a, dash_copy());
    let c = cut_at(b, space_copy());
    let d = cut_at(c, underscore_copy());
    lemma_cut_removes(a, dash_copy());
    lemma_cut_keeps_absent(b, space_copy(), dash_copy());
    lemma_cut_keeps_absent(c, underscore_copy(), dash_copy());
    lemma_cut_keeps_absent(d, hyphen_copy(), dash_copy());
    lemma_cut_removes(b, space_copy());
    lemma_cut_keeps_absent(c, underscore_copy(), space_copy());
    lemma_cut_keeps_absent(d, hyphen_copy(), space_copy());
    lemma_cut_removes(c, underscore_copy());
    lemma_cut_keeps_absent(d, hyphen_copy(), underscore_copy());
    lemma_cut_removes(d, hyphen_copy());
}

} // verus!
