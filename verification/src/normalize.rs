//! Normalised forms of file names, for comparing names by similarity, and
//! file extensions.
use unicode_normalization::UnicodeNormalization;
use vstd::prelude::*;
use crate::copy_names::{
    all_chars, law_no_marker_without_separators, law_remove_copy_patterns_keeps_chars,
    remove_copy_patterns_chars,
    spec_remove_copy_patterns,
};
use crate::text::{
    ascii_lower, ascii_lower_char, chars_of, find_last, lemma_ascii_lower_char, lemma_find_last_props, lemma_find_last_at,
    occurs_at, rfind, spec_to_lowercase, string_of, to_lowercase,
};
use vstd::utf8::is_ascii_chars;

verus! {

/// The canonical decomposition (Unicode NFD) of a string.
pub uninterp spec fn spec_nfd(s: Seq<char>) -> Seq<char>;

/// Calls `UnicodeNormalization::nfd` of `unicode-normalization` and collects
/// the decomposed characters.  They are a function of `s`, named `spec_nfd`.
#[verifier::external_body]
fn nfd(s: &str) -> (r: Vec<char>)
    ensures
        r@ == spec_nfd(s@),
{
    s.nfd().collect()
}

/// Whether a character is alphabetic or numeric in Unicode (`char::is_alphanumeric`).
pub uninterp spec fn spec_is_alphanumeric(c: char) -> bool;

/// Calls `char::is_alphanumeric`; its result is named `spec_is_alphanumeric`.
#[verifier::external_body]
fn is_alphanumeric(c: char) -> (r: bool)
    ensures
        r == spec_is_alphanumeric(c),
{
    c.is_alphanumeric()
}

/// Whether a character has the Unicode `White_Space` property, the test
/// that `char::is_whitespace` makes: tab to carriage return, space,
/// U+0085, U+00A0, U+1680, U+2000 to U+200A, U+2028, U+2029, U+202F,
/// U+205F and U+3000.
pub open spec fn spec_is_whitespace(c: char) -> bool {
    ||| '\u{0009}' <= c <= '\u{000D}'
    ||| c == ' '
    ||| c == '\u{0085}'
    ||| c == '\u{00A0}'
    ||| c == '\u{1680}'
    ||| '\u{2000}' <= c <= '\u{200A}'
    ||| c == '\u{2028}'
    ||| c == '\u{2029}'
    ||| c == '\u{202F}'
    ||| c == '\u{205F}'
    ||| c == '\u{3000}'
}

fn is_whitespace(c: char) -> (r: bool)
    ensures
        r == spec_is_whitespace(c),
{
    ('\u{0009}' <= c && c <= '\u{000D}') || c == ' ' || c == '\u{0085}' || c == '\u{00A0}' || c
        == '\u{1680}' || ('\u{2000}' <= c && c <= '\u{200A}') || c == '\u{2028}' || c == '\u{2029}'
        || c == '\u{202F}' || c == '\u{205F}' || c == '\u{3000}'
}

pub open spec fn dot() -> Seq<char> {
    seq!['.']
}

/// A combining diacritical mark, U+0300 to U+036F.
pub open spec fn is_combining_mark(c: char) -> bool {
    '\u{0300}' <= c <= '\u{036F}'
}

/// The name without its extension: cut before the last `.` unless that dot
/// starts the name.
pub open spec fn file_stem(name: Seq<char>) -> Seq<char> {
    match find_last(name, dot()) {
        Some(i) => if i > 0 {
            name.subrange(0, i)
        } else {
            name
        },
        None => name,
    }
}

/// The extension of a file name, as `Path::extension` documents it: the
/// text after the last `.`, none when there is no dot or the only dot
/// starts the name.  An absent extension is empty.
pub open spec fn file_extension(name: Seq<char>) -> Seq<char> {
    match find_last(name, dot()) {
        Some(i) => if i > 0 {
            name.subrange(i + 1, name.len() as int)
        } else {
            Seq::empty()
        },
        None => Seq::empty(),
    }
}

/// Every character that is not alphanumeric replaced by a space.
pub open spec fn blank_non_alphanumeric(s: Seq<char>) -> Seq<char> {
    s.map_values(|c: char| if spec_is_alphanumeric(c) { c } else { ' ' })
}

/// The maximal runs of non-whitespace characters of `s`, in order.
pub open spec fn words(s: Seq<char>) -> Seq<Seq<char>>
    decreases s.len(),
{
    if s.len() == 0 {
        Seq::empty()
    } else {
        let w = words(s.drop_last());
        let c = s.last();
        if spec_is_whitespace(c) {
            w
        } else if s.len() >= 2 && !spec_is_whitespace(s[s.len() - 2]) {
            w.update(w.len() - 1, w.last().push(c))
        } else {
            w.push(seq![c])
        }
    }
}

/// The words joined with single spaces.
pub open spec fn join_words(ws: Seq<Seq<char>>) -> Seq<char>
    decreases ws.len(),
{
    if ws.len() == 0 {
        Seq::empty()
    } else if ws.len() == 1 {
        ws[0]
    } else {
        join_words(ws.drop_last()) + seq![' '] + ws.last()
    }
}

/// Whitespace runs collapsed to one space, leading and trailing whitespace removed.
pub open spec fn collapse_whitespace(s: Seq<char>) -> Seq<char> {
    join_words(words(s))
}

/// The normalised form of a name of ASCII characters alone, whose
/// lowercase form is known: the stem with its capitals lowered, then as
/// `normalized_from_decomposed` says.
pub open spec fn ascii_normalize_name(name: Seq<char>) -> Seq<char> {
    normalized_from_decomposed(spec_nfd(ascii_lower(file_stem(name))))
}

/// What becomes of a lowercased, decomposed stem: combining marks dropped,
/// copy markers removed, non-alphanumerics as spaces, whitespace collapsed.
pub open spec fn normalized_from_decomposed(d: Seq<char>) -> Seq<char> {
    collapse_whitespace(
        blank_non_alphanumeric(
            spec_remove_copy_patterns(d.filter(|c: char| !is_combining_mark(c))),
        ),
    )
}

/// The form in which two names are compared: stem, lowercase, NFD without
/// combining marks, copy markers removed, non-alphanumerics as spaces,
/// whitespace collapsed.
pub open spec fn spec_normalize_name(name: Seq<char>) -> Seq<char> {
    normalized_from_decomposed(spec_nfd(spec_to_lowercase(file_stem(name))))
}

fn dot_vec() -> (v: Vec<char>)
    ensures
        v@ == dot(),
{
    let v = vec!['.'];
    assert(v@ =~= dot());
    v
}

/// The characters `v[lo..hi]`.
fn slice_chars(v: &[char], lo: usize, hi: usize) -> (r: Vec<char>)
    requires
        lo <= hi <= v@.len(),
    ensures
        r@ == v@.subrange(lo as int, hi as int),
{
    let mut r: Vec<char> = Vec::new();
    let mut i = lo;
    while i < hi
        invariant
            lo <= i <= hi <= v@.len(),
            r@ == v@.subrange(lo as int, i as int),
        decreases hi - i,
    {
        r.push(v[i]);
        i = i + 1;
        assert(r@ =~= v@.subrange(lo as int, i as int));
    }
    r
}

fn file_stem_chars(v: &[char]) -> (r: Vec<char>)
    ensures
        r@ == file_stem(v@),
{
    let d = dot_vec();
    match rfind(v, d.as_slice()) {
        Some(i) => {
            if i > 0 {
                slice_chars(v, 0, i)
            } else {
                slice_chars(v, 0, v.len())
            }
        },
        None => slice_chars(v, 0, v.len()),
    }
}

/// The characters of `v` that are not combining marks.
fn drop_combining_marks(v: &[char]) -> (r: Vec<char>)
    ensures
        r@ == v@.filter(|c: char| !is_combining_mark(c)),
{
    let ghost pred = |c: char| !is_combining_mark(c);
    let mut r: Vec<char> = Vec::new();
    let mut i: usize = 0;
    while i < v.len()
        invariant
            i <= v@.len(),
            pred == (|c: char| !is_combining_mark(c)),
            r@ == v@.take(i as int).filter(pred),
        decreases v@.len() - i,
    {
        let c = v[i];
        if !('\u{0300}' <= c && c <= '\u{036F}') {
            r.push(c);
        }
        proof {
            reveal_with_fuel(Seq::<_>::filter, 1);
            assert(v@.take(i + 1).drop_last() =~= v@.take(i as int));
            assert(v@.take(i + 1).last() == c);
            assert(pred(c) == !is_combining_mark(c));
            assert(v@.take(i + 1).filter(pred) == (if pred(c) {
                v@.take(i as int).filter(pred).push(c)
            } else {
                v@.take(i as int).filter(pred)
            }));
        }
        i = i + 1;
    }
    assert(v@.take(v@.len() as int) =~= v@);
    r
}

/// Whether each character of `v` is alphanumeric.
fn alphanumeric_flags(v: &[char]) -> (r: Vec<bool>)
    ensures
        r@.len() == v@.len(),
        forall|i: int| 0 <= i < v@.len() ==> #[trigger] r@[i] == spec_is_alphanumeric(v@[i]),
{
    let mut r: Vec<bool> = Vec::new();
    let mut i: usize = 0;
    while i < v.len()
        invariant
            i <= v@.len(),
            r@.len() == i,
            forall|k: int| 0 <= k < i ==> #[trigger] r@[k] == spec_is_alphanumeric(v@[k]),
        decreases v@.len() - i,
    {
        r.push(is_alphanumeric(v[i]));
        i = i + 1;
    }
    r
}

/// The characters of `v` whose flag is not set replaced by spaces.
pub open spec fn blank_by_flags(v: Seq<char>, keep: Seq<bool>) -> Seq<char> {
    Seq::new(v.len(), |i: int| if keep[i] { v[i] } else { ' ' })
}

/// The characters of `v` whose flag in `keep` is not set replaced by
/// spaces, then whitespace runs collapsed to one space and the ends
/// trimmed.
pub fn blank_and_collapse(v: &[char], keep: &[bool]) -> (r: String)
    requires
        v@.len() == keep@.len(),
    ensures
        r@ == collapse_whitespace(blank_by_flags(v@, keep@)),
{
    let mut b: Vec<char> = Vec::new();
    let mut i: usize = 0;
    while i < v.len()
        invariant
            i <= v@.len(),
            v@.len() == keep@.len(),
            b@ == blank_by_flags(v@, keep@).take(i as int),
        decreases v@.len() - i,
    {
        if keep[i] {
            b.push(v[i]);
        } else {
            b.push(' ');
        }
        i = i + 1;
        assert(b@ =~= blank_by_flags(v@, keep@).take(i as int));
    }
    assert(b@ =~= blank_by_flags(v@, keep@));
    let collapsed = collapse_chars(b.as_slice());
    string_of(collapsed.as_slice())
}

proof fn lemma_join_extend(ws: Seq<Seq<char>>, c: char)
    requires
        ws.len() > 0,
    ensures
        join_words(ws.update(ws.len() - 1, ws.last().push(c))) == join_words(ws).push(c),
{
    let ws2 = ws.update(ws.len() - 1, ws.last().push(c));
    assert(ws2.drop_last() =~= ws.drop_last());
    if ws.len() == 1 {
    } else {
        assert(join_words(ws2) == join_words(ws2.drop_last()) + seq![' '] + ws2.last());
        assert(join_words(ws2) =~= join_words(ws).push(c));
    }
}

proof fn lemma_join_push(ws: Seq<Seq<char>>, c: char)
    ensures
        join_words(ws.push(seq![c])) == if ws.len() == 0 {
            seq![c]
        } else {
            join_words(ws) + seq![' ', c]
        },
{
    let ws2 = ws.push(seq![c]);
    assert(ws2.drop_last() =~= ws);
    if ws.len() > 0 {
        assert(join_words(ws2) =~= join_words(ws) + seq![' ', c]);
    }
}

proof fn lemma_words_nonempty(s: Seq<char>)
    requires
        s.len() > 0,
        !spec_is_whitespace(s.last()),
    ensures
        words(s).len() > 0,
    decreases s.len(),
{
    if s.len() >= 2 && !spec_is_whitespace(s[s.len() - 2]) {
        assert(s.drop_last().last() == s[s.len() - 2]);
        lemma_words_nonempty(s.drop_last());
    }
}

/// Whitespace runs of `v` collapsed to one space, ends trimmed.
fn collapse_chars(v: &[char]) -> (r: Vec<char>)
    ensures
        r@ == collapse_whitespace(v@),
{
    let mut r: Vec<char> = Vec::new();
    let mut in_word = false;
    let mut any_word = false;
    let mut i: usize = 0;
    while i < v.len()
        invariant
            i <= v@.len(),
            r@ == join_words(words(v@.take(i as int))),
            in_word == (i > 0 && !spec_is_whitespace(v@[i - 1])),
            any_word == (words(v@.take(i as int)).len() > 0),
        decreases v@.len() - i,
    {
        let c = v[i];
        let ghost t = v@.take(i + 1);
        assert(t.drop_last() =~= v@.take(i as int));
        assert(t.last() == c);
        if is_whitespace(c) {
            in_word = false;
        } else if in_word {
            proof {
                assert(t[t.len() - 2] == v@[i - 1]);
                lemma_words_nonempty(v@.take(i as int));
                assert(v@.take(i as int).last() == v@[i - 1]);
                lemma_join_extend(words(v@.take(i as int)), c);
            }
            r.push(c);
        } else {
            proof {
                if i > 0 {
                    assert(t[t.len() - 2] == v@[i - 1]);
                }
                lemma_join_push(words(v@.take(i as int)), c);
            }
            if any_word {
                r.push(' ');
            }
            r.push(c);
            in_word = true;
            any_word = true;
            assert(r@ =~= join_words(words(t)));
        }
        i = i + 1;
    }
    assert(v@.take(v@.len() as int) =~= v@);
    r
}

/// The normalised form of the characters of a lowercased stem in NFD (see
/// `normalized_from_decomposed`).
pub fn normalize_decomposed(d: &[char]) -> (r: String)
    ensures
        r@ == normalized_from_decomposed(d@),
{
    let unmarked = drop_combining_marks(d);
    let cleaned = remove_copy_patterns_chars(unmarked);
    let flags = alphanumeric_flags(cleaned.as_slice());
    assert(blank_by_flags(cleaned@, flags@) =~= blank_non_alphanumeric(cleaned@));
    blank_and_collapse(cleaned.as_slice(), flags.as_slice())
}

/// The normalised form of a file name (see `spec_normalize_name`).
pub fn normalize_name(name: &str) -> (r: String)
    ensures
        r@ == spec_normalize_name(name@),
        is_ascii_chars(name@) ==> r@ == ascii_normalize_name(name@),
{
    let v = chars_of(name);
    let stem = file_stem_chars(v.as_slice());
    let stem_str = string_of(stem.as_slice());
    proof {
        lemma_stem_and_extension_ascii(name@);
    }
    let lower = to_lowercase(stem_str.as_str());
    let decomposed = nfd(lower.as_str());
    normalize_decomposed(decomposed.as_slice())
}

/// The lowercase extension of a file name, empty when it has none: the
/// key by which files are compared only with files of their own kind.
pub fn extension_key(name: &str) -> (r: String)
    ensures
        r@ == spec_to_lowercase(file_extension(name@)),
        is_ascii_chars(name@) ==> r@ == ascii_lower(file_extension(name@)),
{
    proof {
        lemma_stem_and_extension_ascii(name@);
    }
    let v = chars_of(name);
    let n = v.len();
    let d = dot_vec();
    let ext = match rfind(v.as_slice(), d.as_slice()) {
        Some(i) => {
            if i > 0 {
                proof {
                    assert(occurs_at(v@, dot(), i as int));
                    assert(i < n);
                }
                slice_chars(v.as_slice(), i + 1, v.len())
            } else {
                Vec::new()
            }
        },
        None => Vec::new(),
    };
    assert(ext@ =~= file_extension(v@));
    let ext_str = string_of(ext.as_slice());
    to_lowercase(ext_str.as_str())
}

/// Words are non-empty and free of whitespace.
pub open spec fn clean_words(ws: Seq<Seq<char>>) -> bool {
    forall|k: int|
        0 <= k < ws.len() ==> #[trigger] ws[k].len() > 0 && forall|j: int|
            0 <= j < ws[k].len() ==> !spec_is_whitespace(#[trigger] ws[k][j])
}

proof fn lemma_words_clean(s: Seq<char>)
    ensures
        clean_words(words(s)),
    decreases s.len(),
{
    if s.len() > 0 {
        lemma_words_clean(s.drop_last());
        let w = words(s.drop_last());
        let c = s.last();
        if !spec_is_whitespace(c) && s.len() >= 2 && !spec_is_whitespace(s[s.len() - 2]) {
            lemma_words_nonempty(s.drop_last());
            assert(s.drop_last().last() == s[s.len() - 2]);
            let w2 = w.update(w.len() - 1, w.last().push(c));
            assert forall|k: int| 0 <= k < w2.len() implies #[trigger] w2[k].len() > 0 && forall|j: int|
                0 <= j < w2[k].len() ==> !spec_is_whitespace(#[trigger] w2[k][j]) by {
                if k == w.len() - 1 {
                    assert forall|j: int| 0 <= j < w2[k].len() implies !spec_is_whitespace(
                        #[trigger] w2[k][j],
                    ) by {
                        if j < w.last().len() {
                            assert(w2[k][j] == w[k][j]);
                        }
                    }
                }
            }
        }
    }
}

/// The joined words end in the last character of the last word.
proof fn lemma_join_ends(ws: Seq<Seq<char>>)
    requires
        ws.len() > 0,
        clean_words(ws),
    ensures
        join_words(ws).len() > 0,
        join_words(ws)[0] == ws[0][0],
        join_words(ws).last() == ws.last().last(),
    decreases ws.len(),
{
    if ws.len() > 1 {
        let ws1 = ws.drop_last();
        assert(clean_words(ws1)) by {
            assert forall|k: int| 0 <= k < ws1.len() implies #[trigger] ws1[k].len() > 0 && forall|j: int|
                0 <= j < ws1[k].len() ==> !spec_is_whitespace(#[trigger] ws1[k][j]) by {
                assert(ws1[k] == ws[k]);
            }
        }
        lemma_join_ends(ws1);
        assert(ws.last().len() > 0);
    }
}

/// Every whitespace character of the joined words is a space between two
/// non-whitespace characters.
proof fn lemma_join_clean(ws: Seq<Seq<char>>)
    requires
        clean_words(ws),
    ensures
        forall|i: int|
            0 <= i < join_words(ws).len() && spec_is_whitespace(#[trigger] join_words(ws)[i]) ==> {
                &&& join_words(ws)[i] == ' '
                &&& 0 < i < join_words(ws).len() - 1
                &&& !spec_is_whitespace(join_words(ws)[i - 1])
                &&& !spec_is_whitespace(join_words(ws)[i + 1])
            },
    decreases ws.len(),
{
    let j = join_words(ws);
    if ws.len() == 1 {
        assert forall|i: int| 0 <= i < j.len() implies !spec_is_whitespace(#[trigger] j[i]) by {
            assert(j[i] == ws[0][i]);
        }
    } else if ws.len() > 1 {
        let ws1 = ws.drop_last();
        assert(clean_words(ws1)) by {
            assert forall|k: int| 0 <= k < ws1.len() implies #[trigger] ws1[k].len() > 0 && forall|m: int|
                0 <= m < ws1[k].len() ==> !spec_is_whitespace(#[trigger] ws1[k][m]) by {
                assert(ws1[k] == ws[k]);
            }
        }
        lemma_join_clean(ws1);
        lemma_join_ends(ws1);
        let j1 = join_words(ws1);
        let last = ws.last();
        assert(last.len() > 0);
        assert(j =~= j1 + seq![' '] + last);
        assert forall|i: int|
            0 <= i < j.len() && spec_is_whitespace(#[trigger] j[i]) implies {
                &&& j[i] == ' '
                &&& 0 < i < j.len() - 1
                &&& !spec_is_whitespace(j[i - 1])
                &&& !spec_is_whitespace(j[i + 1])
            } by {
            if i < j1.len() {
                assert(j[i] == j1[i]);
                if i == j1.len() - 1 {
                    assert(j1[i] == ws1.last().last());
                    assert(ws1.last() == ws1[ws1.len() - 1]);
                    assert(!spec_is_whitespace(ws1[ws1.len() - 1][ws1[ws1.len() - 1].len() - 1]));
                } else {
                    assert(spec_is_whitespace(j1[i]));
                    assert(j[i - 1] == j1[i - 1] && j[i + 1] == j1[i + 1]);
                }
            } else if i == j1.len() {
                assert(j[i - 1] == j1.last());
                assert(j1.last() == ws1.last().last());
                assert(ws1.last() == ws1[ws1.len() - 1]);
                assert(!spec_is_whitespace(ws1[ws1.len() - 1][ws1[ws1.len() - 1].len() - 1]));
                assert(j[i + 1] == last[0]);
                assert(last == ws[ws.len() - 1]);
                assert(!spec_is_whitespace(ws[ws.len() - 1][0]));
            } else {
                assert(j[i] == last[i - j1.len() - 1]);
                assert(last == ws[ws.len() - 1]);
                assert(!spec_is_whitespace(ws[ws.len() - 1][i - j1.len() - 1]));
            }
        }
    }
}

/// Collapsing trims and collapses: every whitespace character left is a
/// single space between two other characters.
pub proof fn law_collapse_trims(s: Seq<char>)
    ensures
        forall|i: int|
            0 <= i < collapse_whitespace(s).len() && spec_is_whitespace(
                #[trigger] collapse_whitespace(s)[i],
            ) ==> {
                &&& collapse_whitespace(s)[i] == ' '
                &&& 0 < i < collapse_whitespace(s).len() - 1
                &&& !spec_is_whitespace(collapse_whitespace(s)[i - 1])
                &&& !spec_is_whitespace(collapse_whitespace(s)[i + 1])
            },
{
    lemma_words_clean(s);
    lemma_join_clean(words(s));
}

/// A normalised name neither starts nor ends with a space and holds no two
/// spaces in a row; the only whitespace character in it is the space.
pub proof fn law_normalized_name_trimmed(name: Seq<char>)
    ensures
        forall|i: int|
            0 <= i < spec_normalize_name(name).len() && spec_is_whitespace(
                #[trigger] spec_normalize_name(name)[i],
            ) ==> {
                &&& spec_normalize_name(name)[i] == ' '
                &&& 0 < i < spec_normalize_name(name).len() - 1
                &&& spec_normalize_name(name)[i - 1] != ' '
                &&& spec_normalize_name(name)[i + 1] != ' '
            },
{
    let d = spec_nfd(spec_to_lowercase(file_stem(name)));
    law_collapse_trims(
        blank_non_alphanumeric(
            spec_remove_copy_patterns(d.filter(|c: char| !is_combining_mark(c))),
        ),
    );
}

proof fn lemma_words_keep(s: Seq<char>, pred: spec_fn(char) -> bool)
    requires
        all_chars(s, pred),
    ensures
        forall|k: int, j: int|
            0 <= k < words(s).len() && 0 <= j < words(s)[k].len() ==> pred(#[trigger] words(s)[k][j]),
    decreases s.len(),
{
    if s.len() > 0 {
        let s1 = s.drop_last();
        assert(all_chars(s1, pred)) by {
            assert forall|i: int| 0 <= i < s1.len() implies pred(#[trigger] s1[i]) by {
                assert(s1[i] == s[i]);
            }
        }
        lemma_words_keep(s1, pred);
        let w = words(s1);
        let c = s.last();
        assert(pred(c)) by {
            assert(s[s.len() - 1] == c);
        }
        if !spec_is_whitespace(c) && s.len() >= 2 && !spec_is_whitespace(s[s.len() - 2]) {
            assert(s1.last() == s[s.len() - 2]);
            lemma_words_nonempty(s1);
            let w2 = w.update(w.len() - 1, w.last().push(c));
            assert forall|k: int, j: int| 0 <= k < w2.len() && 0 <= j < w2[k].len() implies pred(
                #[trigger] w2[k][j],
            ) by {
                if k == w.len() - 1 && j < w.last().len() {
                    assert(w2[k][j] == w[k][j]);
                }
            }
        } else if !spec_is_whitespace(c) {
            let w2 = w.push(seq![c]);
            assert forall|k: int, j: int| 0 <= k < w2.len() && 0 <= j < w2[k].len() implies pred(
                #[trigger] w2[k][j],
            ) by {
                if k < w.len() {
                    assert(w2[k] == w[k]);
                }
            }
        }
    }
}

proof fn lemma_join_keeps(ws: Seq<Seq<char>>, pred: spec_fn(char) -> bool)
    requires
        pred(' '),
        forall|k: int, j: int| 0 <= k < ws.len() && 0 <= j < ws[k].len() ==> pred(#[trigger] ws[k][j]),
    ensures
        all_chars(join_words(ws), pred),
    decreases ws.len(),
{
    if ws.len() == 1 {
        assert forall|i: int| 0 <= i < join_words(ws).len() implies pred(#[trigger] join_words(ws)[i]) by {
            assert(join_words(ws)[i] == ws[0][i]);
        }
    } else if ws.len() > 1 {
        let ws1 = ws.drop_last();
        assert forall|k: int, j: int| 0 <= k < ws1.len() && 0 <= j < ws1[k].len() implies pred(
            #[trigger] ws1[k][j],
        ) by {
            assert(ws1[k] == ws[k]);
        }
        lemma_join_keeps(ws1, pred);
        let j1 = join_words(ws1);
        let last = ws.last();
        let j = join_words(ws);
        assert(j =~= j1 + seq![' '] + last);
        assert forall|i: int| 0 <= i < j.len() implies pred(#[trigger] j[i]) by {
            if i < j1.len() {
                assert(j[i] == j1[i]);
            } else if i > j1.len() {
                assert(j[i] == last[i - j1.len() - 1]);
                assert(last == ws[ws.len() - 1]);
            }
        }
    }
}

/// The normalised name holds no combining diacritical mark (U+0300 to
/// U+036F): accents are removed.
pub proof fn law_normalized_has_no_marks(name: Seq<char>)
    ensures
        forall|i: int|
            0 <= i < spec_normalize_name(name).len() ==> !is_combining_mark(
                #[trigger] spec_normalize_name(name)[i],
            ),
{
    let pred = |c: char| !is_combining_mark(c);
    let f = spec_nfd(spec_to_lowercase(file_stem(name))).filter(pred);
    assert(all_chars(f, pred)) by {
        broadcast use vstd::seq_lib::group_filter_ensures;
        assert forall|i: int| 0 <= i < f.len() implies pred(#[trigger] f[i]) by {}
    }
    law_remove_copy_patterns_keeps_chars(f, pred);
    let r = spec_remove_copy_patterns(f);
    let b = blank_non_alphanumeric(r);
    assert(all_chars(b, pred)) by {
        assert forall|i: int| 0 <= i < b.len() implies pred(#[trigger] b[i]) by {
            assert(pred(r[i]));
        }
    }
    lemma_words_keep(b, pred);
    lemma_join_keeps(words(b), pred);
}

/// Normalising sees a name only through the lowercase form of its stem:
/// names whose stems lowercase alike normalise alike.
pub proof fn law_normalize_by_lowercase_stem(a: Seq<char>, b: Seq<char>)
    requires
        spec_to_lowercase(file_stem(a)) == spec_to_lowercase(file_stem(b)),
    ensures
        spec_normalize_name(a) == spec_normalize_name(b),
{
}

/// The stem and the extension of an ASCII name are ASCII.
proof fn lemma_stem_and_extension_ascii(name: Seq<char>)
    ensures
        is_ascii_chars(name) ==> is_ascii_chars(file_stem(name)) && is_ascii_chars(
            file_extension(name),
        ),
{
    if is_ascii_chars(name) {
        match find_last(name, dot()) {
            Some(i) => {
                lemma_find_last_props(name, dot());
                if i > 0 {
                    let st = name.subrange(0, i);
                    assert forall|k: int| 0 <= k < st.len() implies '\0' <= #[trigger] st[k] <= '\u{7f}' by {
                        assert(st[k] == name[k]);
                    }
                    let ex = name.subrange(i + 1, name.len() as int);
                    assert forall|k: int| 0 <= k < ex.len() implies '\0' <= #[trigger] ex[k] <= '\u{7f}' by {
                        assert(ex[k] == name[i + 1 + k]);
                    }
                }
            },
            None => {},
        }
    }
}

/// A `.` stands at the same places in two names that differ only in the
/// case of ASCII letters.
proof fn lemma_dots_agree(a: Seq<char>, b: Seq<char>, i: int)
    requires
        ascii_lower(a) == ascii_lower(b),
    ensures
        a.len() == b.len(),
        occurs_at(a, dot(), i) == occurs_at(b, dot(), i),
{
    assert(ascii_lower(a).len() == a.len() && ascii_lower(b).len() == b.len());
    if 0 <= i < a.len() {
        lemma_ascii_lower_char(a[i]);
        lemma_ascii_lower_char(b[i]);
        assert(ascii_lower(a)[i] == ascii_lower_char(a[i]));
        assert(ascii_lower(b)[i] == ascii_lower_char(b[i]));
        assert(ascii_lower(a)[i] == ascii_lower(b)[i]);
        assert(a[i] == '.' <==> b[i] == '.');
        assert(occurs_at(a, dot(), i) <==> a[i] == '.') by {
            if a.subrange(i, i + 1) == dot() {
                assert(a[i] == a.subrange(i, i + 1)[0]);
            }
            if a[i] == '.' {
                assert(a.subrange(i, i + 1) =~= dot());
            }
        }
        assert(occurs_at(b, dot(), i) <==> b[i] == '.') by {
            if b.subrange(i, i + 1) == dot() {
                assert(b[i] == b.subrange(i, i + 1)[0]);
            }
            if b[i] == '.' {
                assert(b.subrange(i, i + 1) =~= dot());
            }
        }
    }
}

/// Names that differ only in the case of ASCII letters have stems that
/// differ only so.
proof fn lemma_stems_agree(a: Seq<char>, b: Seq<char>)
    requires
        ascii_lower(a) == ascii_lower(b),
    ensures
        ascii_lower(file_stem(a)) == ascii_lower(file_stem(b)),
{
    lemma_dots_agree(a, b, 0);
    assert forall|i: int| occurs_at(a, dot(), i) == occurs_at(b, dot(), i) by {
        lemma_dots_agree(a, b, i);
    }
    lemma_find_last_props(a, dot());
    lemma_find_last_props(b, dot());
    match find_last(a, dot()) {
        Some(i) => {
            lemma_find_last_at(b, dot(), i);
            if i > 0 {
                assert(ascii_lower(a.subrange(0, i)) =~= ascii_lower(a).subrange(0, i));
                assert(ascii_lower(b.subrange(0, i)) =~= ascii_lower(b).subrange(0, i));
            }
        },
        None => {
            match find_last(b, dot()) {
                Some(j) => {
                    assert(occurs_at(b, dot(), j));
                },
                None => {},
            }
        },
    }
}

/// Names of ASCII characters that differ only in the case of their letters
/// normalise alike.
pub proof fn law_normalize_ignores_ascii_case(a: Seq<char>, b: Seq<char>)
    requires
        ascii_lower(a) == ascii_lower(b),
    ensures
        ascii_normalize_name(a) == ascii_normalize_name(b),
{
    lemma_stems_agree(a, b);
}

/// A run of characters none of which is whitespace is one word.
proof fn lemma_one_word(s: Seq<char>)
    requires
        s.len() > 0,
        forall|i: int| 0 <= i < s.len() ==> !spec_is_whitespace(s[i]),
    ensures
        words(s) == seq![s],
    decreases s.len(),
{
    let c = s.last();
    assert(!spec_is_whitespace(s[s.len() - 1]));
    if s.len() == 1 {
        assert(s.drop_last() =~= Seq::<char>::empty());
        assert(words(s.drop_last()) == Seq::<Seq<char>>::empty());
        assert(seq![c] =~= s);
        assert(Seq::<Seq<char>>::empty().push(seq![c]) =~= seq![s]);
    } else {
        let s1 = s.drop_last();
        assert forall|i: int| 0 <= i < s1.len() implies !spec_is_whitespace(s1[i]) by {
            assert(s1[i] == s[i]);
        }
        lemma_one_word(s1);
        assert(!spec_is_whitespace(s[s.len() - 2]));
        let w = words(s1);
        assert(w.len() == 1 && w.last() == s1);
        assert(s1.push(c) =~= s);
        assert(w.update(0, s1.push(c)) =~= seq![s]);
    }
}

/// Keeping what satisfies a predicate that everything satisfies keeps all.
proof fn lemma_filter_keeps_all(d: Seq<char>, pred: spec_fn(char) -> bool)
    requires
        forall|i: int| 0 <= i < d.len() ==> pred(d[i]),
    ensures
        d.filter(pred) == d,
    decreases d.len(),
{
    reveal_with_fuel(Seq::<_>::filter, 1);
    if d.len() > 0 {
        let d1 = d.drop_last();
        assert forall|i: int| 0 <= i < d1.len() implies pred(d1[i]) by {
            assert(d1[i] == d[i]);
        }
        lemma_filter_keeps_all(d1, pred);
        assert(pred(d[d.len() - 1]));
        assert(d1.push(d.last()) =~= d);
    }
}

/// Alphanumeric characters are kept, in every script: a decomposed stem
/// made only of alphanumeric characters that are neither combining marks
/// nor whitespace, with no `_` or `-` (so with no copy marker), is its own
/// normalised form.
pub proof fn law_alphanumerics_kept(d: Seq<char>)
    requires
        forall|i: int|
            0 <= i < d.len() ==> spec_is_alphanumeric(#[trigger] d[i]) && !is_combining_mark(d[i])
                && !spec_is_whitespace(d[i]) && d[i] != '_' && d[i] != '-',
    ensures
        normalized_from_decomposed(d) == d,
{
    let pred = |c: char| !is_combining_mark(c);
    lemma_filter_keeps_all(d, pred);
    assert(d.filter(|c: char| !is_combining_mark(c)) == d);
    assert forall|i: int| 0 <= i < d.len() implies d[i] != ' ' && d[i] != '_' && d[i] != '-' by {
        assert(spec_is_alphanumeric(d[i]));
    }
    law_no_marker_without_separators(d);
    assert(blank_non_alphanumeric(d) =~= d) by {
        assert forall|i: int| 0 <= i < d.len() implies blank_non_alphanumeric(d)[i] == d[i] by {
            assert(spec_is_alphanumeric(d[i]));
        }
    }
    if d.len() > 0 {
        assert forall|i: int| 0 <= i < d.len() implies !spec_is_whitespace(d[i]) by {
            assert(spec_is_alphanumeric(d[i]));
        }
        lemma_one_word(d);
    } else {
        assert(words(d) =~= Seq::<Seq<char>>::empty());
        assert(d =~= Seq::<char>::empty());
    }
}

/// A name whose lowercased, decomposed stem is made only of alphanumeric
/// characters (no combining marks, whitespace, `_` or `-`) normalises to
/// that stem: no letter of any script is blanked.
pub proof fn law_alphanumeric_name_kept(name: Seq<char>)
    requires
        forall|i: int|
            0 <= i < spec_nfd(spec_to_lowercase(file_stem(name))).len() ==> {
                let c = #[trigger] spec_nfd(spec_to_lowercase(file_stem(name)))[i];
                spec_is_alphanumeric(c) && !is_combining_mark(c) && !spec_is_whitespace(c) && c
                    != '_' && c != '-'
            },
    ensures
        spec_normalize_name(name) == spec_nfd(spec_to_lowercase(file_stem(name))),
{
    law_alphanumerics_kept(spec_nfd(spec_to_lowercase(file_stem(name))));
}

/// The extension is all the text after the last dot, whatever its length,
/// and the stem all the text before it: for a non-empty `stem` and an
/// `ext` without dots, `stem.ext` splits back into the two.
pub proof fn law_extension_after_last_dot(stem: Seq<char>, ext: Seq<char>)
    requires
        stem.len() > 0,
        forall|i: int| 0 <= i < ext.len() ==> ext[i] != '.',
    ensures
        file_extension(stem + seq!['.'] + ext) == ext,
        file_stem(stem + seq!['.'] + ext) == stem,
{
    let name = stem + seq!['.'] + ext;
    let k = stem.len() as int;
    assert(occurs_at(name, dot(), k)) by {
        assert(name.subrange(k, k + 1) =~= dot());
    }
    assert forall|j: int| k < j implies !occurs_at(name, dot(), j) by {
        if occurs_at(name, dot(), j) {
            assert(name[j] == name.subrange(j, j + 1)[0]);
            assert(name[j] == ext[j - k - 1]);
        }
    }
    lemma_find_last_at(name, dot(), k);
    assert(name.subrange(k + 1, name.len() as int) =~= ext);
    assert(name.subrange(0, k) =~= stem);
}

} // verus!
