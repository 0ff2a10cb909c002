//! Random renumbering of file names: `NNN_name` prefixes, their removal,
//! and the plan of renames.
use rand::seq::SliceRandom;
use vstd::prelude::*;
use vstd::string::StrSliceExecFns;
use crate::ordering::{lemma_name_lt_irreflexive, name_lt, order_by_name, ranks_in_order};
use crate::text::{
    all_ascii_digits, chars_of, digits_value, find, find_first, is_ascii_digit, lemma_find_first_at,
    occurs_at, string_of,
};

verus! {

/// Whether `haystack` matches the regular expression `pattern`; `None`
/// when the pattern does not compile.
pub uninterp spec fn spec_regex_is_match(pattern: Seq<char>, haystack: Seq<char>) -> Option<bool>;

/// Compiles `pattern` with `regex::Regex::new` and asks `Regex::is_match`
/// about `haystack`; `None` when compiling fails.  The answer is a function
/// of the two strings, named `spec_regex_is_match`.  One fact is stated, as
/// the crate documents its syntax (`\d` is the Unicode decimal-digit class,
/// which holds `0`-`9`; `^` and `$` anchor at the ends): `^\d+$` compiles
/// and accepts every non-empty string of ASCII digits.
#[verifier::external_body]
fn regex_is_match(pattern: &str, haystack: &str) -> (r: Option<bool>)
    ensures
        r == spec_regex_is_match(pattern@, haystack@),
        pattern@ == digit_run_pattern() && haystack@.len() > 0 && all_ascii_digits(haystack@) ==> r
            == Some(true),
{
    match regex::Regex::new(pattern) {
        Ok(re) => Some(re.is_match(haystack)),
        Err(_) => None,
    }
}

/// Shuffles `v` with `SliceRandom::shuffle` and the thread-local generator
/// `rand::rng()`.  The outcome is random; it is stated only that the
/// elements are the same.
#[verifier::external_body]
fn shuffle(v: &mut Vec<usize>)
    ensures
        final(v)@.to_multiset() == old(v)@.to_multiset(),
{
    v.shuffle(&mut rand::rng());
}

/// The regular expression of a run of one or more decimal digits and
/// nothing else: `^\d+$`.
pub open spec fn digit_run_pattern() -> Seq<char> {
    seq!['^', '\\', 'd', '+', '$']
}

pub open spec fn underscore() -> Seq<char> {
    seq!['_']
}

/// The text before the first `_` of a name; empty when there is none.
pub open spec fn number_head(name: Seq<char>) -> Seq<char> {
    match find_first(name, underscore()) {
        Some(u) => name.subrange(0, u),
        None => Seq::empty(),
    }
}

/// The name without the text up to and including its first `_`, where
/// that text is a non-empty head judged a number; else the name itself.
pub open spec fn strip_head(name: Seq<char>, head_is_number: bool) -> Seq<char> {
    match find_first(name, underscore()) {
        Some(u) => if u > 0 && head_is_number {
            name.subrange(u + 1, name.len() as int)
        } else {
            name
        },
        None => name,
    }
}

/// The name without a leading `digits_` prefix: the text before the first
/// `_` must be a non-empty run of (Unicode) decimal digits.
pub open spec fn spec_strip_prefix(name: Seq<char>) -> Seq<char> {
    strip_head(
        name,
        number_head(name).len() > 0 && spec_regex_is_match(digit_run_pattern(), number_head(name))
            == Some(true),
    )
}

/// A file the renumbering works on: its name does not start with `.`.
pub open spec fn is_listed(name: Seq<char>) -> bool {
    !(name.len() > 0 && name[0] == '.')
}

pub open spec fn decimal_digit(d: int) -> char {
    seq!['0', '1', '2', '3', '4', '5', '6', '7', '8', '9'][d]
}

/// The decimal numeral of `n`, without leading zeros.
pub open spec fn decimal(n: nat) -> Seq<char>
    decreases n,
{
    if n < 10 {
        seq![decimal_digit(n as int)]
    } else {
        decimal(n / 10).push(decimal_digit((n % 10) as int))
    }
}

/// The numeral of `n` padded with zeros on the left to `width` characters.
pub open spec fn zero_padded(n: nat, width: nat) -> Seq<char> {
    let d = decimal(n);
    if d.len() >= width {
        d
    } else {
        Seq::new((width - d.len()) as nat, |i: int| '0') + d
    }
}

/// The name of a file numbered `n`: `0…0n_clean`.
pub open spec fn numbered(n: nat, width: nat, clean: Seq<char>) -> Seq<char> {
    zero_padded(n, width) + underscore() + clean
}

pub open spec fn strip_marker() -> Seq<char> {
    seq!['.', 'f', 'u', 's', '_', 's', 't', 'r', 'i', 'p', '_']
}

pub open spec fn rename_marker() -> Seq<char> {
    seq!['.', 'f', 'u', 's', '_', 't', 'm', 'p', '_']
}

/// Whether the renumbering works on a file of this name (hidden files and
/// `._` resource forks are left alone).
pub fn is_listed_name(name: &str) -> (r: bool)
    ensures
        r == is_listed(name@),
{
    let v = chars_of(name);
    let starts_with_dot = v.len() > 0 && v[0] == '.';
    let starts_with_dot_underscore = v.len() > 1 && v[0] == '.' && v[1] == '_';
    !starts_with_dot && !starts_with_dot_underscore
}

/// The text of `name` before its first `_`; empty when there is none.
fn head_before_underscore(name: &str) -> (r: &str)
    ensures
        r@ == number_head(name@),
{
    let v = chars_of(name);
    let us = vec!['_'];
    assert(us@ =~= underscore());
    match find(v.as_slice(), us.as_slice()) {
        Some(u) => name.substring_char(0, u),
        None => {
            let empty = "";
            proof {
                reveal_strlit("");
                assert(empty@ =~= Seq::<char>::empty());
            }
            empty
        },
    }
}

/// `name` without the text up to and including its first `_` where
/// `head_is_number` says that the text before that `_` is a number and it
/// is not empty; otherwise `name` unchanged.
pub fn strip_matched_prefix(name: &str, head_is_number: bool) -> (r: &str)
    ensures
        r@ == strip_head(name@, head_is_number),
{
    let v = chars_of(name);
    let n = v.len();
    let us = vec!['_'];
    assert(us@ =~= underscore());
    match find(v.as_slice(), us.as_slice()) {
        Some(u) => {
            if u > 0 && head_is_number {
                proof {
                    assert(occurs_at(v@, underscore(), u as int));
                }
                name.substring_char(u + 1, n)
            } else {
                name
            }
        },
        None => name,
    }
}

/// `name` without a leading run of digits and `_`.  On a numbered name it
/// gives back the clean name.
pub fn strip_prefix(name: &str) -> (r: &str)
    ensures
        r@ == spec_strip_prefix(name@),
        forall|n: nat, w: nat, clean: Seq<char>| #[trigger] numbered(n, w, clean) == name@ ==> r@ == clean,
{
    let head = head_before_underscore(name);
    let head_is_number = if head.unicode_len() > 0 {
        let pattern = "^\\d+$";
        proof {
            reveal_strlit("^\\d+$");
            assert(pattern@ =~= digit_run_pattern());
        }
        regex_is_match(pattern, head) == Some(true)
    } else {
        false
    };
    proof {
        assert forall|k: nat, w: nat, clean: Seq<char>| #[trigger] numbered(k, w, clean) == name@
            implies strip_head(name@, head_is_number) == clean by {
            lemma_numbered_split(k, w, clean);
        }
    }
    strip_matched_prefix(name, head_is_number)
}

fn decimal_digit_exec(d: usize) -> (c: char)
    requires
        d < 10,
    ensures
        c == decimal_digit(d as int),
{
    let table = ['0', '1', '2', '3', '4', '5', '6', '7', '8', '9'];
    assert(table@ =~= seq!['0', '1', '2', '3', '4', '5', '6', '7', '8', '9']);
    table[d]
}

/// The decimal digits of `n`.
pub(crate) fn decimal_chars(n: u64) -> (r: Vec<char>)
    ensures
        r@ == decimal(n as nat),
    decreases n,
{
    if n < 10 {
        let mut r: Vec<char> = Vec::new();
        r.push(decimal_digit_exec((n as usize)));
        assert(r@ =~= seq![decimal_digit(n as int)]);
        r
    } else {
        let mut r = decimal_chars(n / 10);
        r.push(decimal_digit_exec(((n % 10) as usize)));
        r
    }
}

/// The number of decimal digits of `count`: the width of the prefixes when
/// `count` files are numbered.
pub fn prefix_width(count: usize) -> (w: usize)
    ensures
        w == decimal(count as nat).len(),
{
    decimal_chars(count as u64).len()
}

/// `clean` numbered `n`, the number padded with zeros to `width` digits.
pub fn numbered_name(n: usize, width: usize, clean: &str) -> (r: String)
    ensures
        r@ == numbered(n as nat, width as nat, clean@),
{
    let d = decimal_chars(n as u64);
    let mut v: Vec<char> = Vec::new();
    let mut k: usize = d.len();
    while k < width
        invariant
            d@ == decimal(n as nat),
            d@.len() <= k <= width || (k == d@.len() && k >= width),
            v@ == Seq::new((k - d@.len()) as nat, |i: int| '0'),
        decreases width - k,
    {
        v.push('0');
        k = k + 1;
        assert(v@ =~= Seq::new((k - d@.len()) as nat, |i: int| '0'));
    }
    let mut i: usize = 0;
    let ghost pad = v@;
    while i < d.len()
        invariant
            i <= d@.len(),
            v@ == pad + d@.subrange(0, i as int),
        decreases d@.len() - i,
    {
        v.push(d[i]);
        i = i + 1;
        assert(v@ =~= pad + d@.subrange(0, i as int));
    }
    assert(d@.subrange(0, d@.len() as int) =~= d@);
    v.push('_');
    let c = chars_of(clean);
    let mut j: usize = 0;
    let ghost head = v@;
    while j < c.len()
        invariant
            j <= c@.len(),
            v@ == head + c@.subrange(0, j as int),
        decreases c@.len() - j,
    {
        v.push(c[j]);
        j = j + 1;
        assert(v@ =~= head + c@.subrange(0, j as int));
    }
    assert(c@.subrange(0, c@.len() as int) =~= c@);
    assert(v@ =~= numbered(n as nat, width as nat, clean@));
    string_of(v.as_slice())
}

/// The numbers `1..=count` in a random order.
pub fn shuffled_numbers(count: usize) -> (r: Vec<usize>)
    ensures
        r@.to_multiset() == Seq::new(count as nat, |i: int| (i + 1) as usize).to_multiset(),
        r@.len() == count,
{
    let mut v: Vec<usize> = Vec::new();
    let mut i: usize = 0;
    while i < count
        invariant
            i <= count,
            v@ == Seq::new(i as nat, |k: int| (k + 1) as usize),
        decreases count - i,
    {
        v.push(i + 1);
        i = i + 1;
        assert(v@ =~= Seq::new(i as nat, |k: int| (k + 1) as usize));
    }
    let ghost before = v@;
    shuffle(&mut v);
    proof {
        vstd::seq_lib::to_multiset_len(v@);
        vstd::seq_lib::to_multiset_len(before);
    }
    v
}

/// The renames of a renumbering: the files in the order of a stable sort by
/// their clean names, the `k`-th of them numbered `numbers[k]`, padded to
/// the width of the file count.
pub fn plan_renumbering(clean_names: &Vec<String>, numbers: &Vec<usize>) -> (plan: Vec<(usize, String)>)
    requires
        numbers@.len() == clean_names@.len(),
    ensures
        plan@.len() == clean_names@.len(),
        ranks_in_order(
            Seq::new(clean_names@.len(), |i: int| 0u32),
            clean_names@.map_values(|s: String| s@),
            clean_names@.len() as int,
            plan@.map_values(|e: (usize, String)| e.0),
        ),
        forall|k: int|
            0 <= k < plan@.len() ==> (#[trigger] plan@[k]).1@ == numbered(
                numbers@[k] as nat,
                decimal(clean_names@.len() as nat).len(),
                clean_names@[plan@[k].0 as int]@,
            ),
{
    let n = clean_names.len();
    let width = prefix_width(n);
    let ord = order_by_name(clean_names);
    let mut plan: Vec<(usize, String)> = Vec::new();
    let mut k: usize = 0;
    while k < n
        invariant
            n == clean_names@.len(),
            numbers@.len() == n,
            width == decimal(n as nat).len(),
            ranks_in_order(
                Seq::new(n as nat, |i: int| 0u32),
                clean_names@.map_values(|s: String| s@),
                n as int,
                ord@,
            ),
            k <= n,
            plan@.len() == k,
            forall|m: int| 0 <= m < k ==> (#[trigger] plan@[m]).0 == ord@[m],
            forall|m: int|
                0 <= m < k ==> (#[trigger] plan@[m]).1@ == numbered(
                    numbers@[m] as nat,
                    width as nat,
                    clean_names@[plan@[m].0 as int]@,
                ),
        decreases n - k,
    {
        let p = ord[k];
        assert(p < n);
        let name = numbered_name(numbers[k], width, clean_names[p].as_str());
        plan.push((p, name));
        k = k + 1;
    }
    assert(plan@.map_values(|e: (usize, String)| e.0) =~= ord@);
    plan
}

/// The temporary name under which a file waits while prefixes are stripped.
pub fn strip_temp_name(clean: &str) -> (r: String)
    ensures
        r@ == strip_marker() + clean@,
{
    let mut v = vec!['.', 'f', 'u', 's', '_', 's', 't', 'r', 'i', 'p', '_'];
    assert(v@ =~= strip_marker());
    let c = chars_of(clean);
    let mut j: usize = 0;
    while j < c.len()
        invariant
            j <= c@.len(),
            v@ == strip_marker() + c@.subrange(0, j as int),
        decreases c@.len() - j,
    {
        v.push(c[j]);
        j = j + 1;
        assert(v@ =~= strip_marker() + c@.subrange(0, j as int));
    }
    assert(c@.subrange(0, c@.len() as int) =~= c@);
    string_of(v.as_slice())
}

/// The temporary name under which a file waits for its new number.
pub fn rename_temp_name(new_name: &str) -> (r: String)
    ensures
        r@ == rename_marker() + new_name@,
{
    let mut v = vec!['.', 'f', 'u', 's', '_', 't', 'm', 'p', '_'];
    assert(v@ =~= rename_marker());
    let c = chars_of(new_name);
    let mut j: usize = 0;
    while j < c.len()
        invariant
            j <= c@.len(),
            v@ == rename_marker() + c@.subrange(0, j as int),
        decreases c@.len() - j,
    {
        v.push(c[j]);
        j = j + 1;
        assert(v@ =~= rename_marker() + c@.subrange(0, j as int));
    }
    assert(c@.subrange(0, c@.len() as int) =~= c@);
    string_of(v.as_slice())
}

/// Whether a name is a temporary name of the prefix-stripping phase.
pub fn is_strip_temp_name(name: &str) -> (r: bool)
    ensures
        r == (name@.len() >= strip_marker().len() && name@.subrange(0, strip_marker().len() as int)
            == strip_marker()),
{
    let v = chars_of(name);
    let m = vec!['.', 'f', 'u', 's', '_', 's', 't', 'r', 'i', 'p', '_'];
    assert(m@ =~= strip_marker());
    occurs_at_start(v.as_slice(), m.as_slice())
}

fn occurs_at_start(s: &[char], p: &[char]) -> (r: bool)
    ensures
        r == (s@.len() >= p@.len() && s@.subrange(0, p@.len() as int) == p@),
{
    crate::text::occurs_at_exec(s, p, 0)
}

/// A numeral has at least one digit, and only ASCII digits.
pub proof fn lemma_decimal_digits(n: nat)
    ensures
        decimal(n).len() >= 1,
        forall|i: int| 0 <= i < decimal(n).len() ==> is_ascii_digit(#[trigger] decimal(n)[i]),
    decreases n,
{
    if n >= 10 {
        lemma_decimal_digits(n / 10);
    }
}

/// Larger numbers have at least as many digits.
pub proof fn lemma_decimal_len_mono(n: nat, m: nat)
    requires
        n <= m,
    ensures
        decimal(n).len() <= decimal(m).len(),
    decreases m,
{
    lemma_decimal_digits(n);
    lemma_decimal_digits(m);
    if n >= 10 {
        assert(n / 10 <= m / 10);
        lemma_decimal_len_mono(n / 10, m / 10);
    }
}

proof fn lemma_padded_digits(n: nat, width: nat)
    ensures
        zero_padded(n, width).len() >= 1,
        forall|i: int|
            0 <= i < zero_padded(n, width).len() ==> is_ascii_digit(#[trigger] zero_padded(n, width)[i]),
{
    lemma_decimal_digits(n);
    let d = decimal(n);
    if d.len() < width {
        let z = zero_padded(n, width);
        assert forall|i: int| 0 <= i < z.len() implies is_ascii_digit(#[trigger] z[i]) by {
            if i >= width - d.len() {
                assert(z[i] == d[i - (width - d.len())]);
            }
        }
    }
}

/// Where the first `_` of a numbered name stands, and what surrounds it.
proof fn lemma_numbered_split(n: nat, width: nat, clean: Seq<char>)
    ensures
        ({
            let z = zero_padded(n, width);
            let s = numbered(n, width, clean);
            &&& z.len() > 0
            &&& all_ascii_digits(z)
            &&& find_first(s, underscore()) == Some(z.len() as int)
            &&& s.subrange(0, z.len() as int) == z
            &&& s.subrange(z.len() as int + 1, s.len() as int) == clean
        }),
{
    let z = zero_padded(n, width);
    let s = numbered(n, width, clean);
    lemma_padded_digits(n, width);
    let u = z.len() as int;
    assert(s.subrange(u, u + 1) =~= underscore());
    assert forall|j: int| 0 <= j < u implies !occurs_at(s, underscore(), j) by {
        assert(s[j] == z[j]);
        assert(is_ascii_digit(z[j]));
        if occurs_at(s, underscore(), j) {
            assert(s.subrange(j, j + 1)[0] == s[j]);
        }
    }
    lemma_find_first_at(s, underscore(), u);
    assert(s.subrange(0, u) =~= z);
    assert(s.subrange(u + 1, s.len() as int) =~= clean);
}

/// Clearing undoes numbering: stripping the prefix from a numbered name
/// gives back the clean name, wherever the regular expression of a digit
/// run accepts the padded numeral (`strip_prefix` states it without that
/// condition, which its call to the regular expression settles).
pub proof fn law_strip_numbered(n: nat, width: nat, clean: Seq<char>)
    requires
        spec_regex_is_match(digit_run_pattern(), zero_padded(n, width)) == Some(true),
    ensures
        spec_strip_prefix(numbered(n, width, clean)) == clean,
{
    lemma_numbered_split(n, width, clean);
}

/// With the width of the file count, every number from 1 to the count is
/// padded to exactly that width, so all prefixes have one length.
pub proof fn law_padded_width(n: nat, count: nat)
    requires
        n <= count,
    ensures
        zero_padded(n, decimal(count).len()).len() == decimal(count).len(),
{
    lemma_decimal_len_mono(n, count);
}

proof fn lemma_digit_value(d: int)
    requires
        0 <= d < 10,
    ensures
        decimal_digit(d) as int - '0' as int == d,
        is_ascii_digit(decimal_digit(d)),
{
    let t = seq!['0', '1', '2', '3', '4', '5', '6', '7', '8', '9'];
    assert(t[0] == '0' && t[1] == '1' && t[2] == '2' && t[3] == '3' && t[4] == '4');
    assert(t[5] == '5' && t[6] == '6' && t[7] == '7' && t[8] == '8' && t[9] == '9');
}

proof fn lemma_decimal_value(n: nat)
    ensures
        digits_value(decimal(n)) == n,
    decreases n,
{
    if n < 10 {
        lemma_digit_value(n as int);
        assert(decimal(n).drop_last() =~= Seq::<char>::empty());
        assert(digits_value(Seq::<char>::empty()) == 0);
        assert(digits_value(decimal(n)) == digits_value(decimal(n).drop_last()) * 10 + (decimal(
            n,
        ).last() as int - '0' as int));
    } else {
        lemma_digit_value((n % 10) as int);
        assert(decimal(n).last() == decimal_digit((n % 10) as int));
        assert((n / 10) * 10 + n % 10 == n);
        lemma_decimal_value(n / 10);
        let d = decimal(n);
        assert(d.drop_last() =~= decimal(n / 10));
        assert(digits_value(d) == digits_value(d.drop_last()) * 10 + (d.last() as int - '0' as int));
    }
}

proof fn lemma_zeros_value(k: nat)
    ensures
        digits_value(Seq::new(k, |i: int| '0')) == 0,
    decreases k,
{
    if k > 0 {
        assert(Seq::new(k, |i: int| '0').drop_last() =~= Seq::new((k - 1) as nat, |i: int| '0'));
        lemma_zeros_value((k - 1) as nat);
    }
}

/// Leading zeros do not change the value of a numeral.
proof fn lemma_leading_zeros_value(z: Seq<char>, d: Seq<char>)
    requires
        forall|i: int| 0 <= i < z.len() ==> z[i] == '0',
    ensures
        digits_value(z + d) == digits_value(d),
    decreases d.len(),
{
    if d.len() == 0 {
        assert(z + d =~= z);
        assert(z =~= Seq::new(z.len(), |i: int| '0'));
        lemma_zeros_value(z.len());
    } else {
        assert((z + d).drop_last() =~= z + d.drop_last());
        lemma_leading_zeros_value(z, d.drop_last());
    }
}

proof fn lemma_padded_value(n: nat, width: nat)
    ensures
        digits_value(zero_padded(n, width)) == n,
{
    lemma_decimal_value(n);
    let d = decimal(n);
    if d.len() < width {
        lemma_leading_zeros_value(Seq::new((width - d.len()) as nat, |i: int| '0'), d);
    }
}

/// All-digit numerals of one length and one value are equal.
proof fn lemma_same_value_same_digits(a: Seq<char>, b: Seq<char>)
    requires
        a.len() == b.len(),
        all_ascii_digits(a),
        all_ascii_digits(b),
        digits_value(a) == digits_value(b),
    ensures
        a == b,
    decreases a.len(),
{
    if a.len() > 0 {
        let a1 = a.drop_last();
        let b1 = b.drop_last();
        assert(is_ascii_digit(a[a.len() - 1]) && is_ascii_digit(b[b.len() - 1]));
        assert(all_ascii_digits(a1)) by {
            assert forall|i: int| 0 <= i < a1.len() implies is_ascii_digit(#[trigger] a1[i]) by {
                assert(a1[i] == a[i]);
            }
        }
        assert(all_ascii_digits(b1)) by {
            assert forall|i: int| 0 <= i < b1.len() implies is_ascii_digit(#[trigger] b1[i]) by {
                assert(b1[i] == b[i]);
            }
        }
        lemma_same_value_same_digits(a1, b1);
        assert(a =~= a1.push(a.last()));
        assert(b =~= b1.push(b.last()));
    } else {
        assert(a =~= b);
    }
}

/// Among strings of one length, an order decided in a common-length prefix
/// is kept whatever follows.
proof fn lemma_name_lt_extend(a: Seq<char>, b: Seq<char>, s: Seq<char>, t: Seq<char>)
    requires
        a.len() == b.len(),
        name_lt(a, b),
    ensures
        name_lt(a + s, b + t),
    decreases a.len(),
{
    if a.len() > 0 && a[0] == b[0] {
        assert((a + s).drop_first() =~= a.drop_first() + s);
        assert((b + t).drop_first() =~= b.drop_first() + t);
        lemma_name_lt_extend(a.drop_first(), b.drop_first(), s, t);
    }
}

/// A common prefix followed by smaller and larger characters.
proof fn lemma_name_lt_last(p: Seq<char>, x: char, y: char)
    requires
        x < y,
    ensures
        name_lt(p.push(x), p.push(y)),
    decreases p.len(),
{
    if p.len() > 0 {
        assert(p.push(x).drop_first() =~= p.drop_first().push(x));
        assert(p.push(y).drop_first() =~= p.drop_first().push(y));
        lemma_name_lt_last(p.drop_first(), x, y);
    }
}

/// For numerals of one length, the smaller value is the smaller string.
proof fn lemma_value_order(a: Seq<char>, b: Seq<char>)
    requires
        a.len() == b.len(),
        all_ascii_digits(a),
        all_ascii_digits(b),
        digits_value(a) < digits_value(b),
    ensures
        name_lt(a, b),
    decreases a.len(),
{
    let a1 = a.drop_last();
    let b1 = b.drop_last();
    assert(all_ascii_digits(a1)) by {
        assert forall|i: int| 0 <= i < a1.len() implies is_ascii_digit(#[trigger] a1[i]) by {
            assert(a1[i] == a[i]);
        }
    }
    assert(all_ascii_digits(b1)) by {
        assert forall|i: int| 0 <= i < b1.len() implies is_ascii_digit(#[trigger] b1[i]) by {
            assert(b1[i] == b[i]);
        }
    }
    assert(is_ascii_digit(a[a.len() - 1]) && is_ascii_digit(b[b.len() - 1]));
    assert(a =~= a1.push(a.last()));
    assert(b =~= b1.push(b.last()));
    if digits_value(a1) < digits_value(b1) {
        lemma_value_order(a1, b1);
        lemma_name_lt_extend(a1, b1, seq![a.last()], seq![b.last()]);
        assert(a1 + seq![a.last()] =~= a);
        assert(b1 + seq![b.last()] =~= b);
    } else if digits_value(a1) == digits_value(b1) {
        lemma_same_value_same_digits(a1, b1);
        lemma_name_lt_last(a1, a.last(), b.last());
    } else {
        assert(false);
    }
}

/// Numbers padded to one width sort as their values: listing the renamed
/// files by name lists them in the order of their numbers.
pub proof fn law_padded_numbers_sort_by_value(n1: nat, n2: nat, count: nat, clean1: Seq<char>, clean2: Seq<char>)
    requires
        n1 < n2 <= count,
    ensures
        name_lt(
            numbered(n1, decimal(count).len(), clean1),
            numbered(n2, decimal(count).len(), clean2),
        ),
{
    let w = decimal(count).len();
    law_padded_width(n1, count);
    law_padded_width(n2, count);
    lemma_padded_digits(n1, w);
    lemma_padded_digits(n2, w);
    lemma_padded_value(n1, w);
    lemma_padded_value(n2, w);
    let z1 = zero_padded(n1, w);
    let z2 = zero_padded(n2, w);
    assert(all_ascii_digits(z1));
    assert(all_ascii_digits(z2));
    lemma_value_order(z1, z2);
    lemma_name_lt_extend(z1, z2, underscore() + clean1, underscore() + clean2);
    assert(numbered(n1, w, clean1) =~= z1 + (underscore() + clean1));
    assert(numbered(n2, w, clean2) =~= z2 + (underscore() + clean2));
}

/// Different numbers up to the file count give different names, whatever
/// the clean names: no rename overwrites another file of the renumbering.
pub proof fn law_numbered_names_distinct(n1: nat, n2: nat, count: nat, clean1: Seq<char>, clean2: Seq<char>)
    requires
        n1 != n2,
        n1 <= count,
        n2 <= count,
    ensures
        numbered(n1, decimal(count).len(), clean1) != numbered(n2, decimal(count).len(), clean2),
{
    let w = decimal(count).len();
    if n1 < n2 {
        law_padded_numbers_sort_by_value(n1, n2, count, clean1, clean2);
        if numbered(n1, w, clean1) == numbered(n2, w, clean2) {
            lemma_name_lt_irreflexive(numbered(n1, w, clean1));
        }
    } else {
        law_padded_numbers_sort_by_value(n2, n1, count, clean2, clean1);
        if numbered(n1, w, clean1) == numbered(n2, w, clean2) {
            lemma_name_lt_irreflexive(numbered(n2, w, clean2));
        }
    }
}

/// Temporary names are hidden from the listing, and never equal a numbered
/// name, so the intermediate renames cannot collide with a final one.
pub proof fn law_temp_names_hidden(n: nat, width: nat, clean: Seq<char>, other: Seq<char>)
    ensures
        !is_listed(strip_marker() + other),
        !is_listed(rename_marker() + other),
        is_listed(numbered(n, width, clean)),
        numbered(n, width, clean) != strip_marker() + other,
        numbered(n, width, clean) != rename_marker() + other,
{
    lemma_padded_digits(n, width);
    let z = zero_padded(n, width);
    assert((strip_marker() + other)[0] == '.');
    assert((rename_marker() + other)[0] == '.');
    assert(numbered(n, width, clean)[0] == z[0]);
    assert(is_ascii_digit(z[0]));
}

} // verus!
