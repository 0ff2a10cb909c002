//! Identical-content detection: SHA-256 digests in lowercase hex, grouping
//! of files by size and by digest, and the space that duplicates waste.
use sha2::{Digest, Sha256};
use vstd::prelude::*;
use crate::grouping::{groups_of_labels, label_groups};

verus! {

/// The SHA-256 digest of a byte string.
pub uninterp spec fn spec_sha256(data: Seq<u8>) -> Seq<u8>;

/// Calls `Digest::digest` of `sha2::Sha256` and copies the digest out.  A
/// SHA-256 digest has 32 bytes; beyond that the result is a function of
/// `data`, named `spec_sha256`.
#[verifier::external_body]
fn sha256(data: &[u8]) -> (r: Vec<u8>)
    ensures
        r@ == spec_sha256(data@),
        r@.len() == 32,
{
    Sha256::digest(data).to_vec()
}

/// The lowercase hexadecimal digit of a value below 16.
pub open spec fn hex_digit(v: int) -> char {
    seq!['0', '1', '2', '3', '4', '5', '6', '7', '8', '9', 'a', 'b', 'c', 'd', 'e', 'f'][v]
}

/// Two lowercase hex digits per byte, high nibble first.
pub open spec fn hex_lower(bytes: Seq<u8>) -> Seq<char>
    decreases bytes.len(),
{
    if bytes.len() == 0 {
        Seq::empty()
    } else {
        let b = bytes.last();
        hex_lower(bytes.drop_last()) + seq![hex_digit(b as int / 16), hex_digit(b as int % 16)]
    }
}

fn hex_digit_exec(v: u8) -> (c: char)
    requires
        v < 16,
    ensures
        c == hex_digit(v as int),
{
    let table = ['0', '1', '2', '3', '4', '5', '6', '7', '8', '9', 'a', 'b', 'c', 'd', 'e', 'f'];
    assert(table@ =~= seq!['0', '1', '2', '3', '4', '5', '6', '7', '8', '9', 'a', 'b', 'c', 'd', 'e', 'f']);
    table[v as usize]
}

/// The bytes written in lowercase hex.
pub fn to_hex_lower(bytes: &[u8]) -> (r: String)
    ensures
        r@ == hex_lower(bytes@),
{
    let mut v: Vec<char> = Vec::new();
    let mut i: usize = 0;
    while i < bytes.len()
        invariant
            i <= bytes@.len(),
            v@ == hex_lower(bytes@.take(i as int)),
        decreases bytes@.len() - i,
    {
        let b = bytes[i];
        v.push(hex_digit_exec(b / 16));
        v.push(hex_digit_exec(b % 16));
        assert(bytes@.take(i + 1).drop_last() =~= bytes@.take(i as int));
        i = i + 1;
        assert(v@ =~= hex_lower(bytes@.take(i as int)));
    }
    assert(bytes@.take(bytes@.len() as int) =~= bytes@);
    crate::text::string_of(v.as_slice())
}

/// The SHA-256 digest of `data` in lowercase hex: the key by which file
/// contents are compared.
pub fn digest_hex(data: &[u8]) -> (r: String)
    ensures
        r@ == hex_lower(spec_sha256(data@)),
        r@.len() == 64,
{
    let d = sha256(data);
    let r = to_hex_lower(d.as_slice());
    proof {
        lemma_hex_len(d@);
    }
    r
}

pub proof fn lemma_hex_len(bytes: Seq<u8>)
    ensures
        hex_lower(bytes).len() == 2 * bytes.len(),
    decreases bytes.len(),
{
    if bytes.len() > 0 {
        lemma_hex_len(bytes.drop_last());
    }
}

/// The files that share a size with at least one other, grouped by size.
pub fn size_groups(sizes: &Vec<u64>) -> (r: Vec<Vec<usize>>)
    ensures
        label_groups(sizes@, r@),
{
    groups_of_labels(sizes.as_slice())
}

/// The index of the first key equal to each key.
fn first_equal_keys(keys: &Vec<String>) -> (l: Vec<u64>)
    ensures
        l@.len() == keys@.len(),
        forall|a: int, b: int|
            0 <= a < keys@.len() && 0 <= b < keys@.len() ==> (l@[a] == l@[b] <==> keys@[a]@
                == keys@[b]@),
{
    let n = keys.len();
    let mut l: Vec<u64> = Vec::new();
    let mut i: usize = 0;
    while i < n
        invariant
            n == keys@.len(),
            i <= n,
            l@.len() == i,
            forall|a: int|
                0 <= a < i ==> (#[trigger] l@[a] as int) <= a && keys@[l@[a] as int]@ == keys@[a]@
                    && forall|c: int| 0 <= c < l@[a] ==> keys@[c]@ != keys@[a]@,
        decreases n - i,
    {
        let mut j: usize = 0;
        while j < i && keys[j] != keys[i]
            invariant
                n == keys@.len(),
                j <= i < n,
                forall|c: int| 0 <= c < j ==> keys@[c]@ != keys@[i as int]@,
            decreases i - j,
        {
            j = j + 1;
        }
        l.push(j as u64);
        i = i + 1;
    }
    proof {
        assert forall|a: int, b: int|
            0 <= a < n && 0 <= b < n implies (l@[a] == l@[b] <==> keys@[a]@ == keys@[b]@) by {
            if keys@[a]@ == keys@[b]@ {
                if l@[a] < l@[b] {
                    assert(keys@[l@[a] as int]@ == keys@[b]@);
                } else if l@[b] < l@[a] {
                    assert(keys@[l@[b] as int]@ == keys@[a]@);
                }
            }
        }
    }
    l
}

/// The files grouped by equal keys (content digests), groups of at least two.
pub fn key_groups(keys: &Vec<String>) -> (r: Vec<Vec<usize>>)
    ensures
        exists|l: Seq<u64>|
            {
                &&& l.len() == keys@.len()
                &&& forall|a: int, b: int|
                    0 <= a < keys@.len() && 0 <= b < keys@.len() ==> (l[a] == l[b] <==> keys@[a]@
                        == keys@[b]@)
                &&& label_groups(l, r@)
            },
{
    let l = first_equal_keys(keys);
    groups_of_labels(l.as_slice())
}

/// The bytes that the copies of a file take: its size once for each file
/// of its group but one.  Defined where that product fits in a `u64`.
pub fn wasted_bytes(file_size: u64, group_len: usize) -> (r: u64)
    requires
        group_len >= 1,
        file_size * (group_len - 1) <= u64::MAX,
    ensures
        r == file_size * (group_len - 1),
{
    file_size * ((group_len - 1) as u64)
}

} // verus!
