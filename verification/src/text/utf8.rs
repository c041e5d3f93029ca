//! How text is laid out in UTF-8: byte lengths and byte offsets of
//! characters.

use vstd::prelude::*;

verus! {

/// How many bytes a character takes in UTF-8.
pub open spec fn char_bytes(c: char) -> int {
    if (c as u32) < 0x80 { 1 } else if (c as u32) < 0x800 { 2 } else if (c as u32) < 0x10000 { 3 } else { 4 }
}

/// How many characters of `s` make up its first `n` bytes, where `n` falls
/// on a character boundary.
pub open spec fn chars_before(s: Seq<char>, n: int) -> Option<int>
    decreases s.len(),
{
    if n == 0 {
        Some(0)
    } else if s.len() == 0 || char_bytes(s[0]) > n {
        None
    } else {
        match chars_before(s.skip(1), n - char_bytes(s[0])) {
            Some(k) => Some(k + 1),
            None => None,
        }
    }
}

pub proof fn lemma_chars_before_bounds(s: Seq<char>, n: int)
    ensures
        chars_before(s, n) matches Some(k) ==> 0 <= k <= s.len(),
    decreases s.len(),
{
    if n != 0 && s.len() > 0 && char_bytes(s[0]) <= n {
        lemma_chars_before_bounds(s.skip(1), n - char_bytes(s[0]));
    }
}

pub(crate) fn char_len_utf8(c: char) -> (r: usize)
    ensures
        r == char_bytes(c),
{
    let v = c as u32;
    if v < 0x80 { 1 } else if v < 0x800 { 2 } else if v < 0x10000 { 3 } else { 4 }
}

/// How many bytes the characters take in UTF-8.
pub open spec fn bytes_of(s: Seq<char>) -> int
    decreases s.len(),
{
    if s.len() == 0 { 0 } else { bytes_of(s.drop_last()) + char_bytes(s.last()) }
}

pub proof fn lemma_bytes_of_nonneg(s: Seq<char>)
    ensures
        bytes_of(s) >= 0,
    decreases s.len(),
{
    if s.len() > 0 {
        lemma_bytes_of_nonneg(s.drop_last());
    }
}

pub proof fn lemma_chars_before_mono(s: Seq<char>, m: int, n: int)
    requires
        0 <= m <= n,
        chars_before(s, m) is Some,
        chars_before(s, n) is Some,
    ensures
        chars_before(s, m)->0 <= chars_before(s, n)->0,
    decreases s.len(),
{
    lemma_chars_before_bounds(s, n);
    if m != 0 {
        lemma_chars_before_mono(s.skip(1), m - char_bytes(s[0]), n - char_bytes(s[0]));
    }
}


pub proof fn lemma_bytes_of_concat(a: Seq<char>, b: Seq<char>)
    ensures
        bytes_of(a + b) == bytes_of(a) + bytes_of(b),
    decreases b.len(),
{
    if b.len() == 0 {
        assert(a + b =~= a);
    } else {
        assert((a + b).drop_last() =~= a + b.drop_last());
        lemma_bytes_of_concat(a, b.drop_last());
    }
}

/// Byte offsets of prefixes grow with the prefix.
pub proof fn lemma_bytes_of_prefix(s: Seq<char>, i: int, j: int)
    requires
        0 <= i <= j <= s.len(),
    ensures
        0 <= bytes_of(s.take(i)) <= bytes_of(s.take(j)),
{
    assert(s.take(j) =~= s.take(i) + s.take(j).skip(i));
    lemma_bytes_of_concat(s.take(i), s.take(j).skip(i));
    lemma_bytes_of_nonneg(s.take(i));
    lemma_bytes_of_nonneg(s.take(j).skip(i));
}

/// The first `k` characters end exactly at byte `bytes_of(s.take(k))`.
pub proof fn lemma_chars_before_prefix(s: Seq<char>, k: int)
    requires
        0 <= k <= s.len(),
    ensures
        chars_before(s, bytes_of(s.take(k))) == Some(k),
    decreases k,
{
    if k == 0 {
        assert(s.take(0) =~= Seq::<char>::empty());
    } else {
        let head = seq![s[0]];
        let rest = s.skip(1);
        assert(s.take(k) =~= head + rest.take(k - 1));
        lemma_bytes_of_concat(head, rest.take(k - 1));
        assert(head.drop_last() =~= Seq::<char>::empty());
        assert(head.len() == 1 && head.last() == s[0]);
        assert(bytes_of(head.drop_last()) == 0);
        assert(bytes_of(head) == char_bytes(s[0]));
        lemma_bytes_of_nonneg(rest.take(k - 1));
        lemma_chars_before_prefix(rest, k - 1);
        let n = bytes_of(s.take(k));
        assert(n == char_bytes(s[0]) + bytes_of(rest.take(k - 1)));
        assert(n != 0);
        assert(chars_before(s, n) == match chars_before(rest, n - char_bytes(s[0])) {
            Some(j) => Some(j + 1),
            None => None,
        });
    }
}

/// Where a byte offset falls on a character boundary, the characters before
/// it take up exactly that many bytes.
pub proof fn lemma_chars_before_inverse(s: Seq<char>, n: int)
    requires
        chars_before(s, n) is Some,
    ensures
        0 <= chars_before(s, n)->0 <= s.len(),
        bytes_of(s.take(chars_before(s, n)->0)) == n,
    decreases s.len(),
{
    lemma_chars_before_bounds(s, n);
    let k = chars_before(s, n)->0;
    if n == 0 {
        assert(s.take(0) =~= Seq::<char>::empty());
    } else {
        let head = seq![s[0]];
        let rest = s.skip(1);
        lemma_chars_before_inverse(rest, n - char_bytes(s[0]));
        assert(s.take(k) =~= head + rest.take(k - 1));
        lemma_bytes_of_concat(head, rest.take(k - 1));
        assert(head.drop_last() =~= Seq::<char>::empty());
        assert(head.len() == 1 && head.last() == s[0]);
        assert(bytes_of(head.drop_last()) == 0);
        assert(bytes_of(head) == char_bytes(s[0]));
    }
}

} // verus!
