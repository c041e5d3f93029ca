//! Moving between strings and sequences of characters.

use vstd::prelude::*;

verus! {

broadcast use vstd::string::axiom_spec_iter;

/// The characters of `s`, in order.
pub fn chars_of(s: &str) -> (r: Vec<char>)
    ensures
        r@ == s@,
{
    let mut r: Vec<char> = Vec::new();
    for c in it: s.chars()
        invariant
            r@ == it.seq().take(it.index() as int),
    {
        r.push(c);
    }
    r
}

/// Where `c` first occurs in `s`, or the length of `s` if it does not.
pub open spec fn index_of(s: Seq<char>, c: char) -> int
    decreases s.len(),
{
    if s.len() == 0 {
        0
    } else if s[0] == c {
        0
    } else {
        1 + index_of(s.drop_first(), c)
    }
}

/// `index_of` is the position before which `c` does not occur, and at which
/// it does (or the end).
pub proof fn lemma_index_of(s: Seq<char>, c: char, i: int)
    requires
        0 <= i <= s.len(),
        forall|j: int| 0 <= j < i ==> s[j] != c,
        i == s.len() || s[i] == c,
    ensures
        index_of(s, c) == i,
    decreases s.len(),
{
    if s.len() > 0 && i > 0 {
        assert forall|j: int| 0 <= j < i - 1 implies s.drop_first()[j] != c by {
            assert(s.drop_first()[j] == s[j + 1]);
        }
        lemma_index_of(s.drop_first(), c, i - 1);
    }
}

pub proof fn lemma_index_of_bounds(s: Seq<char>, c: char)
    ensures
        0 <= index_of(s, c) <= s.len(),
        forall|j: int| 0 <= j < index_of(s, c) ==> s[j] != c,
        index_of(s, c) < s.len() ==> s[index_of(s, c)] == c,
    decreases s.len(),
{
    if s.len() > 0 && s[0] != c {
        lemma_index_of_bounds(s.drop_first(), c);
        assert forall|j: int| 0 <= j < index_of(s, c) implies s[j] != c by {
            if j > 0 {
                assert(s[j] == s.drop_first()[j - 1]);
            }
        }
    }
}

/// The first position at or after `start` holding `c`, or the length.
pub fn find_char(v: &Vec<char>, start: usize, c: char) -> (r: usize)
    requires
        start <= v@.len(),
    ensures
        r == start + index_of(v@.subrange(start as int, v@.len() as int), c),
        start <= r <= v@.len(),
{
    let ghost rest = v@.subrange(start as int, v@.len() as int);
    let mut i: usize = start;
    while i < v.len() && v[i] != c
        invariant
            start <= i <= v@.len(),
            rest == v@.subrange(start as int, v@.len() as int),
            forall|j: int| 0 <= j < i - start ==> rest[j] != c,
        decreases v@.len() - i,
    {
        i = i + 1;
    }
    proof {
        lemma_index_of(rest, c, i - start);
    }
    i
}

/// Appends one character. `String::push` from std, which vstd does not
/// specify; the contract claims the character is added at the end.
#[verifier::external_body]
pub(crate) fn push_char(s: &mut String, c: char)
    ensures
        final(s)@ == old(s)@.push(c),
{
    s.push(c);
}

/// Whether every character is ASCII.
pub open spec fn all_ascii(s: Seq<char>) -> bool {
    forall|i: int| 0 <= i < s.len() ==> (#[trigger] s[i] as u32) < 128
}

/// An ASCII letter in lower case; any other character as it is.
pub open spec fn ascii_lower(c: char) -> char {
    if 'A' <= c && c <= 'Z' { ((c as u32) + 32) as char } else { c }
}

/// An ASCII letter in upper case; any other character as it is.
pub open spec fn ascii_upper(c: char) -> char {
    if 'a' <= c && c <= 'z' { ((c as u32) - 32) as char } else { c }
}

/// The lower-case form of a string, as `str::to_lowercase` gives it.
pub uninterp spec fn lowercase(s: Seq<char>) -> Seq<char>;

/// `str::to_lowercase` from std, which vstd does not specify. The
/// result depends on the characters of `s` alone, and is named `lowercase`;
/// on ASCII text it is Unicode's lower-case mapping of ASCII, which takes
/// `A` to `Z` to `a` to `z` and leaves every other ASCII character alone.
#[verifier::external_body]
pub(crate) fn to_lower(s: &str) -> (r: String)
    ensures
        r@ == lowercase(s@),
        all_ascii(s@) ==> r@ == s@.map_values(|c: char| ascii_lower(c)),
{
    s.to_lowercase()
}

/// The upper-case form of a string, as `str::to_uppercase` gives it.
pub uninterp spec fn uppercase(s: Seq<char>) -> Seq<char>;

/// `str::to_uppercase` from std, which vstd does not specify. The
/// result depends on the characters of `s` alone, and is named `uppercase`;
/// on ASCII text it is Unicode's upper-case mapping of ASCII, which takes
/// `a` to `z` to `A` to `Z` and leaves every other ASCII character alone.
#[verifier::external_body]
pub(crate) fn to_upper(s: &str) -> (r: String)
    ensures
        r@ == uppercase(s@),
        all_ascii(s@) ==> r@ == s@.map_values(|c: char| ascii_upper(c)),
{
    s.to_uppercase()
}

/// Unicode's `White_Space` characters, which `char::is_whitespace` tests for.
pub open spec fn is_space(c: char) -> bool {
    ||| ('\u{9}' <= c && c <= '\u{d}')
    ||| c == ' '
    ||| c == '\u{85}'
    ||| c == '\u{a0}'
    ||| c == '\u{1680}'
    ||| ('\u{2000}' <= c && c <= '\u{200a}')
    ||| c == '\u{2028}'
    ||| c == '\u{2029}'
    ||| c == '\u{202f}'
    ||| c == '\u{205f}'
    ||| c == '\u{3000}'
}

pub fn is_space_char(c: char) -> (r: bool)
    ensures
        r == is_space(c),
{
    ('\u{9}' <= c && c <= '\u{d}') || c == ' ' || c == '\u{85}' || c == '\u{a0}' || c == '\u{1680}'
        || ('\u{2000}' <= c && c <= '\u{200a}') || c == '\u{2028}' || c == '\u{2029}'
        || c == '\u{202f}' || c == '\u{205f}' || c == '\u{3000}'
}

/// Where the first character that is not white space is (or the length).
pub open spec fn lead_spaces(s: Seq<char>) -> int
    decreases s.len(),
{
    if s.len() > 0 && is_space(s[0]) { 1 + lead_spaces(s.skip(1)) } else { 0 }
}

/// How long `s` is without the white space at its end.
pub open spec fn kept_len(s: Seq<char>) -> int
    decreases s.len(),
{
    if s.len() > 0 && is_space(s.last()) { kept_len(s.drop_last()) } else { s.len() as int }
}

/// `s` without white space at its start.
pub open spec fn trim_start(s: Seq<char>) -> Seq<char> {
    s.skip(lead_spaces(s))
}

/// `s` without white space at either end.
pub open spec fn trimmed(s: Seq<char>) -> Seq<char> {
    let t = trim_start(s);
    t.take(kept_len(t))
}

pub proof fn lemma_lead_spaces(s: Seq<char>)
    ensures
        0 <= lead_spaces(s) <= s.len(),
    decreases s.len(),
{
    if s.len() > 0 && is_space(s[0]) {
        lemma_lead_spaces(s.skip(1));
    }
}

pub proof fn lemma_kept_len(s: Seq<char>)
    ensures
        0 <= kept_len(s) <= s.len(),
    decreases s.len(),
{
    if s.len() > 0 && is_space(s.last()) {
        lemma_kept_len(s.drop_last());
    }
}

/// The characters of `s` without white space at either end.
pub fn trim_chars(s: &Vec<char>) -> (r: Vec<char>)
    ensures
        r@ == trimmed(s@),
{
    let mut start: usize = 0;
    assert(s@.skip(0) =~= s@);
    while start < s.len() && is_space_char(s[start])
        invariant
            start <= s@.len(),
            start + lead_spaces(s@.skip(start as int)) == lead_spaces(s@),
        decreases s@.len() - start,
    {
        assert(s@.skip(start as int).skip(1) =~= s@.skip(start + 1));
        start = start + 1;
    }
    let ghost t = s@.skip(start as int);
    assert(t == trim_start(s@));
    let mut end: usize = s.len();
    assert(t.take(t.len() as int) =~= t);
    while end > start && is_space_char(s[end - 1])
        invariant
            start <= end <= s@.len(),
            t == s@.skip(start as int),
            kept_len(t.take(end - start)) == kept_len(t),
        decreases end,
    {
        assert(t.take(end - start - 1) =~= t.take(end - start).drop_last());
        end = end - 1;
    }
    assert(kept_len(t.take(end - start)) == end - start);
    let mut out: Vec<char> = Vec::new();
    let mut i: usize = start;
    while i < end
        invariant
            start <= i <= end <= s@.len(),
            out@ == s@.subrange(start as int, i as int),
        decreases end - i,
    {
        out.push(s[i]);
        assert(s@.subrange(start as int, i + 1) =~= s@.subrange(start as int, i as int).push(s@[i as int]));
        i = i + 1;
    }
    assert(out@ =~= t.take(end - start));
    out
}

/// Whether `char::is_alphanumeric` holds of a character.
pub uninterp spec fn alphanumeric(c: char) -> bool;

/// `char::is_alphanumeric` from std, which vstd does not specify: whether
/// a character is a letter or a number in Unicode's sense. The
/// answer depends on the character alone, and is named `alphanumeric`;
/// among ASCII characters, the letters and the digits are the ones.
#[verifier::external_body]
pub(crate) fn is_alnum(c: char) -> (r: bool)
    ensures
        r == alphanumeric(c),
        (c as u32) < 128 ==> (r <==> ('a' <= c <= 'z' || 'A' <= c <= 'Z' || '0' <= c <= '9')),
{
    c.is_alphanumeric()
}

/// Whether `char::is_alphabetic` holds of a character.
pub uninterp spec fn alphabetic(c: char) -> bool;

/// `char::is_alphabetic` from std, which vstd does not specify: whether a
/// character is a letter in Unicode's sense. The answer depends on
/// the character alone, and is named `alphabetic`; among ASCII
/// characters, the letters are the ones.
#[verifier::external_body]
pub(crate) fn is_alpha(c: char) -> (r: bool)
    ensures
        r == alphabetic(c),
        (c as u32) < 128 ==> (r <==> ('a' <= c <= 'z' || 'A' <= c <= 'Z')),
{
    c.is_alphabetic()
}

/// Whether `char::is_uppercase` holds of a character.
pub uninterp spec fn capital(c: char) -> bool;

/// `char::is_uppercase` from std, which vstd does not specify: whether a
/// character is an upper-case letter in Unicode's sense. The answer
/// depends on the character alone, and is named `capital`; among ASCII
/// characters, `A` to `Z` are the ones.
#[verifier::external_body]
pub(crate) fn is_capital(c: char) -> (r: bool)
    ensures
        r == capital(c),
        (c as u32) < 128 ==> (r <==> 'A' <= c <= 'Z'),
{
    c.is_uppercase()
}

/// The characters `char::to_lowercase` gives for a character.
pub uninterp spec fn char_lowercase(c: char) -> Seq<char>;

/// `char::to_lowercase` from std, which vstd does not specify: the
/// lower-case form of one character, which may be several characters.
/// The result depends on the character alone, and is named
/// `char_lowercase`; an ASCII character gives itself, in lower case if
/// it is a letter.
#[verifier::external_body]
pub(crate) fn lower_char(c: char) -> (r: Vec<char>)
    ensures
        r@ == char_lowercase(c),
        (c as u32) < 128 ==> r@ == seq![ascii_lower(c)],
{
    c.to_lowercase().collect()
}

/// Whether two runs of characters are the same.
pub fn same_chars(a: &Vec<char>, b: &Vec<char>) -> (r: bool)
    ensures
        r == (a@ == b@),
{
    if a.len() != b.len() {
        return false;
    }
    let mut i: usize = 0;
    while i < a.len()
        invariant
            i <= a@.len(),
            a@.len() == b@.len(),
            forall|k: int| 0 <= k < i ==> a@[k] == b@[k],
        decreases a@.len() - i,
    {
        if a[i] != b[i] {
            return false;
        }
        i = i + 1;
    }
    assert(a@ =~= b@);
    true
}

/// A string of the given characters.
pub fn string_of(v: &Vec<char>) -> (r: String)
    ensures
        r@ == v@,
{
    let mut r = String::new();
    let mut i: usize = 0;
    while i < v.len()
        invariant
            i <= v@.len(),
            r@ == v@.take(i as int),
        decreases v@.len() - i,
    {
        push_char(&mut r, v[i]);
        assert(v@.take(i + 1) =~= v@.take(i as int).push(v@[i as int]));
        i = i + 1;
    }
    assert(v@.take(v@.len() as int) =~= v@);
    r
}

/// Appends the characters of `s` to `out`.
pub fn extend_chars(out: &mut Vec<char>, s: &str)
    ensures
        final(out)@ == old(out)@ + s@,
{
    let chars = chars_of(s);
    let mut i: usize = 0;
    while i < chars.len()
        invariant
            i <= chars@.len(),
            chars@ == s@,
            out@ == old(out)@ + chars@.take(i as int),
        decreases chars@.len() - i,
    {
        out.push(chars[i]);
        assert(chars@.take(i + 1) =~= chars@.take(i as int).push(chars@[i as int]));
        i = i + 1;
    }
    assert(chars@.take(chars@.len() as int) =~= chars@);
}

/// The pieces of `s` between the occurrences of `c`.
pub open spec fn split_on(s: Seq<char>, c: char) -> Seq<Seq<char>>
    decreases s.len(),
{
    if index_of(s, c) >= s.len() {
        seq![s]
    } else {
        proof {
            lemma_index_of_bounds(s, c);
        }
        seq![s.take(index_of(s, c))] + split_on(s.skip(index_of(s, c) + 1), c)
    }
}

pub proof fn lemma_split_on_nonempty(s: Seq<char>, c: char)
    ensures
        split_on(s, c).len() >= 1,
    decreases s.len(),
{
}

/// The pieces of `v` between the occurrences of `c`.
pub fn split_chars(v: &Vec<char>, c: char) -> (r: Vec<Vec<char>>)
    ensures
        r.deep_view() == split_on(v@, c),
{
    let mut out: Vec<Vec<char>> = Vec::new();
    let mut start: usize = 0;
    let mut piece: Vec<char> = Vec::new();
    let mut i: usize = 0;
    assert(v@.skip(0) =~= v@);
    assert(out.deep_view() =~= Seq::<Seq<char>>::empty());
    while i < v.len()
        invariant
            start <= i <= v@.len(),
            piece@ == v@.subrange(start as int, i as int),
            forall|j: int| start <= j < i ==> v@[j] != c,
            out.deep_view() + split_on(v@.skip(start as int), c) == split_on(v@, c),
        decreases v@.len() - i,
    {
        if v[i] == c {
            proof {
                let rest = v@.skip(start as int);
                lemma_index_of(rest, c, i - start);
                assert(rest.take(i - start) =~= piece@);
                assert(rest.skip(i - start + 1) =~= v@.skip(i + 1));
                assert(piece.deep_view() =~= piece@);
                assert(out.deep_view().push(piece@) + split_on(v@.skip(i + 1), c)
                    =~= out.deep_view() + split_on(rest, c));
            }
            let ghost prev = out.deep_view();
            out.push(piece);
            assert(out.deep_view() =~= prev.push(v@.subrange(start as int, i as int)));
            piece = Vec::new();
            start = i + 1;
            assert(piece@ =~= v@.subrange(start as int, start as int));
        } else {
            piece.push(v[i]);
            assert(piece@ =~= v@.subrange(start as int, i + 1));
        }
        i = i + 1;
    }
    proof {
        let rest = v@.skip(start as int);
        lemma_index_of(rest, c, rest.len() as int);
        assert(rest =~= piece@);
        assert(piece.deep_view() =~= piece@);
    }
    let ghost prev = out.deep_view();
    out.push(piece);
    assert(out.deep_view() =~= prev.push(v@.skip(start as int)));
    out
}

/// Whether two strings hold the same characters.
pub fn str_eq(a: &str, b: &str) -> (r: bool)
    ensures
        r == (a@ == b@),
{
    let x = chars_of(a);
    let y = chars_of(b);
    if x.len() != y.len() {
        return false;
    }
    let mut i: usize = 0;
    while i < x.len()
        invariant
            i <= x@.len(),
            x@.len() == y@.len(),
            x@ == a@,
            y@ == b@,
            forall|k: int| 0 <= k < i ==> x@[k] == y@[k],
        decreases x@.len() - i,
    {
        if x[i] != y[i] {
            return false;
        }
        i = i + 1;
    }
    assert(x@ =~= y@);
    true
}

/// The parts, with `sep` between each two.
pub open spec fn joined(parts: Seq<Seq<char>>, sep: char) -> Seq<char>
    decreases parts.len(),
{
    if parts.len() == 0 {
        Seq::empty()
    } else if parts.len() == 1 {
        parts[0]
    } else {
        joined(parts.drop_last(), sep) + seq![sep] + parts.last()
    }
}

/// Appends the parts to `out`, with `sep` between each two.
pub fn push_joined(out: &mut Vec<char>, parts: &Vec<Vec<char>>, sep: char)
    ensures
        final(out)@ == old(out)@ + joined(parts.deep_view(), sep),
{
    let ghost start = out@;
    let mut i: usize = 0;
    while i < parts.len()
        invariant
            i <= parts@.len(),
            out@ == start + joined(parts.deep_view().take(i as int), sep),
        decreases parts@.len() - i,
    {
        let ghost before = out@;
        if i > 0 {
            out.push(sep);
        }
        let part = &parts[i];
        let mut k: usize = 0;
        while k < part.len()
            invariant
                k <= part@.len(),
                out@ == before + (if i > 0 { seq![sep] } else { Seq::empty() }) + part@.take(k as int),
            decreases part@.len() - k,
        {
            out.push(part[k]);
            assert(part@.take(k + 1) =~= part@.take(k as int).push(part@[k as int]));
            k = k + 1;
        }
        proof {
            let dv = parts.deep_view();
            assert(part@.take(part@.len() as int) =~= part@);
            assert(dv.take(i + 1).drop_last() =~= dv.take(i as int));
            assert(dv.take(i + 1).last() == part@);
            if i == 0 {
                assert(dv.take(1) =~= seq![part@]);
            }
        }
        i = i + 1;
    }
    assert(parts.deep_view().take(parts@.len() as int) =~= parts.deep_view());
}

} // verus!
