//! Fuzzy matching for finding accounts and descriptions from a few letters.

use vstd::prelude::*;
use crate::text::utf8::{char_len_utf8, bytes_of, lemma_bytes_of_nonneg};
use crate::text::chars::{
    chars_of, string_of, is_space, is_space_char, lowercase, to_lower, alphanumeric, is_alnum,
};

verus! {

/// How well a query matched, higher being better.
pub type Score = i64;

/// A whole word or segment matched from its start, e.g. `groc` in
/// `Expenses:Food:Groceries`
pub const SEGMENT: i64 = 800;
/// The query appeared somewhere, e.g. `ocer` in `Groceries`
pub const SUBSTRING: i64 = 600;
/// The query's letters are the initials of segments, e.g. `efg`
pub const INITIALS: i64 = 500;

/// The words of `s` after its first `k` characters: the finished words and
/// the one being read.
pub open spec fn words_state(s: Seq<char>, k: int) -> (Seq<Seq<char>>, Seq<char>)
    decreases k,
{
    if k <= 0 {
        (Seq::empty(), Seq::empty())
    } else {
        let prev = words_state(s, k - 1);
        let c = s[k - 1];
        if is_space(c) {
            if prev.1.len() > 0 { (prev.0.push(prev.1), Seq::empty()) } else { prev }
        } else {
            (prev.0, prev.1.push(c))
        }
    }
}

/// The words of `s`, separated by white space.
pub open spec fn words_of(s: Seq<char>) -> Seq<Seq<char>> {
    let st = words_state(s, s.len() as int);
    if st.1.len() > 0 { st.0.push(st.1) } else { st.0 }
}

/// The words of a query, each in lower case.
pub open spec fn query_terms(query: Seq<char>) -> Seq<Seq<char>> {
    words_of(query).map_values(|w: Seq<char>| lowercase(w))
}

/// Whether `t` occurs in `c` at `j`.
pub open spec fn matches_at(c: Seq<char>, t: Seq<char>, j: int) -> bool {
    0 <= j && j + t.len() <= c.len() && c.subrange(j, j + t.len()) == t
}

/// The first place at or after `pos` where `t` occurs in `c`.
pub open spec fn find_from(c: Seq<char>, t: Seq<char>, pos: int) -> Option<int>
    decreases c.len() - pos,
{
    if pos < 0 || pos >= c.len() || pos + t.len() > c.len() {
        None
    } else if matches_at(c, t, pos) {
        Some(pos)
    } else {
        find_from(c, t, pos + 1)
    }
}

pub proof fn lemma_find_from(c: Seq<char>, t: Seq<char>, pos: int)
    requires
        t.len() > 0,
        pos >= 0,
    ensures
        find_from(c, t, pos) matches Some(j) ==> pos <= j && matches_at(c, t, j)
            && forall|k: int| pos <= k < j ==> !matches_at(c, t, k),
        find_from(c, t, pos) is None ==> forall|k: int| pos <= k ==> !matches_at(c, t, k),
    decreases c.len() - pos,
{
    if !(pos < 0 || pos >= c.len() || pos + t.len() > c.len()) && !matches_at(c, t, pos) {
        lemma_find_from(c, t, pos + 1);
    }
}

/// The places where `t` occurs in `c` from `pos` on, left to right and
/// without overlapping.
pub open spec fn occurrences(c: Seq<char>, t: Seq<char>, pos: int) -> Seq<int>
    decreases c.len() - pos,
{
    if t.len() == 0 || pos < 0 {
        Seq::empty()
    } else {
        match find_from(c, t, pos) {
            None => Seq::empty(),
            Some(j) => {
                proof { lemma_find_from(c, t, pos); }
                seq![j] + occurrences(c, t, j + t.len())
            },
        }
    }
}

/// The byte offset of character `j`, up to 50.
pub open spec fn capped_offset(c: Seq<char>, j: int) -> int {
    if bytes_of(c.take(j)) < 50 { bytes_of(c.take(j)) } else { 50 }
}

/// Whether a segment could start at `j`: at the start, or after a
/// character that is not a letter or number.
pub open spec fn at_boundary(c: Seq<char>, j: int) -> bool {
    j == 0 || !alphanumeric(c[j - 1])
}

/// The score of an occurrence at `j`: best at the very start, then at the
/// start of a segment, later ones winning ties; within a segment, earlier
/// is better.
pub open spec fn occurrence_score(c: Seq<char>, j: int) -> int {
    if j == 0 {
        900
    } else if at_boundary(c, j) {
        800 + capped_offset(c, j)
    } else {
        600 - capped_offset(c, j)
    }
}

/// The best score among the first `k` occurrences.
pub open spec fn best_occurrence(c: Seq<char>, occ: Seq<int>, k: int) -> int
    decreases k,
{
    if k <= 0 {
        0
    } else if k == 1 {
        occurrence_score(c, occ[0])
    } else {
        let prev = best_occurrence(c, occ, k - 1);
        let s = occurrence_score(c, occ[k - 1]);
        if s > prev { s } else { prev }
    }
}

/// The letters and numbers of `c` that start a segment, among the first `k`.
pub open spec fn initials_of(c: Seq<char>, k: int) -> Seq<char>
    decreases k,
{
    if k <= 0 {
        Seq::empty()
    } else {
        let prev = initials_of(c, k - 1);
        if at_boundary(c, k - 1) && alphanumeric(c[k - 1]) { prev.push(c[k - 1]) } else { prev }
    }
}

/// Whether `t` occurs anywhere in `s`.
pub open spec fn contains_text(s: Seq<char>, t: Seq<char>) -> bool {
    exists|j: int| #[trigger] matches_at(s, t, j)
}

/// The first place at or after `pos` holding `x`.
pub open spec fn find_char_from(c: Seq<char>, x: char, pos: int) -> Option<int>
    decreases c.len() - pos,
{
    if pos < 0 || pos >= c.len() {
        None
    } else if c[pos] == x {
        Some(pos)
    } else {
        find_char_from(c, x, pos + 1)
    }
}

pub proof fn lemma_find_char_from(c: Seq<char>, x: char, pos: int)
    ensures
        find_char_from(c, x, pos) matches Some(j) ==> 0 <= pos <= j < c.len() && c[j] == x,
    decreases c.len() - pos,
{
    if !(pos < 0 || pos >= c.len()) && c[pos] != x {
        lemma_find_char_from(c, x, pos + 1);
    }
}

/// Matching the first `k` characters of `t` in order within `c`: the score
/// so far, where the next search starts, and where the last was found.
pub open spec fn subsequence_state(c: Seq<char>, t: Seq<char>, k: int) -> Option<(int, int, int)>
    decreases k,
{
    if k <= 0 {
        Some((0, 0, -1))
    } else {
        match subsequence_state(c, t, k - 1) {
            None => None,
            Some((score, position, previous)) => match find_char_from(c, t[k - 1], position) {
                None => None,
                Some(found) => {
                    let run = if previous >= 0 && previous == found - 1 { 15int } else { 0 };
                    let start = if found == 0 || !alphanumeric(c[found - 1]) { 20int } else { 0 };
                    Some((score + 10 + run + start - (found - position), found + 1, found))
                },
            },
        }
    }
}

pub open spec fn clamp(v: int, lo: int, hi: int) -> int {
    if v < lo { lo } else if v > hi { hi } else { v }
}

/// How well one lower-case term matches a lower-case candidate, if at all.
pub open spec fn term_score(t: Seq<char>, c: Seq<char>) -> Option<int> {
    let occ = occurrences(c, t, 0);
    if c == t {
        Some(1000)
    } else if occ.len() > 0 {
        Some(best_occurrence(c, occ, occ.len() as int))
    } else if contains_text(initials_of(c, c.len() as int), t) && t.len() > 1 {
        Some(500)
    } else {
        match subsequence_state(c, t, t.len() as int) {
            None => None,
            Some((score, _, _)) => Some(clamp(score, 1, 500)),
        }
    }
}

/// The sum of the first `k` terms' scores, if each matched.
pub open spec fn total_score(terms: Seq<Seq<char>>, c: Seq<char>, k: int) -> Option<int>
    decreases k,
{
    if k <= 0 {
        Some(0)
    } else {
        match (total_score(terms, c, k - 1), term_score(terms[k - 1], c)) {
            (Some(a), Some(b)) => Some(a + b),
            _ => None,
        }
    }
}

/// The score of a query against a candidate, ignoring case: the average of
/// its words' scores, where every word matched.
pub open spec fn query_score(query: Seq<char>, candidate: Seq<char>) -> Option<int> {
    terms_score(query_terms(query), lowercase(candidate))
}

/// The score of lower-case terms against a lower-case candidate: the
/// average of the terms' scores, where every term matched.
pub open spec fn terms_score(terms: Seq<Seq<char>>, c: Seq<char>) -> Option<int> {
    if terms.len() == 0 {
        Some(0)
    } else {
        match total_score(terms, c, terms.len() as int) {
            Some(total) => Some(total / terms.len() as int),
            None => None,
        }
    }
}

fn split_words(s: &Vec<char>) -> (r: Vec<Vec<char>>)
    ensures
        r.deep_view() == words_of(s@),
{
    let mut done: Vec<Vec<char>> = Vec::new();
    let mut cur: Vec<char> = Vec::new();
    let mut k: usize = 0;
    assert(done.deep_view() =~= Seq::<Seq<char>>::empty());
    while k < s.len()
        invariant
            k <= s@.len(),
            (done.deep_view(), cur@) == words_state(s@, k as int),
        decreases s@.len() - k,
    {
        let c = s[k];
        if is_space_char(c) {
            if cur.len() > 0 {
                let ghost prev = done.deep_view();
                let w = cur;
                assert(w.deep_view() =~= w@);
                done.push(w);
                assert(done.deep_view() =~= prev.push(w@));
                cur = Vec::new();
            }
        } else {
            cur.push(c);
        }
        k = k + 1;
    }
    if cur.len() > 0 {
        let ghost prev = done.deep_view();
        assert(cur.deep_view() =~= cur@);
        let w = cur;
        done.push(w);
        assert(done.deep_view() =~= prev.push(w@));
    }
    done
}

fn find_text_from(c: &Vec<char>, t: &Vec<char>, pos: usize) -> (r: Option<usize>)
    requires
        t@.len() > 0,
    ensures
        match r {
            Some(j) => find_from(c@, t@, pos as int) == Some(j as int),
            None => find_from(c@, t@, pos as int) is None,
        },
{
    let mut p: usize = pos;
    while p < c.len() && t.len() <= c.len() - p
        invariant
            pos <= p,
            t@.len() > 0,
            find_from(c@, t@, pos as int) == find_from(c@, t@, p as int),
        decreases c@.len() - p,
    {
        let mut k: usize = 0;
        let n = c.len();
        assert(c@.subrange(p as int, p as int) =~= t@.take(0));
        while k < t.len() && c[p + k] == t[k]
            invariant
                k <= t@.len(),
                n == c@.len(),
                p + t@.len() <= c@.len(),
                c@.subrange(p as int, p + k) == t@.take(k as int),
            decreases t@.len() - k,
        {
            assert(c@.subrange(p as int, p + k + 1) =~= c@.subrange(p as int, p + k).push(c@[p + k]));
            assert(t@.take(k + 1) =~= t@.take(k as int).push(t@[k as int]));
            k = k + 1;
        }
        let same = k == t.len();
        if !same {
            assert(c@.subrange(p as int, p + t@.len()) != t@) by {
                assert(c@.subrange(p as int, p + t@.len())[k as int] == c@[p + k]);
            }
        }
        assert(t@.take(t@.len() as int) =~= t@);
        if same {
            return Some(p);
        }
        p = p + 1;
    }
    None
}

fn capped_bytes(c: &Vec<char>, j: usize) -> (r: usize)
    requires
        j <= c@.len(),
    ensures
        r == capped_offset(c@, j as int),
{
    let mut acc: usize = 0;
    let mut k: usize = 0;
    while k < j
        invariant
            k <= j <= c@.len(),
            acc as int == capped_offset(c@, k as int),
        decreases j - k,
    {
        assert(c@.take(k + 1).drop_last() =~= c@.take(k as int));
        proof { lemma_bytes_of_nonneg(c@.take(k as int)); }
        let b = char_len_utf8(c[k]);
        if acc < 50 {
            acc = if acc + b < 50 { acc + b } else { 50 };
        }
        k = k + 1;
    }
    acc
}

fn initials_vec(c: &Vec<char>) -> (r: Vec<char>)
    ensures
        r@ == initials_of(c@, c@.len() as int),
{
    let mut out: Vec<char> = Vec::new();
    let mut k: usize = 0;
    while k < c.len()
        invariant
            k <= c@.len(),
            out@ == initials_of(c@, k as int),
        decreases c@.len() - k,
    {
        let boundary = k == 0 || !is_alnum(c[k - 1]);
        if boundary && is_alnum(c[k]) {
            out.push(c[k]);
        }
        k = k + 1;
    }
    out
}

fn find_char_at(c: &Vec<char>, x: char, pos: usize) -> (r: Option<usize>)
    ensures
        match r {
            Some(j) => find_char_from(c@, x, pos as int) == Some(j as int),
            None => find_char_from(c@, x, pos as int) is None,
        },
{
    let mut p = pos;
    while p < c.len()
        invariant
            pos <= p,
            find_char_from(c@, x, pos as int) == find_char_from(c@, x, p as int),
        decreases c@.len() - p,
    {
        if c[p] == x {
            return Some(p);
        }
        p = p + 1;
    }
    None
}

proof fn lemma_subsequence_stays_none(c: Seq<char>, t: Seq<char>, k: int, n: int)
    requires
        0 <= k <= n,
        subsequence_state(c, t, k) is None,
    ensures
        subsequence_state(c, t, n) is None,
    decreases n - k,
{
    if k < n {
        lemma_subsequence_stays_none(c, t, k, n - 1);
    }
}

proof fn lemma_best_prefix(c: Seq<char>, a: Seq<int>, b: Seq<int>, k: int)
    requires
        0 <= k <= a.len(),
        k <= b.len(),
        a.take(k) == b.take(k),
    ensures
        best_occurrence(c, a, k) == best_occurrence(c, b, k),
    decreases k,
{
    if k > 0 {
        assert(a.take(k - 1) =~= a.take(k).take(k - 1));
        assert(b.take(k - 1) =~= b.take(k).take(k - 1));
        assert(a[k - 1] == a.take(k)[k - 1]);
        assert(b[k - 1] == b.take(k)[k - 1]);
        lemma_best_prefix(c, a, b, k - 1);
    }
}

fn subsequence_score(c: &Vec<char>, t: &Vec<char>) -> (r: Option<i64>)
    ensures
        match r {
            Some(v) => subsequence_state(c@, t@, t@.len() as int) matches Some((score, _, _))
                && v as int == clamp(score, 1, 500),
            None => subsequence_state(c@, t@, t@.len() as int) is None,
        },
{
    let n = c.len();
    let mut score: i128 = 0;
    let mut position: usize = 0;
    let mut previous: Option<usize> = None;
    let mut k: usize = 0;
    while k < t.len()
        invariant
            k <= t@.len(),
            n == c@.len(),
            position <= c@.len(),
            -(c@.len() as int) <= score <= 45 * k,
            subsequence_state(c@, t@, k as int) == Some((score as int, position as int,
                match previous { Some(p) => p as int, None => -1int })),
            previous matches Some(p) ==> p < c@.len(),
            score >= -(position as int),
        decreases t@.len() - k,
    {
        proof { lemma_find_char_from(c@, t@[k as int], position as int); }
        let found = match find_char_at(c, t[k], position) {
            Some(f) => f,
            None => {
                proof { lemma_subsequence_stays_none(c@, t@, k + 1, t@.len() as int); }
                return None;
            },
        };
        assert(found < c@.len());
        score = score + 10;
        let run = match previous {
            Some(p) => found > 0 && p == found - 1,
            None => false,
        };
        if run {
            score = score + 15;
        }
        if found == 0 || !is_alnum(c[found - 1]) {
            score = score + 20;
        }
        score = score - (found - position) as i128;
        previous = Some(found);
        position = found + 1;
        k = k + 1;
    }
    let v: i64 = if score < 1 { 1 } else if score > 500 { 500 } else { score as i64 };
    Some(v)
}

/// How well one lower-case term matches a lower-case candidate.
fn term_score_of(t: &Vec<char>, c: &Vec<char>) -> (r: Option<i64>)
    ensures
        match r {
            Some(v) => term_score(t@, c@) == Some(v as int) && 1 <= v <= 1000,
            None => term_score(t@, c@) is None,
        },
{
    if c.len() == t.len() {
        let mut same = true;
        let mut k: usize = 0;
        while k < c.len()
            invariant
                k <= c@.len() == t@.len(),
                same == forall|i: int| 0 <= i < k ==> c@[i] == t@[i],
            decreases c@.len() - k,
        {
            if c[k] != t[k] {
                same = false;
            }
            k = k + 1;
        }
        if same {
            assert(c@ =~= t@);
            return Some(1000);
        }
    }
    assert(c@ != t@);
    if t.len() > 0 {
        let ghost all = occurrences(c@, t@, 0);
        let ghost mut seen: Seq<int> = Seq::empty();
        let mut best: i64 = 0;
        let mut any = false;
        let mut pos: usize = 0;
        loop
            invariant
                t@.len() > 0,
                pos <= c@.len() + t@.len(),
                all == occurrences(c@, t@, 0),
                all == seen + occurrences(c@, t@, pos as int),
                any == (seen.len() > 0),
                any ==> best as int == best_occurrence(c@, seen, seen.len() as int),
                any ==> 550 <= best <= 900,
            ensures
                all == seen,
                any == (seen.len() > 0),
                any ==> best as int == best_occurrence(c@, seen, seen.len() as int),
                any ==> 550 <= best <= 900,
            decreases c@.len() + t@.len() - pos,
        {
            let found = if pos <= c.len() { find_text_from(c, t, pos) } else { None };
            proof { lemma_find_from(c@, t@, pos as int); }
            match found {
                None => {
                    assert(occurrences(c@, t@, pos as int) =~= Seq::<int>::empty());
                    assert(all =~= seen);
                    break;
                },
                Some(j) => {
                    let boundary = j == 0 || !is_alnum(c[j - 1]);
                    let off = capped_bytes(c, j) as i64;
                    let s: i64 = if j == 0 { 900 } else if boundary { 800 + off } else { 600 - off };
                    proof {
                        assert(occurrences(c@, t@, pos as int) == seq![j as int] + occurrences(c@, t@, j + t@.len()));
                        let nseen = seen.push(j as int);
                        assert(all =~= nseen + occurrences(c@, t@, j + t@.len()));
                        assert(nseen.take(seen.len() as int) =~= seen.take(seen.len() as int));
                        lemma_best_prefix(c@, nseen, seen, seen.len() as int);
                        assert(s as int == occurrence_score(c@, j as int));
                        seen = nseen;
                    }
                    if !any || s > best {
                        best = s;
                    }
                    any = true;
                    pos = j + t.len();
                },
            }
        }
        if any {
            assert(seen == all);
            return Some(best);
        }
        assert(all =~= Seq::<int>::empty());
    } else {
        assert(occurrences(c@, t@, 0) =~= Seq::<int>::empty());
    }
    if t.len() > 1 {
        let initials = initials_vec(c);
        let hit = find_text_from(&initials, t, 0);
        proof { lemma_find_from(initials@, t@, 0); }
        if hit.is_some() {
            return Some(500);
        }
        assert(!contains_text(initials@, t@));
    }
    subsequence_score(c, t)
}

proof fn lemma_total_stays_none(terms: Seq<Seq<char>>, c: Seq<char>, k: int, n: int)
    requires
        0 <= k <= n,
        total_score(terms, c, k) is None,
    ensures
        total_score(terms, c, n) is None,
    decreases n - k,
{
    if k < n {
        lemma_total_stays_none(terms, c, k, n - 1);
    }
}

/// Scores `query` against `candidate`, ignoring case. Each whitespace-
/// separated word of the query must match on its own (so `food coff` finds
/// `Expenses:Food:Coffee`), and the score is their average.
pub fn score(query: &str, candidate: &str) -> (r: Option<Score>)
    ensures
        match r {
            Some(v) => query_score(query@, candidate@) == Some(v as int),
            None => query_score(query@, candidate@) is None,
        },
{
    let lowered = to_lower(candidate);
    let c = chars_of(lowered.as_str());
    let q = chars_of(query);
    let words = split_words(&q);
    let mut terms: Vec<Vec<char>> = Vec::new();
    let mut k: usize = 0;
    while k < words.len()
        invariant
            k <= words@.len(),
            words.deep_view() == words_of(query@),
            terms.deep_view() == query_terms(query@).take(k as int),
        decreases words@.len() - k,
    {
        let ws = string_of(&words[k]);
        let lw = to_lower(ws.as_str());
        let t = chars_of(lw.as_str());
        assert(words.deep_view()[k as int] == words@[k as int]@);
        assert(words.deep_view().len() == words@.len());
        assert(query_terms(query@)[k as int] == t@);
        let ghost before = terms.deep_view();
        let ghost old_terms = terms@;
        terms.push(t);
        assert forall|i: int| 0 <= i < terms@.len() implies #[trigger] terms.deep_view()[i] == before.push(t@)[i] by {
            if i < old_terms.len() {
                assert(terms@[i] == old_terms[i]);
            }
        }
        assert(terms.deep_view() =~= before.push(t@));
        assert(terms.deep_view() =~= query_terms(query@).take(k + 1));
        k = k + 1;
    }
    assert(terms.deep_view() =~= query_terms(query@));
    score_of_terms(&terms, &c)
}

/// Scores lower-case terms against a lower-case candidate, as [`score`]
/// does once it has lowered both.
pub fn score_of_terms(terms: &Vec<Vec<char>>, c: &Vec<char>) -> (r: Option<Score>)
    ensures
        match r {
            Some(v) => terms_score(terms.deep_view(), c@) == Some(v as int),
            None => terms_score(terms.deep_view(), c@) is None,
        },
{
    let ghost tv = terms.deep_view();
    if terms.len() == 0 {
        return Some(0);
    }
    let mut total: i128 = 0;
    let mut k: usize = 0;
    while k < terms.len()
        invariant
            k <= terms@.len(),
            tv == terms.deep_view(),
            tv.len() == terms@.len(),
            total_score(tv, c@, k as int) == Some(total as int),
            0 <= total <= 1000 * k,
        decreases terms@.len() - k,
    {
        let t = &terms[k];
        assert(tv[k as int] == t@);
        match term_score_of(t, c) {
            None => {
                proof { lemma_total_stays_none(tv, c@, k + 1, tv.len() as int); }
                return None;
            },
            Some(v) => {
                total = total + v as i128;
            },
        }
        k = k + 1;
    }
    let avg = (total as u128) / (terms.len() as u128);
    assert(avg as int == total as int / terms@.len() as int);
    assert(avg <= 1000) by (nonlinear_arith)
        requires avg == (total as u128) / (terms.len() as u128), total <= 1000 * terms@.len(), terms@.len() > 0, total >= 0;
    Some(avg as i64)
}

/// The pieces of `c` between characters that are not letters or numbers,
/// after its first `k` characters: finished pieces and the current one.
pub open spec fn segments_state(c: Seq<char>, k: int) -> (Seq<Seq<char>>, Seq<char>)
    decreases k,
{
    if k <= 0 {
        (Seq::empty(), Seq::empty())
    } else {
        let prev = segments_state(c, k - 1);
        if alphanumeric(c[k - 1]) { (prev.0, prev.1.push(c[k - 1])) } else { (prev.0.push(prev.1), Seq::empty()) }
    }
}

/// The pieces of `c` between characters that are not letters or numbers.
pub open spec fn segments_of(c: Seq<char>) -> Seq<Seq<char>> {
    let st = segments_state(c, c.len() as int);
    st.0.push(st.1)
}

/// Whether the characters of `a` occur in order in `b` from `pos` on,
/// each found as early as possible.
pub open spec fn in_order(a: Seq<char>, b: Seq<char>, pos: int) -> bool
    decreases a.len(),
{
    if a.len() == 0 {
        true
    } else {
        match find_char_from(b, a[0], pos) {
            None => false,
            Some(j) => in_order(a.skip(1), b, j + 1),
        }
    }
}

/// `chk` for `checking`: the first letters match, and the rest follow in
/// order.
pub open spec fn abbreviates(term: Seq<char>, segment: Seq<char>) -> bool {
    term.len() > 0 && segment.len() > 0 && term[0] == segment[0] && in_order(term.skip(1), segment, 1)
}

/// Whether a lower-case term matches a lower-case candidate well enough to
/// act on.
pub open spec fn term_confident(t: Seq<char>, c: Seq<char>) -> bool {
    (term_score(t, c) matches Some(s) && s >= 500)
        || exists|i: int| 0 <= i < segments_of(c).len() && abbreviates(t, #[trigger] segments_of(c)[i])
}

/// Whether every word of a query matches a candidate well enough.
pub open spec fn query_confident(query: Seq<char>, candidate: Seq<char>) -> bool {
    let terms = query_terms(query);
    forall|i: int| 0 <= i < terms.len() ==> term_confident(#[trigger] terms[i], lowercase(candidate))
}

fn split_segments(c: &Vec<char>) -> (r: Vec<Vec<char>>)
    ensures
        r.deep_view() == segments_of(c@),
{
    let mut done: Vec<Vec<char>> = Vec::new();
    let mut cur: Vec<char> = Vec::new();
    let mut k: usize = 0;
    assert(done.deep_view() =~= Seq::<Seq<char>>::empty());
    while k < c.len()
        invariant
            k <= c@.len(),
            (done.deep_view(), cur@) == segments_state(c@, k as int),
        decreases c@.len() - k,
    {
        if is_alnum(c[k]) {
            cur.push(c[k]);
        } else {
            let ghost prev = done.deep_view();
            let w = cur;
            assert(w.deep_view() =~= w@);
            done.push(w);
            assert(done.deep_view() =~= prev.push(w@));
            cur = Vec::new();
        }
        k = k + 1;
    }
    let ghost prev = done.deep_view();
    assert(cur.deep_view() =~= cur@);
    let w = cur;
    done.push(w);
    assert(done.deep_view() =~= prev.push(w@));
    done
}

fn is_abbreviation(term: &Vec<char>, segment: &Vec<char>) -> (r: bool)
    ensures
        r == abbreviates(term@, segment@),
{
    if term.len() == 0 || segment.len() == 0 || term[0] != segment[0] {
        return false;
    }
    let mut k: usize = 1;
    let mut pos: usize = 1;
    let n = segment.len();
    while k < term.len()
        invariant
            n == segment@.len(),
            1 <= k <= term@.len(),
            pos <= segment@.len(),
            in_order(term@.skip(1), segment@, 1) == in_order(term@.skip(k as int), segment@, pos as int),
        decreases term@.len() - k,
    {
        proof { lemma_find_char_from(segment@, term@[k as int], pos as int); }
        assert(term@.skip(k as int)[0] == term@[k as int]);
        assert(term@.skip(k as int).skip(1) =~= term@.skip(k + 1));
        match find_char_at(segment, term[k], pos) {
            None => return false,
            Some(j) => {
                assert(j < n);
                pos = j + 1;
            },
        }
        k = k + 1;
    }
    assert(term@.skip(k as int).len() == 0);
    true
}

/// Whether `query` matches `candidate` well enough to act on without
/// asking: every word appears as written or as initials, or as an
/// abbreviation within one segment that starts where the segment does
/// (`chk` for Checking, but not `gas` for OpeningBalances).
pub fn confident(query: &str, candidate: &str) -> (r: bool)
    ensures
        r == query_confident(query@, candidate@),
{
    let lowered = to_lower(candidate);
    let c = chars_of(lowered.as_str());
    let segments = split_segments(&c);
    let q = chars_of(query);
    let words = split_words(&q);
    let ghost terms = query_terms(query@);
    assert(terms.len() == words@.len());
    let mut k: usize = 0;
    while k < words.len()
        invariant
            k <= words@.len(),
            words.deep_view() == words_of(query@),
            terms == query_terms(query@),
            terms.len() == words@.len(),
            c@ == lowercase(candidate@),
            segments.deep_view() == segments_of(c@),
            forall|i: int| 0 <= i < k ==> term_confident(#[trigger] terms[i], c@),
        decreases words@.len() - k,
    {
        let ws = string_of(&words[k]);
        let lw = to_lower(ws.as_str());
        let t = chars_of(lw.as_str());
        assert(words.deep_view()[k as int] == words@[k as int]@);
        assert(terms[k as int] == t@);
        let strong = match term_score_of(&t, &c) {
            Some(v) => v >= 500,
            None => false,
        };
        if !strong {
            let mut found = false;
            let mut i: usize = 0;
            while i < segments.len()
                invariant
                    i <= segments@.len(),
                    segments.deep_view() == segments_of(c@),
                    found == exists|j: int| 0 <= j < i && abbreviates(t@, #[trigger] segments_of(c@)[j]),
                decreases segments@.len() - i,
            {
                assert(segments.deep_view()[i as int] == segments@[i as int]@);
                if is_abbreviation(&t, &segments[i]) {
                    found = true;
                }
                i = i + 1;
            }
            if !found {
                assert(!term_confident(terms[k as int], c@));
                return false;
            }
        }
        k = k + 1;
    }
    true
}

/// Whether `a` comes before `b` in dictionary order of their characters.
pub open spec fn lex_less(a: Seq<char>, b: Seq<char>) -> bool
    decreases a.len(),
{
    if a.len() == 0 {
        b.len() > 0
    } else if b.len() == 0 {
        false
    } else if a[0] != b[0] {
        a[0] < b[0]
    } else {
        lex_less(a.skip(1), b.skip(1))
    }
}

pub proof fn lemma_lex_trans(a: Seq<char>, b: Seq<char>, c: Seq<char>)
    requires
        lex_less(a, b),
        lex_less(b, c),
    ensures
        lex_less(a, c),
    decreases a.len(),
{
    if a.len() > 0 && b.len() > 0 && c.len() > 0 && a[0] == b[0] && b[0] == c[0] {
        lemma_lex_trans(a.skip(1), b.skip(1), c.skip(1));
    }
}

pub proof fn lemma_lex_total(a: Seq<char>, b: Seq<char>)
    ensures
        a == b || lex_less(a, b) || lex_less(b, a),
        !(lex_less(a, b) && lex_less(b, a)),
        !lex_less(a, a),
    decreases a.len(),
{
    if a.len() > 0 && b.len() > 0 && a[0] == b[0] {
        lemma_lex_total(a.skip(1), b.skip(1));
        if a.skip(1) == b.skip(1) {
            assert(a =~= seq![a[0]] + a.skip(1));
            assert(b =~= seq![b[0]] + b.skip(1));
        }
    }
    if a.len() > 0 {
        lemma_lex_total(a.skip(1), a.skip(1));
    }
    if a.len() == 0 && b.len() == 0 {
        assert(a =~= b);
    }
}

/// The name of a candidate.
pub open spec fn name_of(cands: Seq<(&str, Score)>, i: int) -> Seq<char> {
    cands[i].0@
}

/// Whether ranked entry `x` comes before `y`: the higher score first, then
/// by name, then in the order given.
pub open spec fn entry_before(cands: Seq<(&str, Score)>, x: (usize, Score), y: (usize, Score)) -> bool {
    let nx = name_of(cands, x.0 as int);
    let ny = name_of(cands, y.0 as int);
    x.1 > y.1 || (x.1 == y.1 && (lex_less(nx, ny) || (nx == ny && x.0 < y.0)))
}

proof fn lemma_entry_trans(cands: Seq<(&str, Score)>, x: (usize, Score), y: (usize, Score), z: (usize, Score))
    requires
        entry_before(cands, x, y),
        entry_before(cands, y, z),
    ensures
        entry_before(cands, x, z),
{
    let nx = name_of(cands, x.0 as int);
    let ny = name_of(cands, y.0 as int);
    let nz = name_of(cands, z.0 as int);
    if x.1 == y.1 && y.1 == z.1 {
        lemma_lex_total(nx, ny);
        lemma_lex_total(ny, nz);
        if lex_less(nx, ny) && lex_less(ny, nz) {
            lemma_lex_trans(nx, ny, nz);
        }
    }
}

pub(crate) fn lex_less_exec(a: &Vec<char>, b: &Vec<char>) -> (r: bool)
    ensures
        r == lex_less(a@, b@),
{
    let mut i: usize = 0;
    assert(a@.skip(0) =~= a@);
    assert(b@.skip(0) =~= b@);
    while i < a.len() && i < b.len() && a[i] == b[i]
        invariant
            i <= a@.len(),
            i <= b@.len(),
            lex_less(a@, b@) == lex_less(a@.skip(i as int), b@.skip(i as int)),
        decreases a@.len() - i,
    {
        assert(a@.skip(i as int).skip(1) =~= a@.skip(i + 1));
        assert(b@.skip(i as int).skip(1) =~= b@.skip(i + 1));
        i = i + 1;
    }
    if i == a.len() {
        i < b.len()
    } else if i == b.len() {
        false
    } else {
        a[i] < b[i]
    }
}

fn entry_before_exec(cands: &[(&str, Score)], x: (usize, Score), y: (usize, Score)) -> (r: bool)
    requires
        x.0 < cands@.len(),
        y.0 < cands@.len(),
    ensures
        r == entry_before(cands@, x, y),
{
    if x.1 != y.1 {
        return x.1 > y.1;
    }
    let nx = chars_of(cands[x.0].0);
    let ny = chars_of(cands[y.0].0);
    if lex_less_exec(&nx, &ny) {
        return true;
    }
    proof { lemma_lex_total(nx@, ny@); }
    if lex_less_exec(&ny, &nx) {
        return false;
    }
    x.0 < y.0
}

/// Candidates matching `query`, best first: each as its position among the
/// candidates and its score plus its weight, e.g. for how often or
/// recently it has been used.
pub fn rank(query: &str, candidates: &[(&str, Score)]) -> (r: Vec<(usize, Score)>)
    requires
        forall|i: int| 0 <= i < candidates@.len() ==> (query_score(query@, #[trigger] candidates@[i].0@) matches Some(s)
            ==> i64::MIN <= s + candidates@[i].1 <= i64::MAX),
    ensures
        forall|k: int| 0 <= k < r@.len() ==> (#[trigger] r@[k]).0 < candidates@.len()
            && query_score(query@, candidates@[r@[k].0 as int].0@) == Some(r@[k].1 - candidates@[r@[k].0 as int].1),
        forall|i: int| 0 <= i < candidates@.len() && query_score(query@, #[trigger] candidates@[i].0@) is Some
            ==> exists|k: int| 0 <= k < r@.len() && r@[k].0 == i,
        forall|k: int, l: int| 0 <= k < l < r@.len() ==> entry_before(candidates@, r@[k], r@[l]),
{
    let mut out: Vec<(usize, Score)> = Vec::new();
    let mut i: usize = 0;
    while i < candidates.len()
        invariant
            i <= candidates@.len(),
            forall|i: int| 0 <= i < candidates@.len() ==> (query_score(query@, #[trigger] candidates@[i].0@) matches Some(s)
                ==> i64::MIN <= s + candidates@[i].1 <= i64::MAX),
            forall|k: int| 0 <= k < out@.len() ==> (#[trigger] out@[k]).0 < i
                && query_score(query@, candidates@[out@[k].0 as int].0@) == Some(out@[k].1 - candidates@[out@[k].0 as int].1),
            forall|j: int| 0 <= j < i && query_score(query@, #[trigger] candidates@[j].0@) is Some
                ==> exists|k: int| 0 <= k < out@.len() && out@[k].0 == j,
            forall|k: int, l: int| 0 <= k < l < out@.len() ==> entry_before(candidates@, out@[k], out@[l]),
        decreases candidates@.len() - i,
    {
        let (name, weight) = candidates[i];
        match score(query, name) {
            None => {},
            Some(s) => {
                assert(query_score(query@, candidates@[i as int].0@) == Some(s as int));
                let x: (usize, Score) = (i, s + weight);
                let mut p: usize = 0;
                while p < out.len() && !entry_before_exec(candidates, x, out[p])
                    invariant
                        p <= out@.len(),
                        x.0 == i,
                        i < candidates@.len(),
                        forall|k: int| 0 <= k < out@.len() ==> (#[trigger] out@[k]).0 < i,
                        forall|k: int| 0 <= k < p ==> !entry_before(candidates@, x, #[trigger] out@[k]),
                    decreases out@.len() - p,
                {
                    p = p + 1;
                }
                let ghost before = out@;
                proof {
                    assert forall|k: int| 0 <= k < p implies entry_before(candidates@, #[trigger] before[k], x) by {
                        let y = before[k];
                        lemma_lex_total(name_of(candidates@, y.0 as int), name_of(candidates@, x.0 as int));
                    }
                    assert forall|k: int| p <= k < before.len() implies entry_before(candidates@, x, #[trigger] before[k]) by {
                        if k > p {
                            lemma_entry_trans(candidates@, x, before[p as int], before[k]);
                        }
                    }
                }
                out.insert(p, x);
                proof {
                    assert forall|k: int, l: int| 0 <= k < l < out@.len() implies entry_before(candidates@, out@[k], out@[l]) by {
                        if k < p && l == p {
                        } else if k < p && l > p {
                            assert(out@[k] == before[k]);
                            assert(out@[l] == before[l - 1]);
                        } else if k == p {
                            assert(out@[l] == before[l - 1]);
                        } else if k > p {
                            assert(out@[k] == before[k - 1]);
                            assert(out@[l] == before[l - 1]);
                        } else {
                            assert(out@[k] == before[k]);
                            assert(out@[l] == before[l]);
                        }
                    }
                    assert forall|j: int| 0 <= j < i + 1 && query_score(query@, #[trigger] candidates@[j].0@) is Some
                        implies exists|k: int| 0 <= k < out@.len() && out@[k].0 == j by {
                        if j == i {
                            assert(out@[p as int].0 == j);
                        } else {
                            let k0 = choose|k: int| 0 <= k < before.len() && before[k].0 == j;
                            if k0 < p {
                                assert(out@[k0].0 == j);
                            } else {
                                assert(out@[k0 + 1].0 == j);
                            }
                        }
                    }
                    assert forall|k: int| 0 <= k < out@.len() implies (#[trigger] out@[k]).0 < i + 1
                        && query_score(query@, candidates@[out@[k].0 as int].0@) == Some(out@[k].1 - candidates@[out@[k].0 as int].1) by {
                        if k < p {
                            assert(out@[k] == before[k]);
                        } else if k > p {
                            assert(out@[k] == before[k - 1]);
                        }
                    }
                }
            },
        }
        i = i + 1;
    }
    out
}

/// `idx` places the characters of `t` in `c`, in order.
pub open spec fn embeds(t: Seq<char>, c: Seq<char>, idx: Seq<int>) -> bool {
    &&& idx.len() == t.len()
    &&& forall|i: int| 0 <= i < idx.len() ==> 0 <= #[trigger] idx[i] < c.len() && c[idx[i]] == t[i]
    &&& forall|i: int, j: int| 0 <= i < j < idx.len() ==> #[trigger] idx[i] < #[trigger] idx[j]
}

/// The characters of `t` occur in `c` in order, not necessarily together.
pub open spec fn is_subsequence(t: Seq<char>, c: Seq<char>) -> bool {
    exists|idx: Seq<int>| embeds(t, c, idx)
}

/// Where the greedy search puts the first `k` characters of `t`.
proof fn lemma_greedy_embeds(c: Seq<char>, t: Seq<char>, k: int) -> (idx: Seq<int>)
    requires
        0 <= k <= t.len(),
        subsequence_state(c, t, k) is Some,
    ensures
        embeds(t.take(k), c, idx),
        forall|i: int| 0 <= i < idx.len() ==> #[trigger] idx[i] < subsequence_state(c, t, k)->Some_0.1,
        0 <= subsequence_state(c, t, k)->Some_0.1 <= c.len(),
    decreases k,
{
    if k == 0 {
        assert(t.take(0) =~= Seq::<char>::empty());
        Seq::empty()
    } else {
        let prev = lemma_greedy_embeds(c, t, k - 1);
        let st = subsequence_state(c, t, k - 1)->Some_0;
        lemma_find_char_from(c, t[k - 1], st.1);
        let found = find_char_from(c, t[k - 1], st.1)->Some_0;
        let idx = prev.push(found);
        assert(t.take(k) =~= t.take(k - 1).push(t[k - 1]));
        assert forall|i: int| 0 <= i < idx.len() implies 0 <= #[trigger] idx[i] < c.len() && c[idx[i]] == t.take(k)[i] by {
            if i < prev.len() {
                assert(idx[i] == prev[i]);
            }
        }
        assert forall|i: int, j: int| 0 <= i < j < idx.len() implies #[trigger] idx[i] < #[trigger] idx[j] by {
            if j < prev.len() {
                assert(idx[i] == prev[i] && idx[j] == prev[j]);
            } else {
                assert(idx[i] == prev[i]);
            }
        }
        idx
    }
}

proof fn lemma_find_char_reaches(c: Seq<char>, x: char, pos: int, j: int)
    requires
        0 <= pos <= j < c.len(),
        c[j] == x,
    ensures
        find_char_from(c, x, pos) matches Some(f) && f <= j,
    decreases j - pos,
{
    if c[pos] != x {
        lemma_find_char_reaches(c, x, pos + 1, j);
    }
}

/// Where `t` occurs in `c` in order, the greedy search finds it, never
/// further on than any placing.
proof fn lemma_greedy_complete(c: Seq<char>, t: Seq<char>, idx: Seq<int>, k: int)
    requires
        embeds(t, c, idx),
        0 <= k <= t.len(),
    ensures
        subsequence_state(c, t, k) is Some,
        k > 0 ==> subsequence_state(c, t, k)->Some_0.1 <= idx[k - 1] + 1,
        k == 0 ==> subsequence_state(c, t, k)->Some_0.1 == 0,
        0 <= subsequence_state(c, t, k)->Some_0.1,
    decreases k,
{
    if k > 0 {
        lemma_greedy_complete(c, t, idx, k - 1);
        let st = subsequence_state(c, t, k - 1)->Some_0;
        assert(idx[k - 1] < c.len() && c[idx[k - 1]] == t[k - 1]);
        if k > 1 {
            assert(idx[k - 2] < idx[k - 1]);
        }
        lemma_find_char_reaches(c, t[k - 1], st.1, idx[k - 1]);
        lemma_find_char_from(c, t[k - 1], st.1);
    }
}

/// The characters that start segments lie in `c` in order.
proof fn lemma_initials_embed(c: Seq<char>, k: int) -> (idx: Seq<int>)
    requires
        0 <= k <= c.len(),
    ensures
        embeds(initials_of(c, k), c, idx),
        forall|i: int| 0 <= i < idx.len() ==> #[trigger] idx[i] < k,
    decreases k,
{
    if k == 0 {
        Seq::empty()
    } else {
        let prev = lemma_initials_embed(c, k - 1);
        if at_boundary(c, k - 1) && alphanumeric(c[k - 1]) {
            let idx = prev.push(k - 1);
            let ini = initials_of(c, k);
            assert(ini == initials_of(c, k - 1).push(c[k - 1]));
            assert forall|i: int| 0 <= i < idx.len() implies 0 <= #[trigger] idx[i] < c.len() && c[idx[i]] == ini[i] by {
                if i < prev.len() {
                    assert(idx[i] == prev[i]);
                }
            }
            assert forall|i: int, j: int| 0 <= i < j < idx.len() implies #[trigger] idx[i] < #[trigger] idx[j] by {
                if j < prev.len() {
                    assert(idx[i] == prev[i] && idx[j] == prev[j]);
                } else {
                    assert(idx[i] == prev[i]);
                }
            }
            idx
        } else {
            prev
        }
    }
}

/// A run of a text placed in order in `c` is placed in order too.
proof fn lemma_run_embeds(s: Seq<char>, t: Seq<char>, c: Seq<char>, idx: Seq<int>, j: int)
    requires
        embeds(s, c, idx),
        matches_at(s, t, j),
    ensures
        embeds(t, c, idx.subrange(j, j + t.len())),
{
    let sub = idx.subrange(j, j + t.len());
    assert forall|i: int| 0 <= i < sub.len() implies 0 <= #[trigger] sub[i] < c.len() && c[sub[i]] == t[i] by {
        assert(sub[i] == idx[j + i]);
        assert(s.subrange(j, j + t.len())[i] == s[j + i]);
    }
    assert forall|a: int, b: int| 0 <= a < b < sub.len() implies #[trigger] sub[a] < #[trigger] sub[b] by {
        assert(sub[a] == idx[j + a] && sub[b] == idx[j + b]);
    }
}

proof fn lemma_occurrence_range(c: Seq<char>, j: int)
    ensures
        550 <= occurrence_score(c, j) <= 900,
{
    lemma_bytes_of_nonneg(c.take(j));
}

proof fn lemma_best_occurrence_range(c: Seq<char>, occ: Seq<int>, k: int)
    requires
        1 <= k <= occ.len(),
    ensures
        550 <= best_occurrence(c, occ, k) <= 900,
    decreases k,
{
    lemma_occurrence_range(c, occ[k - 1]);
    if k > 1 {
        lemma_best_occurrence_range(c, occ, k - 1);
    }
}

/// How a term scores against a candidate: nothing exactly when its
/// characters do not occur in the candidate in order; 1000 for the whole
/// candidate; 550 to 900 where it occurs in the candidate as a run; and
/// from 1 to 500 otherwise.
pub proof fn lemma_term_score_law(t: Seq<char>, c: Seq<char>)
    requires
        t.len() > 0,
    ensures
        (term_score(t, c) is None) == !is_subsequence(t, c),
        c == t ==> term_score(t, c) == Some(1000int),
        c != t && contains_text(c, t) ==> (term_score(t, c) matches Some(s) && 550 <= s <= 900),
        c != t && !contains_text(c, t) ==> (term_score(t, c) matches Some(s) ==> 1 <= s <= 500),
{
    let occ = occurrences(c, t, 0);
    lemma_find_from(c, t, 0);
    assert(contains_text(c, t) <==> occ.len() > 0) by {
        if contains_text(c, t) {
            let j = choose|j: int| #[trigger] matches_at(c, t, j);
            assert(matches_at(c, t, j));
        }
    }
    if occ.len() > 0 {
        lemma_best_occurrence_range(c, occ, occ.len() as int);
    }
    if subsequence_state(c, t, t.len() as int) is Some {
        let idx = lemma_greedy_embeds(c, t, t.len() as int);
        assert(t.take(t.len() as int) =~= t);
        assert(is_subsequence(t, c));
    }
    if is_subsequence(t, c) {
        let idx = choose|idx: Seq<int>| embeds(t, c, idx);
        lemma_greedy_complete(c, t, idx, t.len() as int);
    } else {
        if c == t {
            let idx = Seq::new(t.len(), |i: int| i);
            assert(embeds(t, c, idx));
        }
        if contains_text(c, t) {
            let j = choose|j: int| #[trigger] matches_at(c, t, j);
            let idx = Seq::new(t.len(), |i: int| j + i);
            assert forall|i: int| 0 <= i < idx.len() implies 0 <= #[trigger] idx[i] < c.len() && c[idx[i]] == t[i] by {
                assert(c.subrange(j, j + t.len())[i] == c[j + i]);
            }
            assert(embeds(t, c, idx));
        }
        if contains_text(initials_of(c, c.len() as int), t) {
            let ini = initials_of(c, c.len() as int);
            let all = lemma_initials_embed(c, c.len() as int);
            let j = choose|j: int| #[trigger] matches_at(ini, t, j);
            lemma_run_embeds(ini, t, c, all, j);
        }
    }
}

} // verus!
