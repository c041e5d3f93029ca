//! What a confident match promises: every word of the query occurs in the
//! candidate, its letters in order.

use vstd::prelude::*;
use crate::input::fuzzy::{
    embeds, is_subsequence, term_score, term_confident, query_confident, query_terms, words_of, segments_of,
    segments_state, in_order, abbreviates, find_char_from, lemma_find_char_from, lemma_term_score_law,
};
use crate::text::chars::{lowercase, alphanumeric};

verus! {

/// `w` is the run of `c` from `start`.
pub open spec fn run_at(c: Seq<char>, w: Seq<char>, start: int) -> bool {
    0 <= start && start + w.len() <= c.len() && c.subrange(start, start + w.len()) == w
}

/// `w` is a run of `c` somewhere.
pub open spec fn is_run(c: Seq<char>, w: Seq<char>) -> bool {
    exists|st: int| run_at(c, w, st)
}

proof fn lemma_segments_are_runs(c: Seq<char>, k: int)
    requires
        0 <= k <= c.len(),
    ensures
        segments_state(c, k).1.len() <= k,
        run_at(c, segments_state(c, k).1, k - segments_state(c, k).1.len()),
        forall|i: int| 0 <= i < segments_state(c, k).0.len() ==> is_run(c, #[trigger] segments_state(c, k).0[i]),
    decreases k,
{
    if k > 0 {
        lemma_segments_are_runs(c, k - 1);
        let prev = segments_state(c, k - 1);
        if alphanumeric(c[k - 1]) {
            let cur = prev.1.push(c[k - 1]);
            let st = k - cur.len();
            assert(c.subrange(st, st + cur.len()) =~= c.subrange(st, k - 1).push(c[k - 1]));
        } else {
            let done = prev.0.push(prev.1);
            assert forall|i: int| 0 <= i < done.len() implies is_run(c, #[trigger] done[i]) by {
                if i < prev.0.len() {
                    assert(done[i] == prev.0[i]);
                } else {
                    assert(run_at(c, done[i], k - 1 - prev.1.len()));
                }
            }
            assert(c.subrange(k, k) =~= Seq::<char>::empty());
        }
    } else {
        assert(c.subrange(0, 0) =~= Seq::<char>::empty());
    }
}

/// Every segment of `c` is a run of `c`.
proof fn lemma_segment_run(c: Seq<char>, i: int) -> (st: int)
    requires
        0 <= i < segments_of(c).len(),
    ensures
        run_at(c, segments_of(c)[i], st),
{
    lemma_segments_are_runs(c, c.len() as int);
    let s = segments_state(c, c.len() as int);
    if i < s.0.len() {
        assert(segments_of(c)[i] == s.0[i]);
        choose|st: int| run_at(c, s.0[i], st)
    } else {
        assert(segments_of(c)[i] == s.1);
        c.len() - s.1.len()
    }
}

/// Characters found in order from `pos` on are placed in `b` at or after
/// `pos`.
proof fn lemma_in_order_embeds(a: Seq<char>, b: Seq<char>, pos: int) -> (idx: Seq<int>)
    requires
        in_order(a, b, pos),
        pos >= 0,
    ensures
        embeds(a, b, idx),
        forall|i: int| 0 <= i < idx.len() ==> #[trigger] idx[i] >= pos,
    decreases a.len(),
{
    if a.len() == 0 {
        Seq::empty()
    } else {
        lemma_find_char_from(b, a[0], pos);
        let j = find_char_from(b, a[0], pos)->Some_0;
        let rest = lemma_in_order_embeds(a.skip(1), b, j + 1);
        let idx = seq![j] + rest;
        assert forall|i: int| 0 <= i < idx.len() implies 0 <= #[trigger] idx[i] < b.len() && b[idx[i]] == a[i] by {
            if i > 0 {
                assert(idx[i] == rest[i - 1]);
                assert(a.skip(1)[i - 1] == a[i]);
            }
        }
        assert forall|i: int, k: int| 0 <= i < k < idx.len() implies #[trigger] idx[i] < #[trigger] idx[k] by {
            assert(idx[k] == rest[k - 1]);
            if i > 0 {
                assert(idx[i] == rest[i - 1]);
            }
        }
        assert forall|i: int| 0 <= i < idx.len() implies #[trigger] idx[i] >= pos by {
            if i > 0 {
                assert(idx[i] == rest[i - 1]);
            }
        }
        idx
    }
}

/// A placing in a run of `c` is a placing in `c`.
proof fn lemma_shift_embedding(t: Seq<char>, c: Seq<char>, w: Seq<char>, st: int, idx: Seq<int>) -> (out: Seq<int>)
    requires
        run_at(c, w, st),
        embeds(t, w, idx),
    ensures
        embeds(t, c, out),
{
    let out = idx.map_values(|i: int| i + st);
    assert forall|i: int| 0 <= i < out.len() implies 0 <= #[trigger] out[i] < c.len() && c[out[i]] == t[i] by {
        assert(out[i] == idx[i] + st);
        assert(c.subrange(st, st + w.len())[idx[i]] == c[idx[i] + st]);
    }
    assert forall|i: int, k: int| 0 <= i < k < out.len() implies #[trigger] out[i] < #[trigger] out[k] by {
        assert(out[i] == idx[i] + st && out[k] == idx[k] + st);
    }
    out
}

/// A term matched well enough to act on occurs in the candidate, its
/// characters in order.
pub proof fn lemma_confident_term_occurs(t: Seq<char>, c: Seq<char>)
    requires
        term_confident(t, c),
    ensures
        is_subsequence(t, c),
{
    if t.len() == 0 {
        assert(embeds(t, c, Seq::<int>::empty()));
    } else if term_score(t, c) is Some {
        lemma_term_score_law(t, c);
    } else {
        let i = choose|i: int| 0 <= i < segments_of(c).len() && abbreviates(t, #[trigger] segments_of(c)[i]);
        let seg = segments_of(c)[i];
        let st = lemma_segment_run(c, i);
        let rest = lemma_in_order_embeds(t.skip(1), seg, 1);
        let idx = seq![0int] + rest;
        assert forall|j: int| 0 <= j < idx.len() implies 0 <= #[trigger] idx[j] < seg.len() && seg[idx[j]] == t[j] by {
            if j > 0 {
                assert(idx[j] == rest[j - 1]);
                assert(t.skip(1)[j - 1] == t[j]);
            }
        }
        assert forall|j: int, k: int| 0 <= j < k < idx.len() implies #[trigger] idx[j] < #[trigger] idx[k] by {
            assert(idx[k] == rest[k - 1]);
            if j > 0 {
                assert(idx[j] == rest[j - 1]);
            }
        }
        assert(embeds(t, seg, idx));
        let out = lemma_shift_embedding(t, c, seg, st, idx);
    }
}

/// A confident match of a query holds every word of it: each word,
/// lowered, occurs in the lowered candidate with its characters in order.
/// So a query with any word whose letters the candidate lacks, in that
/// order, is never confident. Each word scores at least 500 against the
/// candidate, or abbreviates one of its segments.
pub proof fn lemma_confident_query_has_every_word(query: Seq<char>, candidate: Seq<char>)
    ensures
        query_confident(query, candidate) ==> forall|i: int| 0 <= i < words_of(query).len()
            ==> is_subsequence(lowercase(#[trigger] words_of(query)[i]), lowercase(candidate)),
        query_confident(query, candidate) ==> forall|i: int| 0 <= i < words_of(query).len()
            ==> ((term_score(lowercase(#[trigger] words_of(query)[i]), lowercase(candidate)) matches Some(s) && s >= 500)
                || exists|j: int| 0 <= j < segments_of(lowercase(candidate)).len()
                    && abbreviates(lowercase(words_of(query)[i]), #[trigger] segments_of(lowercase(candidate))[j])),
{
    if query_confident(query, candidate) {
        let terms = query_terms(query);
        assert forall|i: int| 0 <= i < words_of(query).len()
            implies is_subsequence(lowercase(#[trigger] words_of(query)[i]), lowercase(candidate)) by {
            assert(terms[i] == lowercase(words_of(query)[i]));
            assert(term_confident(terms[i], lowercase(candidate)));
            lemma_confident_term_occurs(terms[i], lowercase(candidate));
        }
        assert forall|i: int| 0 <= i < words_of(query).len()
            implies ((term_score(lowercase(#[trigger] words_of(query)[i]), lowercase(candidate)) matches Some(s) && s >= 500)
                || exists|j: int| 0 <= j < segments_of(lowercase(candidate)).len()
                    && abbreviates(lowercase(words_of(query)[i]), #[trigger] segments_of(lowercase(candidate))[j])) by {
            assert(terms[i] == lowercase(words_of(query)[i]));
            assert(term_confident(terms[i], lowercase(candidate)));
        }
    }
}

} // verus!
