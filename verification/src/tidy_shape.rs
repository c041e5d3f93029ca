//! The shape of tidied text: its lines and their endings.

use vstd::prelude::*;
use crate::tidy::{tidied, with_endings, without_trailing_empty, layout_state, has_crlf, lexed_upto,
    detect_state, detected_indent};
use crate::config::text_lines;
use crate::tidy::{lead_blanks, most_common, most_common_upto, count_in, spaces, four_spaces};
use crate::syntax::lexer::KindView;

verus! {

/// How a tidied text ends its lines: with `\r\n` where the original text
/// used it anywhere, else with `\n`.
pub open spec fn line_ending(text: Seq<char>) -> Seq<char> {
    if has_crlf(text) { seq!['\r', '\n'] } else { seq!['\n'] }
}

proof fn lemma_without_trailing_empty(lines: Seq<Seq<char>>)
    ensures
        without_trailing_empty(lines).len() > 0 ==> without_trailing_empty(lines).last().len() > 0,
    decreases lines.len(),
{
    if lines.len() > 0 && lines.last().len() == 0 {
        lemma_without_trailing_empty(lines.drop_last());
    }
}

proof fn lemma_with_endings_end(lines: Seq<Seq<char>>, newline: Seq<char>)
    requires
        lines.len() > 0,
    ensures
        with_endings(lines, newline).len() >= newline.len() + lines.last().len(),
        with_endings(lines, newline).subrange(
            with_endings(lines, newline).len() - newline.len(), with_endings(lines, newline).len() as int) == newline,
{
    let w = with_endings(lines, newline);
    let before = with_endings(lines.drop_last(), newline) + lines.last();
    assert(w == before + newline);
    assert(w.subrange(w.len() - newline.len(), w.len() as int) =~= newline);
}

proof fn lemma_with_endings_empty(lines: Seq<Seq<char>>, newline: Seq<char>)
    requires
        lines.len() == 0,
    ensures
        with_endings(lines, newline).len() == 0,
{
}

/// Tidied text is its lines, the last of them not empty, each ended the
/// way the original text ended its lines: with `\r\n` where the original
/// used it anywhere, else with `\n`. So it ends with a line ending unless
/// it is empty, and never with a blank line.
pub proof fn lemma_tidied_layout(text: Seq<char>)
    ensures
        tidied(text) matches Ok(out) ==> {
            let newline = line_ending(text);
            exists|lines: Seq<Seq<char>>| {
                &&& #[trigger] with_endings(lines, newline) == out
                &&& lines.len() > 0 ==> lines.last().len() > 0
                &&& lines.len() == 0 <==> out.len() == 0
                &&& out.len() > 0 ==> out.subrange(out.len() - newline.len(), out.len() as int) == newline
            }
        },
{
    if let Ok(out) = tidied(text) {
        let lines0 = text_lines(text);
        let views = lexed_upto(lines0, lines0.len() as int)->Ok_0;
        let kinds = Seq::new(lines0.len(), |i: int| (lines0[i], views[i].kind));
        let st = detect_state(kinds, lines0.len() as int);
        let indent = detected_indent(st.0, st.1);
        let widths = st.2;
        let lines = without_trailing_empty(layout_state(views, indent, widths, views.len() as int).0);
        let newline = line_ending(text);
        assert(newline =~= (if has_crlf(text) { seq!['\r', '\n'] } else { seq!['\n'] }));
        assert(out == with_endings(lines, newline));
        lemma_without_trailing_empty(layout_state(views, indent, widths, views.len() as int).0);
        if lines.len() > 0 {
            lemma_with_endings_end(lines, newline);
        } else {
            lemma_with_endings_empty(lines, newline);
        }
        assert({
            &&& with_endings(lines, newline) == out
            &&& lines.len() > 0 ==> lines.last().len() > 0
            &&& lines.len() == 0 <==> out.len() == 0
            &&& out.len() > 0 ==> out.subrange(out.len() - newline.len(), out.len() as int) == newline
        });
    }
}

/// A posting line indented with a tab.
pub open spec fn tab_indented(x: (Seq<char>, KindView)) -> bool {
    x.1 is Posting && x.0.len() > 0 && x.0[0] == '\t'
}

/// A posting line not indented with a tab.
pub open spec fn space_indented(x: (Seq<char>, KindView)) -> bool {
    x.1 is Posting && !(x.0.len() > 0 && x.0[0] == '\t')
}

/// How many spaces start each posting line not indented with a tab, in order.
pub open spec fn space_indents(lines: Seq<(Seq<char>, KindView)>) -> Seq<int> {
    lines.filter(|x: (Seq<char>, KindView)| space_indented(x)).map_values(|x: (Seq<char>, KindView)| lead_blanks(x.0))
}

proof fn lemma_detect_counts(lines: Seq<(Seq<char>, KindView)>, k: int)
    requires
        0 <= k <= lines.len(),
    ensures
        detect_state(lines, k).0 == lines.take(k).filter(|x: (Seq<char>, KindView)| tab_indented(x)).len(),
        detect_state(lines, k).1 == space_indents(lines.take(k)),
    decreases k,
{
    reveal(Seq::filter);
    if k == 0 {
        assert(lines.take(0) =~= Seq::<(Seq<char>, KindView)>::empty());
        assert(space_indents(lines.take(0)) =~= Seq::<int>::empty());
    } else {
        lemma_detect_counts(lines, k - 1);
        let t = lines.take(k);
        assert(t.drop_last() =~= lines.take(k - 1));
        assert(t.last() == lines[k - 1]);
        let f = t.filter(|x: (Seq<char>, KindView)| space_indented(x));
        let f0 = lines.take(k - 1).filter(|x: (Seq<char>, KindView)| space_indented(x));
        if space_indented(lines[k - 1]) {
            assert(f == f0.push(lines[k - 1]));
            assert(space_indents(t) =~= space_indents(lines.take(k - 1)).push(lead_blanks(lines[k - 1].0)));
        } else {
            assert(f == f0);
        }
    }
}

/// Tidying indents postings with a tab exactly when more posting lines are
/// indented with a tab than without one. Otherwise it indents with spaces
/// only: as many as most posting lines without a tab start with (the
/// larger count of a tie), or four where that is none.
pub proof fn lemma_indent_follows_most_postings(lines: Seq<(Seq<char>, KindView)>)
    ensures
        ({
            let st = detect_state(lines, lines.len() as int);
            let indent = detected_indent(st.0, st.1);
            let tabs = lines.filter(|x: (Seq<char>, KindView)| tab_indented(x)).len();
            let others = lines.filter(|x: (Seq<char>, KindView)| space_indented(x)).len();
            &&& (indent == seq!['\t']) <==> tabs > others
            &&& tabs <= others ==> {
                &&& indent.len() > 0
                &&& forall|i: int| 0 <= i < indent.len() ==> #[trigger] indent[i] == ' '
                &&& indent == (match most_common(space_indents(lines)) {
                    Some(v) => if v > 0 { spaces(v) } else { four_spaces() },
                    None => four_spaces(),
                })
            }
        }),
{
    lemma_detect_counts(lines, lines.len() as int);
    assert(lines.take(lines.len() as int) =~= lines);
    let st = detect_state(lines, lines.len() as int);
    let indent = detected_indent(st.0, st.1);
    let others = lines.filter(|x: (Seq<char>, KindView)| space_indented(x)).len();
    assert(st.1.len() == others);
    if !(st.0 > st.1.len()) {
        assert(indent.len() > 0 && indent[0] == ' ');
        assert(indent != seq!['\t']) by {
            assert(seq!['\t'][0] == '\t');
        }
    }
}

proof fn lemma_most_common_upto(values: Seq<int>, k: int)
    requires
        0 <= k <= values.len(),
    ensures
        k == 0 <==> most_common_upto(values, k) is None,
        most_common_upto(values, k) matches Some(r) ==> {
            &&& exists|i: int| 0 <= i < k && values[i] == r
            &&& forall|i: int| 0 <= i < k ==> count_in(values, #[trigger] values[i]) < count_in(values, r)
                || (count_in(values, values[i]) == count_in(values, r) && values[i] <= r)
        },
    decreases k,
{
    if k > 0 {
        lemma_most_common_upto(values, k - 1);
        let r = most_common_upto(values, k)->Some_0;
        assert forall|i: int| 0 <= i < k implies count_in(values, #[trigger] values[i]) < count_in(values, r)
            || (count_in(values, values[i]) == count_in(values, r) && values[i] <= r) by {
        }
        if most_common_upto(values, k - 1) is Some {
            let p = most_common_upto(values, k - 1)->Some_0;
            if r == p {
                let i = choose|i: int| 0 <= i < k - 1 && values[i] == p;
                assert(0 <= i < k && values[i] == r);
            } else {
                assert(values[k - 1] == r);
            }
        } else {
            assert(values[k - 1] == r);
        }
    }
}

/// The most common value is one of the values, and none occurs more often;
/// of those that occur as often, it is the largest. Nothing is most common
/// among no values.
pub proof fn lemma_most_common(values: Seq<int>)
    ensures
        values.len() == 0 <==> most_common(values) is None,
        most_common(values) matches Some(r) ==> {
            &&& values.contains(r)
            &&& forall|v: int| values.contains(v) ==> count_in(values, v) < count_in(values, r)
                || (count_in(values, v) == count_in(values, r) && v <= r)
        },
{
    lemma_most_common_upto(values, values.len() as int);
    if most_common(values) is Some {
        let r = most_common(values)->Some_0;
        let i = choose|i: int| 0 <= i < values.len() && values[i] == r;
        assert(values[i] == r);
        assert forall|v: int| values.contains(v) implies count_in(values, v) < count_in(values, r)
            || (count_in(values, v) == count_in(values, r) && v <= r) by {
            let j = choose|j: int| 0 <= j < values.len() && values[j] == v;
            assert(count_in(values, values[j]) < count_in(values, r)
                || (count_in(values, values[j]) == count_in(values, r) && values[j] <= r));
        }
    }
}

/// `count_in` counts how many of the values equal `v`.
pub proof fn lemma_count_in_counts(values: Seq<int>, v: int)
    ensures
        count_in(values, v) == values.filter(|x: int| x == v).len(),
    decreases values.len(),
{
    reveal(Seq::filter);
    if values.len() > 0 {
        lemma_count_in_counts(values.drop_last(), v);
    }
}

/// A line's indent of spaces is the run of spaces it starts with.
pub proof fn lemma_lead_blanks(s: Seq<char>)
    ensures
        0 <= lead_blanks(s) <= s.len(),
        forall|i: int| 0 <= i < lead_blanks(s) ==> #[trigger] s[i] == ' ',
        lead_blanks(s) < s.len() ==> s[lead_blanks(s)] != ' ',
    decreases s.len(),
{
    if s.len() > 0 && s[0] == ' ' {
        lemma_lead_blanks(s.skip(1));
        assert forall|i: int| 0 <= i < lead_blanks(s) implies #[trigger] s[i] == ' ' by {
            if i > 0 {
                assert(s[i] == s.skip(1)[i - 1]);
            }
        }
        if lead_blanks(s) < s.len() {
            assert(s[lead_blanks(s)] == s.skip(1)[lead_blanks(s.skip(1))]);
        }
    }
}

} // verus!
