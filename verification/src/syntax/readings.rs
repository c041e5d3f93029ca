//! What the numbers of a lexed posting are: each is the number its text
//! writes.

use vstd::prelude::*;
use crate::syntax::lexer::{lexed, read_posting, number_value, number_error, tokens_from, commas_trimmed,
    AmountView, KindView};

verus! {

/// Every number of an amount is the number its text writes: the amount's
/// value, its price's value (the number after `@` or `@@`), and its lot's
/// cost, each read from its own text, which is a number that fits.
pub open spec fn numbers_as_written(a: AmountView) -> bool {
    &&& number_error(a.value_text) is None
    &&& a.value == number_value(a.value_text)
    &&& a.price matches Some(p) ==> (number_error(p.value_text) is None && p.value == number_value(p.value_text))
    &&& a.lot matches Some(l) ==> (number_error(l.cost_text) is None && l.cost == number_value(l.cost_text))
}

/// A posting's amount, price and lot are each the number written for them.
pub proof fn lemma_posting_numbers_as_written(content: Seq<char>, offset: int)
    ensures
        read_posting(content, offset) matches Ok(p) ==> (p.amount matches Some(a) ==> numbers_as_written(a)),
{
}

/// On any line that lexes as a posting, the amount, the price and the lot
/// cost are each the number written for them.
pub proof fn lemma_line_numbers_as_written(raw: Seq<char>)
    ensures
        lexed(raw) matches Ok(v) ==> (v.kind matches KindView::Posting(p) ==> (p.amount matches Some(a)
            ==> numbers_as_written(a))),
{
}

/// A posting with a price is six words: the account, the amount and its
/// currency, then `@` (a unit price) or `@@` (a total), the price and its
/// currency. The price is read from the words after the `@`, the amount from
/// the words before it, each as written.
pub proof fn lemma_price_follows_its_sign(content: Seq<char>, offset: int)
    ensures
        read_posting(content, offset) matches Ok(p) ==> (p.amount matches Some(a) ==> (a.price matches Some(pr) ==> (
            tokens_from(content, 0, offset) matches Ok(ts) && ts.len() == 6
            && p.account == ts[0].text
            && a.value_text == ts[1].text && a.value == number_value(ts[1].text)
            && a.currency == commas_trimmed(ts[2].text)
            && (ts[3].text == seq!['@'] || ts[3].text == seq!['@', '@'])
            && (pr.is_total <==> ts[3].text == seq!['@', '@'])
            && pr.value_text == ts[4].text && pr.value == number_value(ts[4].text)
            && pr.currency == commas_trimmed(ts[5].text)))),
{
}

} // verus!
