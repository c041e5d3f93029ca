//! Starting a new ledger: the accounts, currencies and names someone is
//! offered and what they type for them.

use vstd::prelude::*;
use crate::syntax::lexer::{is_number, number_like};
use crate::text::chars::{
    chars_of, string_of, extend_chars, str_eq, split_on, split_chars, joined, push_joined, is_space,
    is_space_char, trimmed, trim_chars, uppercase, to_upper,
};
use crate::util::quant::Quant;
use crate::input::expr::Typed;
use crate::input::compose::{Draft, DraftPosting, DraftPostingView, drafts_view, strings, totals_fit, totals_of, totals_view,
    declarations, draft_text, line_posting, written_lines};
use crate::input::history::History;
use crate::tidy::{FileStyle, four_spaces};
use crate::util::date::date_text;
use crate::util::date::Date;
use crate::text::chars::{alphabetic, is_alpha};

verus! {

/// Where opening balances come from
pub const OPENING: &'static str = "Equity:OpeningBalances";

/// Where a new ledger goes unless someone says otherwise
pub const DEFAULT_PATH: &'static str = "~/books/main.ledr";

/// The decimal places most currencies are written with
pub const DEFAULT_PRECISION: u32 = 2;

/// An account and what it held when the books start
#[derive(Clone, Debug)]
pub struct Opening {
    pub account: String,
    /// As it would be posted, so money owed is negative. None if it's
    /// empty, or not known yet.
    pub balance: Option<(Quant, String)>,
}

impl Opening {
    pub fn new(account: &str, balance: Option<(Quant, &str)>) -> (r: Self)
        ensures
            r.account@ == account@,
            match balance {
                Some((v, c)) => r.balance matches Some((w, d)) && w == v && d@ == c@,
                None => r.balance is None,
            },
    {
        let balance = match balance {
            Some((v, c)) => Some((v, c.to_owned())),
            None => None,
        };
        Opening { account: account.to_owned(), balance }
    }
}

/// Whether `c` is an ASCII letter.
pub open spec fn is_ascii_letter(c: char) -> bool {
    ('a' <= c && c <= 'z') || ('A' <= c && c <= 'Z')
}

/// `c` in upper case, if it is an ASCII letter.
pub open spec fn ascii_upper(c: char) -> char {
    if 'a' <= c && c <= 'z' { ((c as u32) - 32) as char } else { c }
}

/// `c` in lower case, if it is an ASCII letter.
pub open spec fn ascii_lower(c: char) -> char {
    if 'A' <= c && c <= 'Z' { ((c as u32) + 32) as char } else { c }
}

fn upper_ascii(c: char) -> (r: char)
    ensures
        r == ascii_upper(c),
{
    if 'a' <= c && c <= 'z' { (((c as u32) - 32) as u8) as char } else { c }
}

fn lower_ascii(c: char) -> (r: char)
    ensures
        r == ascii_lower(c),
{
    if 'A' <= c && c <= 'Z' { (((c as u32) + 32) as u8) as char } else { c }
}

/// Where the first of `set` occurs in `s`, or its length.
pub open spec fn first_of(s: Seq<char>, set: Seq<char>) -> int
    decreases s.len(),
{
    if s.len() == 0 {
        0
    } else if set.contains(s[0]) {
        0
    } else {
        1 + first_of(s.skip(1), set)
    }
}

pub proof fn lemma_first_of(s: Seq<char>, set: Seq<char>)
    ensures
        0 <= first_of(s, set) <= s.len(),
        first_of(s, set) < s.len() ==> set.contains(s[first_of(s, set)]),
        forall|i: int| 0 <= i < first_of(s, set) ==> !set.contains(#[trigger] s[i]),
    decreases s.len(),
{
    if s.len() > 0 && !set.contains(s[0]) {
        lemma_first_of(s.skip(1), set);
        assert forall|i: int| 0 <= i < first_of(s, set) implies !set.contains(#[trigger] s[i]) by {
            if i > 0 {
                assert(s[i] == s.skip(1)[i - 1]);
            }
        }
    }
}

fn find_first_of(v: &Vec<char>, set: &[char]) -> (r: usize)
    ensures
        r == first_of(v@, set@),
{
    let mut i: usize = 0;
    proof { lemma_first_of(v@, set@); }
    while i < v.len()
        invariant
            i <= v@.len(),
            forall|k: int| 0 <= k < i ==> !set@.contains(#[trigger] v@[k]),
        decreases v@.len() - i,
    {
        let mut j: usize = 0;
        let mut found = false;
        while j < set.len()
            invariant
                j <= set@.len(),
                i < v@.len(),
                found == exists|k: int| 0 <= k < j && set@[k] == v@[i as int],
            decreases set@.len() - j,
        {
            if set[j] == v[i] {
                found = true;
            }
            j = j + 1;
        }
        if found {
            proof { lemma_first_is(v@, set@, i as int); }
            return i;
        }
        i = i + 1;
    }
    proof { lemma_first_is(v@, set@, i as int); }
    i
}

proof fn lemma_first_is(s: Seq<char>, set: Seq<char>, i: int)
    requires
        0 <= i <= s.len(),
        forall|k: int| 0 <= k < i ==> !set.contains(#[trigger] s[k]),
        i == s.len() || set.contains(s[i]),
    ensures
        first_of(s, set) == i,
    decreases s.len(),
{
    if i > 0 {
        assert forall|k: int| 0 <= k < i - 1 implies !set.contains(#[trigger] s.skip(1)[k]) by {
            assert(s.skip(1)[k] == s[k + 1]);
        }
        lemma_first_is(s.skip(1), set, i - 1);
    }
}

/// Currencies usually written without decimal places.
pub open spec fn whole_currency(currency: Seq<char>) -> bool {
    currency == "JPY"@ || currency == "KRW"@ || currency == "VND"@ || currency == "CLP"@ || currency == "ISK"@
}

/// The decimal places a currency is usually written with
pub fn decimals(currency: &str) -> (r: u32)
    ensures
        r == (if whole_currency(currency@) { 0 } else { DEFAULT_PRECISION }),
{
    if str_eq(currency, "JPY") || str_eq(currency, "KRW") || str_eq(currency, "VND")
        || str_eq(currency, "CLP") || str_eq(currency, "ISK") {
        0
    } else {
        DEFAULT_PRECISION
    }
}

/// The characters a currency name cannot hold.
pub open spec fn currency_forbidden() -> Seq<char> {
    seq!['#', '"', '{', '}', '@', ',']
}

/// What `check_currency` says of a name: the name in capitals, or why it
/// cannot be one.
pub open spec fn currency_check(name: Seq<char>) -> Result<Seq<char>, Seq<char>> {
    let name = trimmed(name);
    let bad = first_of(name, currency_forbidden());
    if name.len() == 0 {
        Err("Name a currency, like USD or EUR"@)
    } else if exists|i: int| 0 <= i < name.len() && is_space(#[trigger] name[i]) {
        Err("A currency is one word, like USD"@)
    } else if bad < name.len() {
        Err("A currency can't contain `"@ + seq![name[bad]] + "`"@)
    } else if number_like(name) {
        Err("That's a number; name a currency, like USD"@)
    } else {
        Ok(uppercase(name))
    }
}

/// A currency name that can be read, or why not
pub fn check_currency(name: &str) -> (r: Result<String, String>)
    ensures
        match r {
            Ok(s) => currency_check(name@) == Ok::<Seq<char>, Seq<char>>(s@),
            Err(e) => currency_check(name@) == Err::<Seq<char>, Seq<char>>(e@),
        },
{
    let chars = chars_of(name);
    let t = trim_chars(&chars);
    if t.len() == 0 {
        return Err("Name a currency, like USD or EUR".to_owned());
    }
    let mut i: usize = 0;
    while i < t.len()
        invariant
            i <= t@.len(),
            t@ == trimmed(name@),
            forall|k: int| 0 <= k < i ==> !is_space(#[trigger] t@[k]),
        decreases t@.len() - i,
    {
        if is_space_char(t[i]) {
            assert(is_space(t@[i as int]));
            return Err("A currency is one word, like USD".to_owned());
        }
        i = i + 1;
    }
    let bad = find_first_of(&t, &['#', '"', '{', '}', '@', ',']);
    assert(seq!['#', '"', '{', '}', '@', ','] =~= currency_forbidden());
    if bad < t.len() {
        let mut msg: Vec<char> = Vec::new();
        extend_chars(&mut msg, "A currency can't contain `");
        msg.push(t[bad]);
        extend_chars(&mut msg, "`");
        assert(!(exists|i: int| 0 <= i < t@.len() && is_space(#[trigger] t@[i])));
        assert(msg@ =~= "A currency can't contain `"@ + seq![t@[bad as int]] + "`"@);
        return Err(string_of(&msg));
    }
    let ts = string_of(&t);
    if is_number(ts.as_str()) {
        return Err("That's a number; name a currency, like USD".to_owned());
    }
    Ok(to_upper(ts.as_str()))
}

/// The part of a locale before its encoding or modifier.
pub open spec fn locale_base(locale: Seq<char>) -> Seq<char> {
    locale.take(first_of(locale, seq!['.', '@']))
}

/// The region of a locale like `en_CA.UTF-8`: two letters after the
/// language, in capitals.
pub open spec fn locale_region(locale: Seq<char>) -> Option<Seq<char>> {
    let base = locale_base(locale);
    let sep = first_of(base, seq!['_', '-']);
    let region = base.skip(sep + 1);
    if sep < base.len() && region.len() == 2 && is_ascii_letter(region[0]) && is_ascii_letter(region[1]) {
        Some(seq![ascii_upper(region[0]), ascii_upper(region[1])])
    } else {
        None
    }
}

/// The region of a locale like `en_CA.UTF-8`
pub fn region_of(locale: &str) -> (r: Option<String>)
    ensures
        match r {
            Some(s) => locale_region(locale@) == Some(s@),
            None => locale_region(locale@) is None,
        },
{
    let chars = chars_of(locale);
    let end = find_first_of(&chars, &['.', '@']);
    assert(seq!['.', '@'] =~= seq!['.', '@']);
    proof { lemma_first_of(chars@, seq!['.', '@']); }
    let mut base: Vec<char> = Vec::new();
    let mut i: usize = 0;
    while i < end
        invariant
            i <= end <= chars@.len(),
            base@ == chars@.take(i as int),
        decreases end - i,
    {
        base.push(chars[i]);
        assert(chars@.take(i + 1) =~= chars@.take(i as int).push(chars@[i as int]));
        i = i + 1;
    }
    let sep = find_first_of(&base, &['_', '-']);
    proof { lemma_first_of(base@, seq!['_', '-']); }
    if sep < base.len() && base.len() - sep - 1 == 2 {
        let a = base[sep + 1];
        let b = base[sep + 2];
        let ok_a = ('a' <= a && a <= 'z') || ('A' <= a && a <= 'Z');
        let ok_b = ('a' <= b && b <= 'z') || ('A' <= b && b <= 'Z');
        if ok_a && ok_b {
            let mut v: Vec<char> = Vec::new();
            v.push(upper_ascii(a));
            v.push(upper_ascii(b));
            return Some(string_of(&v));
        }
    }
    None
}

/// The currency people use in a region.
pub open spec fn region_currency(region: Seq<char>) -> Option<Seq<char>> {
    if region == "US"@ || region == "PR"@ || region == "EC"@ || region == "SV"@ || region == "PA"@ {
        Some("USD"@)
    } else if region == "AT"@ || region == "BE"@ || region == "BG"@ || region == "CY"@ || region == "DE"@ || region == "EE"@ || region == "ES"@ || region == "FI"@ || region == "FR"@ || region == "GR"@ || region == "HR"@ || region == "IE"@ || region == "IT"@ || region == "LT"@ || region == "LU"@ || region == "LV"@ || region == "MT"@ || region == "NL"@ || region == "PT"@ || region == "SI"@ || region == "SK"@ {
        Some("EUR"@)
    } else if region == "GB"@ {
        Some("GBP"@)
    } else if region == "CA"@ {
        Some("CAD"@)
    } else if region == "AU"@ {
        Some("AUD"@)
    } else if region == "JP"@ {
        Some("JPY"@)
    } else if region == "CH"@ || region == "LI"@ {
        Some("CHF"@)
    } else if region == "CN"@ {
        Some("CNY"@)
    } else if region == "IN"@ {
        Some("INR"@)
    } else if region == "NZ"@ {
        Some("NZD"@)
    } else if region == "SE"@ {
        Some("SEK"@)
    } else if region == "NO"@ {
        Some("NOK"@)
    } else if region == "DK"@ {
        Some("DKK"@)
    } else if region == "PL"@ {
        Some("PLN"@)
    } else if region == "CZ"@ {
        Some("CZK"@)
    } else if region == "HU"@ {
        Some("HUF"@)
    } else if region == "RO"@ {
        Some("RON"@)
    } else if region == "IS"@ {
        Some("ISK"@)
    } else if region == "MX"@ {
        Some("MXN"@)
    } else if region == "BR"@ {
        Some("BRL"@)
    } else if region == "AR"@ {
        Some("ARS"@)
    } else if region == "CL"@ {
        Some("CLP"@)
    } else if region == "CO"@ {
        Some("COP"@)
    } else if region == "ZA"@ {
        Some("ZAR"@)
    } else if region == "SG"@ {
        Some("SGD"@)
    } else if region == "HK"@ {
        Some("HKD"@)
    } else if region == "KR"@ {
        Some("KRW"@)
    } else if region == "TW"@ {
        Some("TWD"@)
    } else if region == "TH"@ {
        Some("THB"@)
    } else if region == "MY"@ {
        Some("MYR"@)
    } else if region == "ID"@ {
        Some("IDR"@)
    } else if region == "PH"@ {
        Some("PHP"@)
    } else if region == "VN"@ {
        Some("VND"@)
    } else if region == "IL"@ {
        Some("ILS"@)
    } else if region == "TR"@ {
        Some("TRY"@)
    } else if region == "AE"@ {
        Some("AED"@)
    } else if region == "SA"@ {
        Some("SAR"@)
    } else if region == "EG"@ {
        Some("EGP"@)
    } else if region == "NG"@ {
        Some("NGN"@)
    } else if region == "KE"@ {
        Some("KES"@)
    } else if region == "PK"@ {
        Some("PKR"@)
    } else if region == "UA"@ {
        Some("UAH"@)
    } else {
        None
    }
}

/// The currency people use in a region
pub fn currency_for_region(region: &str) -> (r: Option<&'static str>)
    ensures
        match r {
            Some(code) => region_currency(region@) == Some(code@),
            None => region_currency(region@) is None,
        },
{
    if str_eq(region, "US") || str_eq(region, "PR") || str_eq(region, "EC") || str_eq(region, "SV") || str_eq(region, "PA") {
        Some("USD")
    } else if str_eq(region, "AT") || str_eq(region, "BE") || str_eq(region, "BG") || str_eq(region, "CY") || str_eq(region, "DE") || str_eq(region, "EE") || str_eq(region, "ES") || str_eq(region, "FI") || str_eq(region, "FR") || str_eq(region, "GR") || str_eq(region, "HR") || str_eq(region, "IE") || str_eq(region, "IT") || str_eq(region, "LT") || str_eq(region, "LU") || str_eq(region, "LV") || str_eq(region, "MT") || str_eq(region, "NL") || str_eq(region, "PT") || str_eq(region, "SI") || str_eq(region, "SK") {
        Some("EUR")
    } else if str_eq(region, "GB") {
        Some("GBP")
    } else if str_eq(region, "CA") {
        Some("CAD")
    } else if str_eq(region, "AU") {
        Some("AUD")
    } else if str_eq(region, "JP") {
        Some("JPY")
    } else if str_eq(region, "CH") || str_eq(region, "LI") {
        Some("CHF")
    } else if str_eq(region, "CN") {
        Some("CNY")
    } else if str_eq(region, "IN") {
        Some("INR")
    } else if str_eq(region, "NZ") {
        Some("NZD")
    } else if str_eq(region, "SE") {
        Some("SEK")
    } else if str_eq(region, "NO") {
        Some("NOK")
    } else if str_eq(region, "DK") {
        Some("DKK")
    } else if str_eq(region, "PL") {
        Some("PLN")
    } else if str_eq(region, "CZ") {
        Some("CZK")
    } else if str_eq(region, "HU") {
        Some("HUF")
    } else if str_eq(region, "RO") {
        Some("RON")
    } else if str_eq(region, "IS") {
        Some("ISK")
    } else if str_eq(region, "MX") {
        Some("MXN")
    } else if str_eq(region, "BR") {
        Some("BRL")
    } else if str_eq(region, "AR") {
        Some("ARS")
    } else if str_eq(region, "CL") {
        Some("CLP")
    } else if str_eq(region, "CO") {
        Some("COP")
    } else if str_eq(region, "ZA") {
        Some("ZAR")
    } else if str_eq(region, "SG") {
        Some("SGD")
    } else if str_eq(region, "HK") {
        Some("HKD")
    } else if str_eq(region, "KR") {
        Some("KRW")
    } else if str_eq(region, "TW") {
        Some("TWD")
    } else if str_eq(region, "TH") {
        Some("THB")
    } else if str_eq(region, "MY") {
        Some("MYR")
    } else if str_eq(region, "ID") {
        Some("IDR")
    } else if str_eq(region, "PH") {
        Some("PHP")
    } else if str_eq(region, "VN") {
        Some("VND")
    } else if str_eq(region, "IL") {
        Some("ILS")
    } else if str_eq(region, "TR") {
        Some("TRY")
    } else if str_eq(region, "AE") {
        Some("AED")
    } else if str_eq(region, "SA") {
        Some("SAR")
    } else if str_eq(region, "EG") {
        Some("EGP")
    } else if str_eq(region, "NG") {
        Some("NGN")
    } else if str_eq(region, "KE") {
        Some("KES")
    } else if str_eq(region, "PK") {
        Some("PKR")
    } else if str_eq(region, "UA") {
        Some("UAH")
    } else {
        None
    }
}

/// Every currency code with a known region, roughly by how many people
/// keep books in it.
pub open spec fn known_currencies() -> Seq<Seq<char>> {
    seq!["USD"@, "EUR"@, "GBP"@, "CAD"@, "AUD"@, "JPY"@, "CHF"@, "CNY"@, "INR"@, "NZD"@, "SEK"@, "NOK"@, "DKK"@, "PLN"@, "CZK"@, "HUF"@, "RON"@, "ISK"@, "MXN"@, "BRL"@, "ARS"@, "CLP"@, "COP"@, "ZAR"@, "SGD"@, "HKD"@, "KRW"@, "TWD"@, "THB"@, "MYR"@, "IDR"@, "PHP"@, "VND"@, "ILS"@, "TRY"@, "AED"@, "SAR"@, "EGP"@, "NGN"@, "KES"@, "PKR"@, "UAH"@]
}

/// Every currency code with a known region, to suggest
pub fn currency_codes() -> (r: Vec<&'static str>)
    ensures
        r@.map_values(|c: &str| c@) == known_currencies(),
{
    let mut v: Vec<&'static str> = Vec::new();
    v.push("USD");
    v.push("EUR");
    v.push("GBP");
    v.push("CAD");
    v.push("AUD");
    v.push("JPY");
    v.push("CHF");
    v.push("CNY");
    v.push("INR");
    v.push("NZD");
    v.push("SEK");
    v.push("NOK");
    v.push("DKK");
    v.push("PLN");
    v.push("CZK");
    v.push("HUF");
    v.push("RON");
    v.push("ISK");
    v.push("MXN");
    v.push("BRL");
    v.push("ARS");
    v.push("CLP");
    v.push("COP");
    v.push("ZAR");
    v.push("SGD");
    v.push("HKD");
    v.push("KRW");
    v.push("TWD");
    v.push("THB");
    v.push("MYR");
    v.push("IDR");
    v.push("PHP");
    v.push("VND");
    v.push("ILS");
    v.push("TRY");
    v.push("AED");
    v.push("SAR");
    v.push("EGP");
    v.push("NGN");
    v.push("KES");
    v.push("PKR");
    v.push("UAH");
    assert(v@.map_values(|c: &str| c@) =~= known_currencies());
    v
}

/// Names to suggest for accounts that hold money, as they're usually
/// called where someone lives.
pub open spec fn usual_holdings(region: Option<Seq<char>>) -> Seq<Seq<char>> {
    if region == Some("CA"@) {
        seq!["Chequing"@, "Savings"@, "Cash"@, "TFSA"@, "RRSP"@, "Brokerage"@]
    } else if region == Some("US"@) {
        seq!["Checking"@, "Savings"@, "Cash"@, "Brokerage"@, "IRA"@, "401k"@]
    } else if region == Some("GB"@) {
        seq!["Current"@, "Savings"@, "Cash"@, "ISA"@, "Pension"@]
    } else if region == Some("IE"@) {
        seq!["Current"@, "Savings"@, "Cash"@, "Pension"@]
    } else if region == Some("AU"@) {
        seq!["Everyday"@, "Savings"@, "Cash"@, "Super"@]
    } else if region == Some("NZ"@) {
        seq!["Everyday"@, "Savings"@, "Cash"@, "KiwiSaver"@]
    } else {
        seq!["Checking"@, "Savings"@, "Cash"@, "Brokerage"@, "Retirement"@]
    }
}

fn is_region(region: Option<&str>, code: &str) -> (r: bool)
    ensures
        r == (match region { Some(s) => s@ == code@, None => false }),
{
    match region {
        Some(s) => str_eq(s, code),
        None => false,
    }
}

fn strs(names: &[&'static str]) -> (r: Vec<&'static str>)
    ensures
        r@ == names@,
{
    let mut v: Vec<&'static str> = Vec::new();
    let mut i: usize = 0;
    while i < names.len()
        invariant
            i <= names@.len(),
            v@ == names@.take(i as int),
        decreases names@.len() - i,
    {
        v.push(names[i]);
        assert(names@.take(i + 1) =~= names@.take(i as int).push(names@[i as int]));
        i = i + 1;
    }
    assert(names@.take(names@.len() as int) =~= names@);
    v
}

/// Names to suggest for accounts that hold money, as they're usually
/// called where someone lives
pub fn holdings(region: Option<&str>) -> (r: Vec<&'static str>)
    ensures
        r@.map_values(|c: &str| c@) == usual_holdings(match region { Some(s) => Some(s@), None => None }),
{
    let r =     if is_region(region, "CA") {
        strs(&["Chequing", "Savings", "Cash", "TFSA", "RRSP", "Brokerage"])
    } else if is_region(region, "US") {
        strs(&["Checking", "Savings", "Cash", "Brokerage", "IRA", "401k"])
    } else if is_region(region, "GB") {
        strs(&["Current", "Savings", "Cash", "ISA", "Pension"])
    } else if is_region(region, "IE") {
        strs(&["Current", "Savings", "Cash", "Pension"])
    } else if is_region(region, "AU") {
        strs(&["Everyday", "Savings", "Cash", "Super"])
    } else if is_region(region, "NZ") {
        strs(&["Everyday", "Savings", "Cash", "KiwiSaver"])
    } else {
        strs(&["Checking", "Savings", "Cash", "Brokerage", "Retirement"])
    };
    assert(r@.map_values(|c: &str| c@) =~= usual_holdings(match region { Some(s) => Some(s@), None => None }));
    r
}

/// The characters an account name cannot hold.
pub open spec fn account_forbidden() -> Seq<char> {
    seq!['#', '"', '{', '}', '@']
}

/// The top-level categories every account is under.
pub open spec fn valid_prefixes() -> Seq<Seq<char>> {
    seq!["Assets"@, "Liabilities"@, "Equity"@, "Income"@, "Expenses"@]
}

/// Whether two names are the same but for the case of ASCII letters.
pub open spec fn same_ignoring_case(a: Seq<char>, b: Seq<char>) -> bool {
    a.len() == b.len() && forall|i: int| 0 <= i < a.len() ==> ascii_lower(#[trigger] a[i]) == ascii_lower(b[i])
}

/// The first category, from the `k`th on, that `first` names.
pub open spec fn category_named(first: Seq<char>, k: int) -> Option<int>
    decreases 5 - k,
{
    if k >= 5 || k < 0 {
        None
    } else if same_ignoring_case(valid_prefixes()[k], first) {
        Some(k)
    } else {
        category_named(first, k + 1)
    }
}

/// The words of `s` run together, each starting with a capital, after the
/// first `k` characters: (text so far, inside a word).
pub open spec fn caps_state(s: Seq<char>, k: int) -> (Seq<char>, bool)
    decreases k,
{
    if k <= 0 {
        (Seq::empty(), false)
    } else {
        let prev = caps_state(s, k - 1);
        let c = s[k - 1];
        if is_space(c) {
            (prev.0, false)
        } else if !prev.1 {
            (prev.0 + uppercase(seq![c]), true)
        } else {
            (prev.0.push(c), true)
        }
    }
}

/// The words of `s` run together, each starting with a capital.
pub open spec fn run_together(s: Seq<char>) -> Seq<char> {
    caps_state(s, s.len() as int).0
}

/// The names under the category, each run together.
pub open spec fn account_parts(typed: Seq<char>) -> Seq<Seq<char>> {
    let segments = split_on(trimmed(typed), ':');
    let named = category_named(trimmed(segments[0]), 0);
    let rest = if named is Some { segments.skip(1) } else { segments };
    rest.map_values(|s: Seq<char>| run_together(s))
}

/// What `account_name` makes of what someone typed: the account, or why
/// it cannot be one.
pub open spec fn account_from(category: Seq<char>, typed: Seq<char>) -> Result<Seq<char>, Seq<char>> {
    let t = trimmed(typed);
    let bad = first_of(t, account_forbidden());
    let segments = split_on(t, ':');
    let named = category_named(trimmed(segments[0]), 0);
    let parts = account_parts(typed);
    if bad < t.len() {
        Err("Account names can't contain `"@ + seq![t[bad]] + "`"@)
    } else if named matches Some(k) && valid_prefixes()[k] != category {
        Err("This is for "@ + category + " accounts, not "@ + valid_prefixes()[named->0])
    } else if parts.len() == 0 || exists|i: int| 0 <= i < parts.len() && (#[trigger] parts[i]).len() == 0 {
        Err("Name the account, like "@ + category + ":Checking"@)
    } else {
        Ok(category + seq![':'] + joined(parts, ':'))
    }
}

fn run_together_of(s: &Vec<char>) -> (r: Vec<char>)
    ensures
        r@ == run_together(s@),
{
    let mut out: Vec<char> = Vec::new();
    let mut in_word = false;
    let mut i: usize = 0;
    while i < s.len()
        invariant
            i <= s@.len(),
            (out@, in_word) == caps_state(s@, i as int),
        decreases s@.len() - i,
    {
        let c = s[i];
        if is_space_char(c) {
            in_word = false;
        } else if !in_word {
            let mut one: Vec<char> = Vec::new();
            one.push(c);
            let os = string_of(&one);
            let up = to_upper(os.as_str());
            assert(os@ =~= seq![c]);
            extend_chars(&mut out, up.as_str());
            in_word = true;
        } else {
            out.push(c);
        }
        i = i + 1;
    }
    out
}

fn names_category(first: &Vec<char>) -> (r: Option<usize>)
    ensures
        match r {
            Some(k) => category_named(first@, 0) == Some(k as int),
            None => category_named(first@, 0) is None,
        },
        r matches Some(k) ==> k < 5,
{
    let names = ["Assets", "Liabilities", "Equity", "Income", "Expenses"];
    let mut k: usize = 0;
    assert(names@.map_values(|n: &str| n@) =~= valid_prefixes());
    while k < 5
        invariant
            k <= 5,
            names@.map_values(|n: &str| n@) == valid_prefixes(),
            category_named(first@, 0) == category_named(first@, k as int),
        decreases 5 - k,
    {
        let name = chars_of(names[k]);
        assert(name@ == valid_prefixes()[k as int]);
        let mut same = name.len() == first.len();
        if same {
            let mut j: usize = 0;
            while j < name.len()
                invariant
                    j <= name@.len() == first@.len(),
                    same == forall|i: int| 0 <= i < j ==> ascii_lower(#[trigger] name@[i]) == ascii_lower(first@[i]),
                decreases name@.len() - j,
            {
                if lower_ascii(name[j]) != lower_ascii(first[j]) {
                    same = false;
                }
                j = j + 1;
            }
        }
        if same {
            return Some(k);
        }
        k = k + 1;
    }
    None
}

/// Makes an account under `category` from what someone typed. Words run
/// together into one name, so `emergency fund` becomes
/// `Assets:EmergencyFund`, and colons nest, so `Chase:Checking` becomes
/// `Assets:Chase:Checking`. The category can be typed too, or left out.
pub fn account_name(category: &str, typed: &str) -> (r: Result<String, String>)
    ensures
        match r {
            Ok(s) => account_from(category@, typed@) == Ok::<Seq<char>, Seq<char>>(s@),
            Err(e) => account_from(category@, typed@) == Err::<Seq<char>, Seq<char>>(e@),
        },
{
    let chars = chars_of(typed);
    let t = trim_chars(&chars);
    let bad = find_first_of(&t, &['#', '"', '{', '}', '@']);
    assert(seq!['#', '"', '{', '}', '@'] =~= account_forbidden());
    if bad < t.len() {
        let mut msg: Vec<char> = Vec::new();
        extend_chars(&mut msg, "Account names can't contain `");
        msg.push(t[bad]);
        extend_chars(&mut msg, "`");
        assert(msg@ =~= "Account names can't contain `"@ + seq![t@[bad as int]] + "`"@);
        return Err(string_of(&msg));
    }
    let segments = split_chars(&t, ':');
    proof { crate::text::chars::lemma_split_on_nonempty(t@, ':'); }
    assert(segments.deep_view()[0] == segments@[0]@);
    let first = trim_chars(&segments[0]);
    let named = names_category(&first);
    let names = ["Assets", "Liabilities", "Equity", "Income", "Expenses"];
    assert(names@.map_values(|n: &str| n@) =~= valid_prefixes());
    let skip: usize = match named {
        Some(k) => {
            if !str_eq(names[k], category) {
                let mut msg: Vec<char> = Vec::new();
                extend_chars(&mut msg, "This is for ");
                extend_chars(&mut msg, category);
                extend_chars(&mut msg, " accounts, not ");
                extend_chars(&mut msg, names[k]);
                assert(names@[k as int]@ == valid_prefixes()[k as int]);
                return Err(string_of(&msg));
            }
            1
        },
        None => 0,
    };
    let ghost rest = if named is Some { segments.deep_view().skip(1) } else { segments.deep_view() };
    let ghost want = rest.map_values(|s: Seq<char>| run_together(s));
    let mut parts: Vec<Vec<char>> = Vec::new();
    let mut any_empty = false;
    let mut i: usize = skip;
    assert(parts.deep_view() =~= want.take(0));
    while i < segments.len()
        invariant
            skip <= i <= segments@.len(),
            skip == (if named is Some { 1int } else { 0 }),
            segments@.len() >= 1,
            rest == segments.deep_view().skip(skip as int),
            want == rest.map_values(|s: Seq<char>| run_together(s)),
            parts.deep_view() == want.take(i - skip),
            any_empty == exists|k: int| 0 <= k < i - skip && (#[trigger] want[k]).len() == 0,
        decreases segments@.len() - i,
    {
        assert(segments.deep_view()[i as int] == segments@[i as int]@);
        let part = run_together_of(&segments[i]);
        assert(want[i - skip] == part@);
        if part.len() == 0 {
            any_empty = true;
        }
        let ghost prev = parts.deep_view();
        assert(part.deep_view() =~= part@);
        parts.push(part);
        assert(parts.deep_view() =~= prev.push(want[i - skip]));
        assert(want.take(i - skip + 1) =~= want.take(i - skip).push(want[i - skip]));
        i = i + 1;
    }
    assert(want.take(i - skip) =~= want);
    if parts.len() == 0 || any_empty {
        let mut msg: Vec<char> = Vec::new();
        extend_chars(&mut msg, "Name the account, like ");
        extend_chars(&mut msg, category);
        extend_chars(&mut msg, ":Checking");
        assert(msg@ =~= "Name the account, like "@ + category@ + ":Checking"@);
        assert(parts.deep_view().len() == parts@.len());
        assert(want.len() == 0 || exists|k: int| 0 <= k < want.len() && (#[trigger] want[k]).len() == 0);
        assert(segments.deep_view() == split_on(t@, ':'));
        proof {
            if named is None {
                assert(segments.deep_view().skip(0) =~= segments.deep_view());
            }
        }
        assert(want =~= account_parts(typed@));
        return Err(string_of(&msg));
    }
    let mut out: Vec<char> = Vec::new();
    extend_chars(&mut out, category);
    out.push(':');
    push_joined(&mut out, &parts, ':');
    assert(parts.deep_view().len() == parts@.len());
    assert(!(want.len() == 0 || exists|i: int| 0 <= i < want.len() && (#[trigger] want[i]).len() == 0));
    proof {
        if named is None {
            assert(segments.deep_view().skip(0) =~= segments.deep_view());
        }
    }
    assert(want =~= account_parts(typed@));
    assert(out@ =~= category@ + seq![':'] + joined(want, ':'));
    Ok(string_of(&out))
}

/// Currencies written with a dollar sign.
pub open spec fn dollar_currency(c: Seq<char>) -> bool {
    c == "USD"@ || c == "CAD"@ || c == "AUD"@ || c == "NZD"@ || c == "SGD"@ || c == "HKD"@
        || c == "TWD"@ || c == "MXN"@ || c == "ARS"@ || c == "CLP"@ || c == "COP"@
}

/// Currencies written with a yen sign.
pub open spec fn yen_currency(c: Seq<char>) -> bool {
    c == "JPY"@ || c == "CNY"@
}

/// Whether the input writes a symbol that the main currency shares.
pub open spec fn shared_symbol(input: Seq<char>, main: Seq<char>) -> bool {
    (input.contains('$') && dollar_currency(main)) || (input.contains('¥') && yen_currency(main))
}

/// The currency of an amount typed while setting up.
pub open spec fn typed_currency(input: Seq<char>, currency: Option<Seq<char>>, main: Seq<char>) -> Seq<char> {
    match currency {
        Some(c) => if shared_symbol(input, main) && !(exists|i: int| 0 <= i < input.len() && alphabetic(#[trigger] input[i])) {
            main
        } else {
            uppercase(c)
        },
        None => main,
    }
}

fn contains_char(v: &Vec<char>, x: char) -> (r: bool)
    ensures
        r == v@.contains(x),
{
    let mut i: usize = 0;
    while i < v.len()
        invariant
            i <= v@.len(),
            forall|k: int| 0 <= k < i ==> v@[k] != x,
        decreases v@.len() - i,
    {
        if v[i] == x {
            assert(v@[i as int] == x);
            return true;
        }
        i = i + 1;
    }
    false
}

/// The currency of an amount typed while setting up: the one it names, or
/// else the main one. A `$` means the main currency if that is a kind of
/// dollar, since to a Canadian, `$20` is twenty Canadian dollars.
pub fn currency_of(input: &str, typed: &Typed, main: &str) -> (r: String)
    ensures
        r@ == typed_currency(input@, match typed.currency { Some(c) => Some(c@), None => None }, main@),
{
    let chars = chars_of(input);
    let dollar = str_eq(main, "USD") || str_eq(main, "CAD") || str_eq(main, "AUD") || str_eq(main, "NZD")
        || str_eq(main, "SGD") || str_eq(main, "HKD") || str_eq(main, "TWD") || str_eq(main, "MXN")
        || str_eq(main, "ARS") || str_eq(main, "CLP") || str_eq(main, "COP");
    let yen = str_eq(main, "JPY") || str_eq(main, "CNY");
    let shared = (contains_char(&chars, '$') && dollar) || (contains_char(&chars, '¥') && yen);
    match &typed.currency {
        Some(currency) => {
            if shared {
                let mut letters = false;
                let mut i: usize = 0;
                while i < chars.len()
                    invariant
                        i <= chars@.len(),
                        chars@ == input@,
                        letters == exists|k: int| 0 <= k < i && alphabetic(#[trigger] chars@[k]),
                    decreases chars@.len() - i,
                {
                    if is_alpha(chars[i]) {
                        letters = true;
                    }
                    i = i + 1;
                }
                if !letters {
                    return main.to_owned();
                }
            }
            to_upper(currency.as_str())
        },
        None => main.to_owned(),
    }
}

} // verus!

verus! {

/// Expense categories to offer, and whether each starts out chosen.
pub open spec fn expense_choices() -> Seq<(Seq<char>, bool)> {
    seq![("Housing:Rent"@, true), ("Housing:MortgageInterest"@, false),
        ("Housing:Utilities"@, true), ("Housing:Internet"@, true), ("Housing:Maintenance"@, false),
        ("Food:Groceries"@, true), ("Food:Restaurants"@, true), ("Food:Coffee"@, false),
        ("Transport"@, true), ("Health"@, true), ("Insurance"@, false), ("Phone"@, true),
        ("Subscriptions"@, true), ("Shopping"@, true), ("Entertainment"@, true), ("Travel"@, true),
        ("Gifts"@, true), ("Education"@, false), ("Childcare"@, false), ("Pets"@, false),
        ("Taxes"@, false), ("Fees"@, true), ("Interest"@, true)]
}

/// Income categories to offer, and whether each starts out chosen.
pub open spec fn income_choices() -> Seq<(Seq<char>, bool)> {
    seq![("Salary"@, true), ("Interest"@, true), ("Gifts"@, false),
        ("Business"@, false), ("Dividends"@, false), ("Refunds"@, false)]
}

/// Expense categories to offer, and whether each starts out chosen
pub fn expense_presets() -> (r: Vec<(&'static str, bool)>)
    ensures
        presets_view(r@) == expense_choices(),
{
    let r = pairs(&[("Housing:Rent", true), ("Housing:MortgageInterest", false),
        ("Housing:Utilities", true), ("Housing:Internet", true), ("Housing:Maintenance", false),
        ("Food:Groceries", true), ("Food:Restaurants", true), ("Food:Coffee", false),
        ("Transport", true), ("Health", true), ("Insurance", false), ("Phone", true),
        ("Subscriptions", true), ("Shopping", true), ("Entertainment", true), ("Travel", true),
        ("Gifts", true), ("Education", false), ("Childcare", false), ("Pets", false),
        ("Taxes", false), ("Fees", true), ("Interest", true)]);
    assert(presets_view(r@) =~= expense_choices());
    r
}

/// Income categories to offer, and whether each starts out chosen
pub fn income_presets() -> (r: Vec<(&'static str, bool)>)
    ensures
        presets_view(r@) == income_choices(),
{
    let r = pairs(&[("Salary", true), ("Interest", true), ("Gifts", false), ("Business", false),
        ("Dividends", false), ("Refunds", false)]);
    assert(presets_view(r@) =~= income_choices());
    r
}

/// Presets as plain values.
pub open spec fn presets_view(p: Seq<(&str, bool)>) -> Seq<(Seq<char>, bool)> {
    p.map_values(|x: (&str, bool)| (x.0@, x.1))
}

fn pairs(names: &[(&'static str, bool)]) -> (r: Vec<(&'static str, bool)>)
    ensures
        r@ == names@,
{
    let mut v: Vec<(&'static str, bool)> = Vec::new();
    let mut i: usize = 0;
    while i < names.len()
        invariant
            i <= names@.len(),
            v@ == names@.take(i as int),
        decreases names@.len() - i,
    {
        v.push(names[i]);
        assert(names@.take(i + 1) =~= names@.take(i as int).push(names@[i as int]));
        i = i + 1;
    }
    assert(names@.take(names@.len() as int) =~= names@);
    v
}

/// The presets that start out chosen, as accounts under `category`.
pub open spec fn chosen_names(category: Seq<char>, presets: Seq<(Seq<char>, bool)>) -> Seq<Seq<char>>
    decreases presets.len(),
{
    if presets.len() == 0 {
        Seq::empty()
    } else {
        let before = chosen_names(category, presets.drop_last());
        if presets.last().1 { before.push(category + seq![':'] + presets.last().0) } else { before }
    }
}

/// The categories from a list that start out chosen, as accounts
pub fn chosen(category: &str, presets: &[(&str, bool)]) -> (r: Vec<String>)
    ensures
        strings(r@) == chosen_names(category@, presets_view(presets@)),
{
    let ghost pv = presets_view(presets@);
    let mut out: Vec<String> = Vec::new();
    let mut i: usize = 0;
    while i < presets.len()
        invariant
            i <= presets@.len(),
            pv == presets_view(presets@),
            strings(out@) == chosen_names(category@, pv.take(i as int)),
        decreases presets@.len() - i,
    {
        assert(pv.take(i + 1).drop_last() =~= pv.take(i as int));
        if presets[i].1 {
            let mut v: Vec<char> = Vec::new();
            extend_chars(&mut v, category);
            v.push(':');
            extend_chars(&mut v, presets[i].0);
            assert(v@ =~= category@ + seq![':'] + presets@[i as int].0@);
            let ghost before = out@;
            out.push(string_of(&v));
            assert(strings(out@) =~= strings(before).push(category@ + seq![':'] + presets@[i as int].0@));
        }
        i = i + 1;
    }
    assert(pv.take(pv.len() as int) =~= pv);
    out
}

/// A new ledger, as someone described it
#[derive(Clone, Debug)]
pub struct Setup {
    /// When the books start, which is the date of the opening balances
    pub date: Date,
    /// The currency most things are in
    pub currency: String,
    /// Accounts that hold or owe money, in the order they were given
    pub accounts: Vec<Opening>,
    /// Income and expense accounts to start with
    pub categories: Vec<String>,
}

/// Accounts with their balances, as posting lines.
pub open spec fn openings_view(a: Seq<Opening>) -> Seq<DraftPostingView> {
    a.map_values(|o: Opening| DraftPostingView {
        account: o.account@,
        amount: match o.balance {
            Some((v, c)) => Some((v, c@)),
            None => None,
        },
    })
}

/// The lines that open the first `k` accounts: those with a balance that
/// is not zero.
pub open spec fn opening_lines(a: Seq<DraftPostingView>, k: int) -> Seq<DraftPostingView>
    decreases k,
{
    if k <= 0 {
        Seq::empty()
    } else {
        let before = opening_lines(a, k - 1);
        match a[k - 1].amount {
            Some((v, _)) => if v.numerator != 0 { before.push(a[k - 1]) } else { before },
            None => before,
        }
    }
}

/// An account holds a balance to open with: one that is not zero.
pub open spec fn has_balance(p: DraftPostingView) -> bool {
    p.amount matches Some((v, _)) && v.numerator != 0
}

proof fn lemma_opening_prefix(a: Seq<DraftPostingView>, k: int)
    requires
        0 <= k <= a.len(),
    ensures
        opening_lines(a, k) == a.take(k).filter(|p: DraftPostingView| has_balance(p)),
        (opening_lines(a, k).len() == 0) <==> (forall|j: int| 0 <= j < k ==> !has_balance(#[trigger] a[j])),
    decreases k,
{
    reveal(Seq::filter);
    if k == 0 {
        assert(a.take(0) =~= Seq::<DraftPostingView>::empty());
    } else {
        lemma_opening_prefix(a, k - 1);
        assert(a.take(k).drop_last() =~= a.take(k - 1));
        assert(a.take(k).last() == a[k - 1]);
        if !has_balance(a[k - 1]) && opening_lines(a, k).len() == 0 {
            assert forall|j: int| 0 <= j < k implies !has_balance(#[trigger] a[j]) by {
                if j < k - 1 {
                }
            }
        }
    }
}

/// The opening entry's lines are exactly the accounts with a balance that
/// is not zero, in order, and there are none exactly when no account has
/// one; so a setup opens with an entry exactly when some account has a
/// balance.
pub proof fn lemma_opening_is_nonzero_balances(a: Seq<DraftPostingView>)
    ensures
        opening_lines(a, a.len() as int) == a.filter(|p: DraftPostingView| has_balance(p)),
        (opening_lines(a, a.len() as int).len() == 0) <==> (forall|j: int| 0 <= j < a.len() ==> !has_balance(#[trigger] a[j])),
{
    lemma_opening_prefix(a, a.len() as int);
    assert(a.take(a.len() as int) =~= a);
}

/// Every currency used: the main one first, then each other where its
/// first balance is.
pub open spec fn currencies_used(main: Seq<char>, a: Seq<DraftPostingView>, k: int) -> Seq<Seq<char>>
    decreases k,
{
    if k <= 0 {
        seq![main]
    } else {
        let before = currencies_used(main, a, k - 1);
        match a[k - 1].amount {
            Some((_, c)) => if before.contains(c) { before } else { before.push(c) },
            None => before,
        }
    }
}

impl Setup {
    /// The entry that sets every opening balance, if any account has one
    pub fn opening(&self) -> (r: Option<Draft>)
        ensures
            ({
                let lines = opening_lines(openings_view(self.accounts@), self.accounts@.len() as int);
                match r {
                    None => lines.len() == 0,
                    Some(d) => {
                        &&& lines.len() > 0
                        &&& d.date == self.date
                        &&& d.description@ == "Opening balances"@
                        &&& drafts_view(d.postings@) == lines.push(DraftPostingView { account: OPENING@, amount: None })
                        &&& d.notes@.len() == 0
                    },
                }
            }),
    {
        let ghost a = openings_view(self.accounts@);
        let mut postings: Vec<DraftPosting> = Vec::new();
        let mut i: usize = 0;
        while i < self.accounts.len()
            invariant
                i <= self.accounts@.len(),
                a == openings_view(self.accounts@),
                drafts_view(postings@) == opening_lines(a, i as int),
            decreases self.accounts@.len() - i,
        {
            let o = &self.accounts[i];
            assert(a[i as int].account == o.account@);
            match &o.balance {
                Some((v, c)) => {
                    if !v.is_zero() {
                        let ghost before = postings@;
                        postings.push(DraftPosting::new(o.account.as_str(), Some((*v, c.as_str()))));
                        assert(drafts_view(postings@) =~= drafts_view(before).push(a[i as int]));
                    }
                },
                None => {},
            }
            i = i + 1;
        }
        if postings.len() == 0 {
            return None;
        }
        let ghost before = postings@;
        postings.push(DraftPosting::new(OPENING, None));
        assert(drafts_view(postings@) =~= drafts_view(before).push(DraftPostingView { account: OPENING@, amount: None }));
        Some(Draft { date: self.date, description: "Opening balances".to_owned(), postings, notes: Vec::new() })
    }

    /// What everything comes to, by currency: what's held less what's owed,
    /// each currency where its first balance is
    pub fn net_worth(&self) -> (r: Vec<(String, Quant)>)
        requires
            totals_fit(openings_view(self.accounts@), self.accounts@.len() as int),
        ensures
            totals_view(r@) == totals_of(openings_view(self.accounts@), self.accounts@.len() as int),
    {
        let mut postings: Vec<DraftPosting> = Vec::new();
        let mut i: usize = 0;
        while i < self.accounts.len()
            invariant
                i <= self.accounts@.len(),
                drafts_view(postings@) == openings_view(self.accounts@).take(i as int),
            decreases self.accounts@.len() - i,
        {
            let o = &self.accounts[i];
            let ghost before = postings@;
            let line = match &o.balance {
                Some((v, c)) => DraftPosting::new(o.account.as_str(), Some((*v, c.as_str()))),
                None => DraftPosting::new(o.account.as_str(), None),
            };
            assert(line@ == openings_view(self.accounts@)[i as int]);
            postings.push(line);
            assert(openings_view(self.accounts@).take(i + 1) =~= openings_view(self.accounts@).take(i as int).push(line@));
            assert(drafts_view(postings@) =~= drafts_view(before).push(line@));
            i = i + 1;
        }
        assert(openings_view(self.accounts@).take(self.accounts@.len() as int) =~= openings_view(self.accounts@));
        let draft = Draft { date: self.date, description: String::new(), postings, notes: Vec::new() };
        draft.totals()
    }

    /// Every currency used, the main one first
    pub fn currencies(&self) -> (r: Vec<String>)
        ensures
            strings(r@) == currencies_used(self.currency@, openings_view(self.accounts@), self.accounts@.len() as int),
    {
        let ghost a = openings_view(self.accounts@);
        let mut out: Vec<String> = Vec::new();
        out.push(self.currency.clone());
        assert(strings(out@) =~= seq![self.currency@]);
        let mut i: usize = 0;
        while i < self.accounts.len()
            invariant
                i <= self.accounts@.len(),
                a == openings_view(self.accounts@),
                strings(out@) == currencies_used(self.currency@, a, i as int),
            decreases self.accounts@.len() - i,
        {
            match &self.accounts[i].balance {
                Some((_, c)) => {
                    if !contains_name(&out, c.as_str()) {
                        let ghost before = out@;
                        out.push(c.clone());
                        assert(strings(out@) =~= strings(before).push(c@));
                    }
                },
                None => {},
            }
            i = i + 1;
        }
        out
    }

    /// A ledger with the usual accounts and categories and no balances, for
    /// someone who'd rather fill it in themselves
    pub fn usual(date: Date, currency: &str, region: Option<&str>) -> (r: Setup)
        ensures
            r.date == date,
            r.currency@ == currency@,
            openings_view(r.accounts@) == ({
                let h = usual_holdings(match region { Some(s) => Some(s@), None => None });
                seq![
                    DraftPostingView { account: "Assets:"@ + h[0], amount: None },
                    DraftPostingView { account: "Assets:"@ + h[1], amount: None },
                    DraftPostingView { account: "Assets:"@ + h[2], amount: None },
                    DraftPostingView { account: "Liabilities:CreditCard"@, amount: None },
                ]
            }),
            strings(r.categories@) == chosen_names("Income"@, income_choices())
                + chosen_names("Expenses"@, expense_choices()),
    {
        let holdings = holdings(region);
        let ghost h = usual_holdings(match region { Some(s) => Some(s@), None => None });
        assert(holdings@.map_values(|c: &str| c@) == h);
        assert(h.len() >= 3);
        let mut accounts: Vec<Opening> = Vec::new();
        let mut k: usize = 0;
        while k < 3
            invariant
                k <= 3,
                holdings@.len() >= 3,
                holdings@.map_values(|c: &str| c@) == h,
                openings_view(accounts@) == Seq::new(k as nat, |j: int| DraftPostingView { account: "Assets:"@ + h[j], amount: None }),
            decreases 3 - k,
        {
            let mut v: Vec<char> = Vec::new();
            extend_chars(&mut v, "Assets:");
            extend_chars(&mut v, holdings[k]);
            assert(holdings@[k as int]@ == h[k as int]);
            assert(v@ =~= "Assets:"@ + h[k as int]);
            let name = string_of(&v);
            let ghost before = accounts@;
            let o = Opening::new(name.as_str(), None);
            assert(openings_view(seq![o])[0] == DraftPostingView { account: "Assets:"@ + h[k as int], amount: None });
            accounts.push(o);
            assert(openings_view(accounts@) =~= openings_view(before).push(DraftPostingView { account: "Assets:"@ + h[k as int], amount: None }));
            assert(openings_view(accounts@) =~= Seq::new((k + 1) as nat, |j: int| DraftPostingView { account: "Assets:"@ + h[j], amount: None }));
            k = k + 1;
        }
        let ghost three = accounts@;
        let card = Opening::new("Liabilities:CreditCard", None);
        accounts.push(card);
        assert(openings_view(accounts@) =~= openings_view(three).push(DraftPostingView { account: "Liabilities:CreditCard"@, amount: None }));
        let income = income_presets();
        let expenses = expense_presets();
        let mut categories = chosen("Income", income.as_slice());
        let more = chosen("Expenses", expenses.as_slice());
        let ghost first = categories@;
        let mut j: usize = 0;
        while j < more.len()
            invariant
                j <= more@.len(),
                strings(categories@) == strings(first) + strings(more@).take(j as int),
            decreases more@.len() - j,
        {
            let ghost before = categories@;
            let ghost mj = more@[j as int]@;
            assert(strings(more@)[j as int] == mj);
            categories.push(more[j].clone());
            assert(strings(categories@) =~= strings(before).push(mj));
            assert(strings(more@).take(j + 1) =~= strings(more@).take(j as int).push(more@[j as int]@));
            assert(strings(categories@) =~= strings(first) + strings(more@).take(j + 1));
            j = j + 1;
        }
        assert(strings(more@).take(more@.len() as int) =~= strings(more@));
        proof {
            assert(openings_view(accounts@) =~= seq![
                DraftPostingView { account: "Assets:"@ + h[0], amount: None },
                DraftPostingView { account: "Assets:"@ + h[1], amount: None },
                DraftPostingView { account: "Assets:"@ + h[2], amount: None },
                DraftPostingView { account: "Liabilities:CreditCard"@, amount: None },
            ]);
        }
        Setup { date, currency: currency.to_owned(), accounts, categories }
    }
}

/// Whether `name` is among `names`.
fn contains_name(names: &Vec<String>, name: &str) -> (r: bool)
    ensures
        r == strings(names@).contains(name@),
{
    let mut i: usize = 0;
    while i < names.len()
        invariant
            i <= names@.len(),
            forall|k: int| 0 <= k < i ==> (#[trigger] strings(names@)[k]) != name@,
        decreases names@.len() - i,
    {
        if str_eq(names[i].as_str(), name) {
            assert(strings(names@)[i as int] == name@);
            return true;
        }
        i = i + 1;
    }
    false
}


/// The account's balance, if it has one, is a well-formed value.
pub open spec fn balance_wf(o: Opening) -> bool {
    o.balance matches Some((v, _)) ==> v.wf()
}

/// The comment a new ledger starts with.
pub open spec fn started_comment(date: Date) -> Seq<char> {
    "# Started with `ledr init` on "@ + date_text(date) + ".\n#\n# Add entries with `ledr add`, or write them here yourself.\n# `man 5 ledr` describes the format, and `ledr check` finds\n# mistakes.\n"@
}

/// A group of declarations, after a blank line, if there are any.
pub open spec fn group_text(date: Date, keyword: Seq<char>, names: Seq<Seq<char>>) -> Seq<char> {
    if names.len() == 0 { Seq::empty() } else { seq!['\n'] + declarations(date, keyword, names, names.len() as int) }
}

/// The names whose first part, before any colon, is `category`, in order.
pub open spec fn in_category(names: Seq<Seq<char>>, category: Seq<char>) -> Seq<Seq<char>>
    decreases names.len(),
{
    if names.len() == 0 {
        Seq::empty()
    } else {
        let before = in_category(names.drop_last(), category);
        if split_on(names.last(), ':')[0] == category { before.push(names.last()) } else { before }
    }
}

/// A new ledger as text: the comment, then the currencies, the accounts
/// (with the opening balances' account last) and the income and expense
/// categories declared in groups, then the opening entry, if there is one.
pub open spec fn setup_text(date: Date, currencies: Seq<Seq<char>>, accounts: Seq<Seq<char>>,
    categories: Seq<Seq<char>>, opening: Option<Seq<char>>) -> Seq<char> {
    started_comment(date)
        + group_text(date, "currency"@, currencies)
        + group_text(date, "account"@, accounts.push(OPENING@))
        + group_text(date, "account"@, in_category(categories, "Income"@))
        + group_text(date, "account"@, in_category(categories, "Expenses"@))
        + match opening {
            Some(t) => seq!['\n'] + t,
            None => Seq::empty(),
        }
}

/// Appends a group of declarations, after a blank line, if there are any.
fn push_group(out: &mut Vec<char>, date: Date, keyword: &str, names: &Vec<String>)
    ensures
        final(out)@ == old(out)@ + group_text(date, keyword@, strings(names@)),
{
    let ghost start = out@;
    if names.len() == 0 {
        assert(out@ =~= start + group_text(date, keyword@, strings(names@)));
        return;
    }
    out.push('\n');
    let d = chars_of(date.text().as_str());
    let mut k: usize = 0;
    while k < names.len()
        invariant
            k <= names@.len(),
            d@ == date_text(date),
            out@ == start + seq!['\n'] + declarations(date, keyword@, strings(names@), k as int),
        decreases names@.len() - k,
    {
        assert(strings(names@)[k as int] == names@[k as int]@);
        let ghost before = out@;
        extend_chars(out, "! ");
        extend_chars(out, date.text().as_str());
        out.push(' ');
        extend_chars(out, keyword);
        out.push(' ');
        extend_chars(out, names[k].as_str());
        out.push('\n');
        assert(out@ =~= start + seq!['\n'] + declarations(date, keyword@, strings(names@), k + 1));
        k = k + 1;
    }
}

/// The names whose first part is `category`.
fn under(names: &Vec<String>, category: &str) -> (r: Vec<String>)
    ensures
        strings(r@) == in_category(strings(names@), category@),
{
    let mut out: Vec<String> = Vec::new();
    let mut i: usize = 0;
    while i < names.len()
        invariant
            i <= names@.len(),
            strings(out@) == in_category(strings(names@).take(i as int), category@),
        decreases names@.len() - i,
    {
        assert(strings(names@).take(i + 1).drop_last() =~= strings(names@).take(i as int));
        assert(strings(names@).take(i + 1).last() == names@[i as int]@);
        let c = chars_of(names[i].as_str());
        let parts = split_chars(&c, ':');
        proof { crate::text::chars::lemma_split_on_nonempty(c@, ':'); }
        let first = string_of(&parts[0]);
        assert(parts.deep_view()[0] == parts@[0]@);
        assert(first@ == split_on(strings(names@).take(i + 1).last(), ':')[0]);
        if str_eq(first.as_str(), category) {
            let ghost before = out@;
            out.push(names[i].clone());
            assert(strings(out@) =~= strings(before).push(names@[i as int]@));
        }
        i = i + 1;
    }
    assert(strings(names@).take(names@.len() as int) =~= strings(names@));
    out
}

impl Setup {
    /// The ledger, ready to be written to a file
    pub fn to_text(&self) -> (r: String)
        requires
            forall|i: int| 0 <= i < self.accounts@.len() ==> balance_wf(#[trigger] self.accounts@[i]),
        ensures
            ({
                let lines = opening_lines(openings_view(self.accounts@), self.accounts@.len() as int);
                let entry = lines.push(DraftPostingView { account: OPENING@, amount: None });
                let currencies = currencies_used(self.currency@, openings_view(self.accounts@), self.accounts@.len() as int);
                let accounts = openings_view(self.accounts@).map_values(|p: DraftPostingView| p.account);
                &&& lines.len() == 0 ==> r@ == setup_text(self.date, currencies, accounts, strings(self.categories@), None)
                &&& lines.len() > 0 ==> exists|texts: Seq<Seq<char>>| #[trigger] written_lines(&decimals, entry, texts)
                    && r@ == setup_text(self.date, currencies, accounts, strings(self.categories@), Some(draft_text(
                        self.date, "Opening balances"@, Seq::new(entry.len(), |i: int| line_posting(entry[i], texts[i])),
                        four_spaces(), (0, 0), false, Seq::empty(), Seq::empty())))
            }),
    {
        let mut out: Vec<char> = Vec::new();
        extend_chars(&mut out, "# Started with `ledr init` on ");
        extend_chars(&mut out, self.date.text().as_str());
        extend_chars(&mut out, ".\n#\n# Add entries with `ledr add`, or write them here yourself.\n# `man 5 ledr` describes the format, and `ledr check` finds\n# mistakes.\n");
        let currencies = self.currencies();
        push_group(&mut out, self.date, "currency", &currencies);
        let mut names: Vec<String> = Vec::new();
        let mut i: usize = 0;
        while i < self.accounts.len()
            invariant
                i <= self.accounts@.len(),
                strings(names@) == openings_view(self.accounts@).map_values(|p: DraftPostingView| p.account).take(i as int),
            decreases self.accounts@.len() - i,
        {
            let ghost before = names@;
            names.push(self.accounts[i].account.clone());
            assert(strings(names@) =~= strings(before).push(self.accounts@[i as int].account@));
            assert(openings_view(self.accounts@).map_values(|p: DraftPostingView| p.account).take(i + 1)
                =~= openings_view(self.accounts@).map_values(|p: DraftPostingView| p.account).take(i as int).push(self.accounts@[i as int].account@));
            i = i + 1;
        }
        let ghost accounts = openings_view(self.accounts@).map_values(|p: DraftPostingView| p.account);
        assert(accounts.take(accounts.len() as int) =~= accounts);
        let ghost before = names@;
        names.push(OPENING.to_owned());
        assert(strings(names@) =~= accounts.push(OPENING@));
        push_group(&mut out, self.date, "account", &names);
        push_group(&mut out, self.date, "account", &under(&self.categories, "Income"));
        push_group(&mut out, self.date, "account", &under(&self.categories, "Expenses"));
        let ghost so_far = out@;
        let ghost lines = opening_lines(openings_view(self.accounts@), self.accounts@.len() as int);
        let ghost currencies_v = currencies_used(self.currency@, openings_view(self.accounts@), self.accounts@.len() as int);
        match self.opening() {
            Some(entry) => {
                out.push('\n');
                let history = History::build(&[]);
                proof {
                    assert(history.declared_accounts_view() =~= Set::<Seq<char>>::empty());
                    lemma_opening_lines_wf(openings_view(self.accounts@), self.accounts@.len() as int, self.accounts@);
                    assert(drafts_view(entry.postings@) == lines.push(DraftPostingView { account: OPENING@, amount: None }));
                    assert(drafts_view(entry.postings@).len() == entry.postings@.len());
                    assert forall|j: int| 0 <= j < entry.postings@.len() implies
                        crate::input::compose::amount_wf(#[trigger] entry.postings@[j]@) by {
                        assert(drafts_view(entry.postings@)[j] == entry.postings@[j]@);
                        if j < lines.len() {
                            assert(drafts_view(entry.postings@)[j] == lines[j]);
                            assert(crate::input::compose::amount_wf(opening_lines(openings_view(self.accounts@), self.accounts@.len() as int)[j]));
                        } else {
                            assert(drafts_view(entry.postings@)[j] == DraftPostingView { account: OPENING@, amount: None });
                        }
                    }
                }
                let text = entry.to_text(&FileStyle::default(), &history, &decimals);
                extend_chars(&mut out, text.as_str());
                proof {
                    let texts = choose|texts: Seq<Seq<char>>| #[trigger] written_lines(&decimals, drafts_view(entry.postings@), texts)
                        && text@ == draft_text(entry.date, entry.description@,
                            Seq::new(drafts_view(entry.postings@).len(), |i: int| line_posting(drafts_view(entry.postings@)[i], texts[i])),
                            four_spaces(), (0, 0),
                            exists|a: Seq<char>| #[trigger] history.declared_accounts_view().contains(a),
                            crate::input::compose::new_accounts(drafts_view(entry.postings@), history@.accounts.dom(), history.declared_accounts_view(), drafts_view(entry.postings@).len() as int),
                            crate::input::compose::new_currencies(drafts_view(entry.postings@), history@.currencies.dom(), history.declared_currencies_view(), drafts_view(entry.postings@).len() as int));
                    assert(out@ =~= so_far + seq!['\n'] + text@);
                }
            },
            None => {},
        }
        string_of(&out)
    }
}

/// The opening lines carry well-formed values where the accounts' balances are.
proof fn lemma_opening_lines_wf(a: Seq<DraftPostingView>, k: int, accounts: Seq<Opening>)
    requires
        a == openings_view(accounts),
        0 <= k <= a.len(),
        forall|i: int| 0 <= i < accounts.len() ==> balance_wf(#[trigger] accounts[i]),
    ensures
        forall|j: int| 0 <= j < opening_lines(a, k).len() ==> crate::input::compose::amount_wf(#[trigger] opening_lines(a, k)[j]),
    decreases k,
{
    if k > 0 {
        lemma_opening_lines_wf(a, k - 1, accounts);
        assert(a[k - 1].amount == (match accounts[k - 1].balance { Some((v, c)) => Some((v, c@)), None => None }));
        assert(balance_wf(accounts[k - 1]));
        let before = opening_lines(a, k - 1);
        let now = opening_lines(a, k);
        assert forall|j: int| 0 <= j < now.len() implies crate::input::compose::amount_wf(#[trigger] now[j]) by {
            if j < before.len() {
                assert(now[j] == before[j]);
            } else {
                assert(now[j] == a[k - 1]);
            }
        }
    }
}

} // verus!
