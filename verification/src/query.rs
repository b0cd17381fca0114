//! The query that asks the site for one page of a search.

use vstd::prelude::*;
use crate::text::{all_digits, digit_value, digits_value, unsigned_value};

verus! {

/// The character that writes the digit `d`.
pub open spec fn digit_char(d: nat) -> char {
    if d == 0 {
        '0'
    } else if d == 1 {
        '1'
    } else if d == 2 {
        '2'
    } else if d == 3 {
        '3'
    } else if d == 4 {
        '4'
    } else if d == 5 {
        '5'
    } else if d == 6 {
        '6'
    } else if d == 7 {
        '7'
    } else if d == 8 {
        '8'
    } else {
        '9'
    }
}

/// The decimal digits of `n`, most significant first, without leading zeros.
pub open spec fn decimal_digits(n: nat) -> Seq<char>
    decreases n,
{
    if n < 10 {
        seq![digit_char(n)]
    } else {
        decimal_digits(n / 10).push(digit_char(n % 10))
    }
}

/// The parameters of the query for page `page` of the search for `term`:
/// the filter `f` and the category `c` set to all, the term `q`, and the
/// page `p`, counted from 0 and written in decimal.
pub open spec fn query_of(term: Seq<char>, page: nat) -> Seq<(Seq<char>, Seq<char>)> {
    seq![("f"@, "0"@), ("c"@, "0_0"@), ("q"@, term), ("p"@, decimal_digits(page))]
}

/// The names and values of a list of parameters as sequences of characters.
pub open spec fn query_view(params: Seq<(String, String)>) -> Seq<(Seq<char>, Seq<char>)> {
    params.map_values(|p: (String, String)| (p.0@, p.1@))
}

/// The digits of a number write that number: reading them gives it back.
pub proof fn lemma_decimal_digits_read_back(n: nat)
    ensures
        decimal_digits(n).len() > 0,
        all_digits(decimal_digits(n)),
        digits_value(decimal_digits(n)) == n,
        decimal_digits(n)[0] != '+',
    decreases n,
{
    let s = decimal_digits(n);
    if n < 10 {
        assert(s.drop_last() =~= Seq::<char>::empty());
        assert(digits_value(s.drop_last()) == 0);
        assert(digit_value(digit_char(n)) == n);
    } else {
        lemma_decimal_digits_read_back(n / 10);
        assert(s.drop_last() =~= decimal_digits(n / 10));
        assert(s.last() == digit_char(n % 10));
        assert(digit_value(digit_char(n % 10)) == n % 10);
        assert(s[0] == decimal_digits(n / 10)[0]);
    }
}

/// A page number written into a query is read back as the same number.
pub proof fn lemma_page_number_round_trip(page: u32)
    ensures
        unsigned_value(decimal_digits(page as nat), u32::MAX as nat) == Some(page as nat),
{
    lemma_decimal_digits_read_back(page as nat);
}

/// The text of the digit `d`.
fn digit_text(d: u32) -> (s: &'static str)
    requires
        d < 10,
    ensures
        s@ == seq![digit_char(d as nat)],
{
    proof {
        reveal_strlit("0");
        reveal_strlit("1");
        reveal_strlit("2");
        reveal_strlit("3");
        reveal_strlit("4");
        reveal_strlit("5");
        reveal_strlit("6");
        reveal_strlit("7");
        reveal_strlit("8");
        reveal_strlit("9");
    }
    let s = if d == 0 {
        "0"
    } else if d == 1 {
        "1"
    } else if d == 2 {
        "2"
    } else if d == 3 {
        "3"
    } else if d == 4 {
        "4"
    } else if d == 5 {
        "5"
    } else if d == 6 {
        "6"
    } else if d == 7 {
        "7"
    } else if d == 8 {
        "8"
    } else {
        "9"
    };
    assert(s@ =~= seq![digit_char(d as nat)]);
    s
}

/// Writes `n` in decimal.
pub fn decimal_string(n: u32) -> (s: String)
    ensures
        s@ == decimal_digits(n as nat),
    decreases n,
{
    if n < 10 {
        String::from_str(digit_text(n))
    } else {
        let mut s = decimal_string(n / 10);
        s.append(digit_text(n % 10));
        assert(s@ =~= decimal_digits(n as nat));
        s
    }
}

/// The parameters of the query for page `page` of the search for `term`.
pub fn page_query(term: &str, page: u32) -> (params: Vec<(String, String)>)
    ensures
        query_view(params@) == query_of(term@, page as nat),
{
    let mut params: Vec<(String, String)> = Vec::new();
    params.push((String::from_str("f"), String::from_str("0")));
    params.push((String::from_str("c"), String::from_str("0_0")));
    params.push((String::from_str("q"), String::from_str(term)));
    params.push((String::from_str("p"), decimal_string(page)));
    assert(query_view(params@) =~= query_of(term@, page as nat));
    params
}

} // verus!
