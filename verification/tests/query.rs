use nyaadesu::page_query;
use nyaadesu::query::decimal_string;
use nyaadesu::text::parse_u32;

fn pairs(params: &[(String, String)]) -> Vec<(&str, &str)> {
    params.iter().map(|(n, v)| (n.as_str(), v.as_str())).collect()
}

#[test]
fn asks_for_all_categories_the_term_and_the_page() {
    let params = page_query("one piece", 0);
    assert_eq!(pairs(&params), vec![("f", "0"), ("c", "0_0"), ("q", "one piece"), ("p", "0")]);
}

#[test]
fn writes_the_page_in_decimal() {
    assert_eq!(pairs(&page_query("", 12))[3], ("p", "12"));
    assert_eq!(pairs(&page_query("x", 100))[3], ("p", "100"));
    assert_eq!(pairs(&page_query("x", u32::MAX))[3], ("p", "4294967295"));
}

#[test]
fn takes_the_term_as_it_is() {
    assert_eq!(pairs(&page_query("a&b=c d", 1))[2], ("q", "a&b=c d"));
    assert_eq!(pairs(&page_query("進撃の巨人", 1))[2], ("q", "進撃の巨人"));
}

#[test]
fn writes_numbers_without_leading_zeros() {
    assert_eq!(decimal_string(0), "0");
    assert_eq!(decimal_string(7), "7");
    assert_eq!(decimal_string(10), "10");
    assert_eq!(decimal_string(909), "909");
    assert_eq!(decimal_string(1_000_000), "1000000");
    assert_eq!(decimal_string(u32::MAX), "4294967295");
}

#[test]
fn a_number_written_is_read_back() {
    for n in [0u32, 1, 9, 10, 11, 99, 100, 12345, 4294967294, u32::MAX] {
        assert_eq!(parse_u32(&decimal_string(n)), Some(n));
    }
}
