use nyaadesu::text::{chars_of, parse_u32, parse_u64, same_chars, starts_with};

#[test]
fn splits_a_string_into_its_characters() {
    assert_eq!(chars_of(""), Vec::<char>::new());
    assert_eq!(chars_of("a-b"), vec!['a', '-', 'b']);
    assert_eq!(chars_of("日本語"), vec!['日', '本', '語']);
}

#[test]
fn compares_characters_one_by_one() {
    assert!(same_chars(&chars_of(""), &chars_of("")));
    assert!(same_chars(&chars_of("class"), &chars_of("class")));
    assert!(!same_chars(&chars_of("class"), &chars_of("clasz")));
    assert!(!same_chars(&chars_of("class"), &chars_of("classes")));
    assert!(!same_chars(&chars_of("classes"), &chars_of("class")));
    assert!(same_chars(&vec!['x'], &vec!['x']));
    assert!(!same_chars(&vec!['x'], &vec![]));
}

#[test]
fn tells_whether_a_string_begins_with_another() {
    assert!(starts_with("/download/1.torrent", "/download"));
    assert!(starts_with("/download", "/download"));
    assert!(starts_with("anything", ""));
    assert!(!starts_with("/downloa", "/download"));
    assert!(!starts_with("x/download", "/download"));
    assert!(!starts_with("", "m"));
}

#[test]
fn reads_unsigned_numbers_of_32_bits() {
    assert_eq!(parse_u32("0"), Some(0));
    assert_eq!(parse_u32("42"), Some(42));
    assert_eq!(parse_u32("+7"), Some(7));
    assert_eq!(parse_u32("007"), Some(7));
    assert_eq!(parse_u32("4294967295"), Some(u32::MAX));
    assert_eq!(parse_u32("4294967296"), None);
    assert_eq!(parse_u32("99999999999999999999999999"), None);
}

#[test]
fn refuses_what_is_no_unsigned_number() {
    assert_eq!(parse_u32(""), None);
    assert_eq!(parse_u32("+"), None);
    assert_eq!(parse_u32("-1"), None);
    assert_eq!(parse_u32("++1"), None);
    assert_eq!(parse_u32("1+"), None);
    assert_eq!(parse_u32(" 1"), None);
    assert_eq!(parse_u32("1 "), None);
    assert_eq!(parse_u32("1.0"), None);
    assert_eq!(parse_u32("4a"), None);
    assert_eq!(parse_u32("١٢"), None);
    assert_eq!(parse_u64("x"), None);
}

#[test]
fn reads_unsigned_numbers_of_64_bits() {
    assert_eq!(parse_u64("1546300800"), Some(1546300800));
    assert_eq!(parse_u64("18446744073709551615"), Some(u64::MAX));
    assert_eq!(parse_u64("18446744073709551616"), None);
    assert_eq!(parse_u64("+0000000000000000000000000000001"), Some(1));
}
