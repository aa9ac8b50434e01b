use tack::json::{add_text, set_member, take_member, Json};
use tack::order::text_before;
use tack::output::{push_prefixed, OutputFormat};
use tack::schema::schema_methods;
use tack::text::{
    decimal, decimal_signed, find, has_char, chars_of, pad, same_text, split, text_begins_with, trim,
};

#[test]
fn numbers_are_written_in_decimal() {
    assert_eq!(decimal(0), "0");
    assert_eq!(decimal(u64::MAX), u64::MAX.to_string());
    assert_eq!(decimal_signed(i64::MIN), i64::MIN.to_string());
    assert_eq!(decimal_signed(-7), "-7");
    assert_eq!(decimal_signed(42), "42");
}

#[test]
fn padding_counts_characters() {
    assert_eq!(pad("é", 3), format!("{:<3}", "é"));
    assert_eq!(pad("abcd", 3), "abcd");
}

#[test]
fn trimming_takes_white_space_from_both_ends() {
    for s in ["", " ", " a b ", "\t\u{a0}x\u{2003}\n", "x"] {
        assert_eq!(trim(s), s.trim());
    }
}

#[test]
fn searching() {
    let hay = chars_of("abcabc");
    assert_eq!(find(&hay, &chars_of("ca")), Some(2));
    assert_eq!(find(&hay, &chars_of("cb")), None);
    assert_eq!(find(&hay, &chars_of("")), Some(0));
    assert!(has_char("abc", 'c') && !has_char("abc", 'd'));
    assert!(text_begins_with("abc", "ab") && !text_begins_with("ab", "abc"));
    assert!(same_text("ß", "ß") && !same_text("ß", "ss"));
}

#[test]
fn splitting_keeps_empty_pieces() {
    assert_eq!(split("a//b/", '/'), vec!["a", "", "b", ""]);
    assert_eq!(split("", '/'), vec![""]);
}

#[test]
fn texts_are_ordered_by_their_bytes() {
    for (a, b) in [("a", "b"), ("a", "ab"), ("Z", "a"), ("z", "é"), ("é", "\u{1F600}")] {
        assert!(text_before(a, b) && a < b);
        assert!(!text_before(b, a));
    }
    assert!(!text_before("a", "a"));
}

#[test]
fn members_are_set_in_place() {
    let mut members = Vec::new();
    add_text(&mut members, "a", "1");
    add_text(&mut members, "b", "2");
    set_member(&mut members, "a", Json::text("3"));
    set_member(&mut members, "c", Json::Null);
    let keys: Vec<&str> = members.iter().map(|(k, _)| k.as_str()).collect();
    assert_eq!(keys, vec!["a", "b", "c"]);
    let taken = take_member(&mut members, "a").expect("member");
    assert_eq!(taken.as_str(), Some("3"));
    assert!(take_member(&mut members, "a").is_none());
    let json = Json::Object(members);
    assert_eq!(json.get_str("b"), Some("2"));
    assert!(json.copy().get("c").is_some());
}

#[test]
fn lines_and_formats() {
    let mut out = "head\n".to_owned();
    push_prefixed(&mut out, "- ", &["a".to_owned(), "b".to_owned()]);
    assert_eq!(out, "head\n- a\n- b\n");
    assert_eq!(OutputFormat::from_json_flag(true), OutputFormat::Json);
    assert_eq!(OutputFormat::from_json_flag(false), OutputFormat::Human);
}

#[test]
fn every_method_is_described_once() {
    let methods = schema_methods();
    let mut names: Vec<&str> = methods.iter().map(|m| m.method.as_str()).collect();
    names.sort_unstable();
    names.dedup();
    assert_eq!(names.len(), methods.len());
    let diff = methods.iter().find(|m| m.method == "diff").expect("diff");
    let params: Vec<&str> = diff.params.iter().map(|p| p.name.as_str()).collect();
    assert_eq!(params, vec!["from", "to", "stat", "patch"]);
}
