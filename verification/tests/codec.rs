use todolist::codec::find_char;
use todolist::codec::parse_line_str;
use todolist::codec::str_eq;

#[test]
fn parse_single_line() {
    assert_eq!(parse_line_str("milk\ttrue"), Some((String::from("milk"), true)));
    assert_eq!(parse_line_str("milk\tfalse"), Some((String::from("milk"), false)));
    assert_eq!(parse_line_str("\ttrue"), Some((String::from(""), true)));
    assert_eq!(parse_line_str("milk"), None);
    assert_eq!(parse_line_str("milk\tmaybe"), None);
    assert_eq!(parse_line_str(""), None);
}

#[test]
fn split_on_first_tab_only() {
    assert_eq!(parse_line_str("a\tb\ttrue"), None);
    assert_eq!(parse_line_str("a b\ttrue"), Some((String::from("a b"), true)));
}

#[test]
fn find_first_occurrence() {
    assert_eq!(find_char("a\tb\tc", '\t'), Some(1));
    assert_eq!(find_char("\tabc", '\t'), Some(0));
    assert_eq!(find_char("abc", '\t'), None);
    assert_eq!(find_char("", '\t'), None);
}

#[test]
fn string_equality_by_characters() {
    assert!(str_eq("abc", "abc"));
    assert!(str_eq("", ""));
    assert!(!str_eq("abc", "abd"));
    assert!(!str_eq("abc", "ab"));
    assert!(!str_eq("true", "false"));
}
