use snippet_pipeline::fields::{split_chars, trim_chars};
use snippet_pipeline::text::{
    chars_of, has_suffix, join_range, push_decimal, same_text, split_lines, string_of,
};

fn owned(parts: &[&str]) -> Vec<String> {
    parts.iter().map(|p| p.to_string()).collect()
}

fn decimal_of(n: usize) -> String {
    let mut s = String::new();
    push_decimal(&mut s, n);
    s
}

#[test]
fn chars_and_back() {
    let cs = chars_of("héllo 🟢");
    assert_eq!(cs, vec!['h', 'é', 'l', 'l', 'o', ' ', '🟢']);
    assert_eq!(string_of(&cs, 0, cs.len()), "héllo 🟢");
    assert_eq!(string_of(&cs, 1, 4), "éll");
    assert_eq!(string_of(&cs, 3, 3), "");
}

#[test]
fn split_lines_plain() {
    assert_eq!(split_lines("a\nb\nc"), owned(&["a", "b", "c"]));
}

#[test]
fn split_lines_empty_text_has_no_line() {
    assert_eq!(split_lines(""), Vec::<String>::new());
}

#[test]
fn split_lines_final_terminator_adds_no_line() {
    assert_eq!(split_lines("a\nb\n"), owned(&["a", "b"]));
    assert_eq!(split_lines("\n"), owned(&[""]));
}

#[test]
fn split_lines_keeps_empty_lines() {
    assert_eq!(split_lines("a\n\nb"), owned(&["a", "", "b"]));
    assert_eq!(split_lines("\n\n"), owned(&["", ""]));
}

#[test]
fn split_lines_carriage_returns() {
    assert_eq!(split_lines("a\r\nb\r\n"), owned(&["a", "b"]));
    assert_eq!(split_lines("a\r\r\nb"), owned(&["a\r", "b"]));
    assert_eq!(split_lines("a\rb"), owned(&["a\rb"]));
    assert_eq!(split_lines("a\r"), owned(&["a\r"]));
    assert_eq!(split_lines("\r\n"), owned(&[""]));
}

#[test]
fn split_lines_agrees_with_std_lines() {
    let samples = [
        "", "x", "x\n", "\n", "\n\n", "a\nb", "a\r\nb", "a\r", "\r", "\r\n\r\n", "a\n\r\nb\r",
        "é\n🟢\r\n", "one\ntwo\nthree\n", "\n\na", "a\r\n\r", "  \n\t\n",
    ];
    for s in samples.iter() {
        let want: Vec<String> = s.lines().map(|l| l.to_string()).collect();
        assert_eq!(split_lines(s), want, "text {:?}", s);
    }
}

#[test]
fn join_range_joins_with_line_feeds() {
    let lines = owned(&["a", "b", "", "d"]);
    assert_eq!(join_range(&lines, 0, 4), "a\nb\n\nd");
    assert_eq!(join_range(&lines, 1, 2), "b");
    assert_eq!(join_range(&lines, 2, 4), "\nd");
    assert_eq!(join_range(&lines, 3, 3), "");
    assert_eq!(join_range(&lines, 0, 0), "");
}

#[test]
fn decimal_digits() {
    assert_eq!(decimal_of(0), "0");
    assert_eq!(decimal_of(7), "7");
    assert_eq!(decimal_of(9), "9");
    assert_eq!(decimal_of(10), "10");
    assert_eq!(decimal_of(300), "300");
    assert_eq!(decimal_of(1234567890), "1234567890");
    assert_eq!(decimal_of(usize::MAX), usize::MAX.to_string());
}

#[test]
fn decimal_appends_to_what_is_there() {
    let mut s = String::from("n=");
    push_decimal(&mut s, 42);
    assert_eq!(s, "n=42");
}

#[test]
fn suffix_test() {
    let s = chars_of("dir/file.pyx");
    assert!(has_suffix(&s, &chars_of(".pyx")));
    assert!(has_suffix(&s, &chars_of("")));
    assert!(has_suffix(&s, &chars_of("dir/file.pyx")));
    assert!(!has_suffix(&s, &chars_of(".py")));
    assert!(!has_suffix(&s, &chars_of("xdir/file.pyx")));
    assert!(!has_suffix(&chars_of(""), &chars_of("a")));
}

#[test]
fn same_text_compares_characters() {
    assert!(same_text("", ""));
    assert!(same_text("abc", "abc"));
    assert!(!same_text("abc", "abd"));
    assert!(!same_text("abc", "ab"));
    assert!(!same_text("", "a"));
    assert!(same_text("🟢", "🟢"));
}

#[test]
fn split_chars_cuts_at_every_separator() {
    let parts = split_chars(&chars_of("| a | b |"), '|');
    let want: Vec<Vec<char>> = vec![chars_of(""), chars_of(" a "), chars_of(" b "), chars_of("")];
    assert_eq!(parts, want);
    assert_eq!(split_chars(&chars_of(""), '|'), vec![Vec::<char>::new()]);
    assert_eq!(split_chars(&chars_of("abc"), '|'), vec![chars_of("abc")]);
    assert_eq!(split_chars(&chars_of("||"), '|'), vec![Vec::<char>::new(); 3]);
}

#[test]
fn trim_chars_removes_blanks_at_both_ends() {
    assert_eq!(trim_chars(&chars_of("  a b \t\r\n")), chars_of("a b"));
    assert_eq!(trim_chars(&chars_of("a")), chars_of("a"));
    assert_eq!(trim_chars(&chars_of(" \n ")), Vec::<char>::new());
    assert_eq!(trim_chars(&chars_of("")), Vec::<char>::new());
}
