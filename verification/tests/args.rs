use church::args::{get_args, get_escape_seq, get_substr};

fn assert_eq_args(s: &str, subs: Option<&[&str]>) {
    assert_eq!(
        get_args(s),
        subs.map(|s| s.into_iter().map(ToString::to_string).collect::<Vec<_>>())
    );
}

#[test]
fn substr() {
    assert_eq_args(
        r#"testing just some "things oops \"""#,
        Some(&["testing", "just", "some", "things oops \""]),
    )
}

#[test]
fn escape() {
    assert_eq_args(
        r#"testing a tab \t now a null \0 and finally the \""#,
        Some(&[
            "testing", "a", "tab", "\t", "now", "a", "null", "\0", "and", "finally", "the",
            "\"",
        ]),
    )
}

#[test]
fn error() {
    assert_eq_args(r#"testing what happens with a ""#, None)
}

#[test]
fn empty_words_are_no_arguments() {
    assert_eq_args("", Some(&[]));
    assert_eq_args("   a   b ", Some(&["a", "b"]));
    assert_eq_args(r#"a "" b"#, Some(&["a", "b"]));
    assert_eq_args(r#"a"b c"d"#, Some(&["a", "b c", "d"]));
}

#[test]
fn escape_sequences() {
    let chars: Vec<char> = "nx41q".chars().collect();
    assert_eq!(get_escape_seq(&chars, 0), Some(('\n', 1)));
    assert_eq!(get_escape_seq(&chars, 1), Some(('A', 4)));
    assert_eq!(get_escape_seq(&chars, 4), None);
    assert_eq!(get_escape_seq(&chars, 5), None);
    assert_eq_args(r"a\x41b \\ \'", Some(&["aAb", "\\", "'"]));
    assert_eq_args(r"bad \q", None);
    assert_eq_args(r"bad \xZ1", None);
    assert_eq_args("open \\", None);
}

#[test]
fn escapes_of_a_word_are_resolved() {
    use_format("plain", Some("plain"));
    use_format(r"a\tb\n", Some("a\tb\n"));
    use_format(r#"\0\r\\\'\""#, Some("\0\r\\'\""));
    use_format(r"a\qb", None);
    use_format("", Some(""));
}

fn use_format(s: &str, expected: Option<&str>) {
    assert_eq!(church::args::Arg::format(s), expected.map(|e| e.to_string()));
}

#[test]
fn quoted_text_at_the_start() {
    assert_eq!(get_substr("\"abc\" rest"), Some("abc"));
    assert_eq!(get_substr("\"\""), Some(""));
    assert_eq!(get_substr(r#""a\"b" c"#), Some(r#"a\"b"#));
    assert_eq!(get_substr(r#""λ\\" x"#), Some(r"λ\\"));
    assert_eq!(get_substr("\"open"), None);
    assert_eq!(get_substr(r#""open\""#), None);
    assert_eq!(get_substr("\"open\\"), None);
    assert_eq!(get_substr("abc\"def\""), None);
    assert_eq!(get_substr(""), None);
}
