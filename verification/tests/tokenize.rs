use keymap::tokenize_operation_sequence;

fn parsed(input: &str) -> Vec<Vec<String>> {
    tokenize_operation_sequence(input).unwrap()
}

#[test]
fn t_tokenize_operation_sequence_works_for_all_cpp_inputs() {
    assert_eq!(parsed(""), Vec::<Vec<String>>::new());
    assert_eq!(parsed("open"), vec![vec!["open"]]);
    assert_eq!(
        parsed("open-all-unread-in-browser-and-mark-read"),
        vec![vec!["open-all-unread-in-browser-and-mark-read"]]
    );
    assert_eq!(
        parsed("; ; ; ;"),
        Vec::<Vec<String>>::new()
    );
    assert_eq!(
        parsed("open ; next"),
        vec![vec!["open"], vec!["next"]]
    );
    assert_eq!(
        parsed("open ; next ; prev"),
        vec![vec!["open"], vec!["next"], vec!["prev"]]
    );
    assert_eq!(
        parsed("open ; next ; prev ; quit"),
        vec![vec!["open"], vec!["next"], vec!["prev"], vec!["quit"]]
    );
    assert_eq!(
        parsed(r#"set "arg 1""#),
        vec![vec!["set", "arg 1"]]
    );
    assert_eq!(
        parsed(r#"set "arg 1" ; set "arg 2" "arg 3""#),
        vec![vec!["set", "arg 1"], vec!["set", "arg 2", "arg 3"]]
    );
    assert_eq!(
        parsed(r#"set browser "firefox"; open-in-browser"#),
        vec![vec!["set", "browser", "firefox"], vec!["open-in-browser"]]
    );
    assert_eq!(
        parsed("set browser firefox; open-in-browser"),
        vec![vec!["set", "browser", "firefox"], vec!["open-in-browser"]]
    );
    assert_eq!(
        parsed("open-in-browser; quit"),
        vec![vec!["open-in-browser"], vec!["quit"]]
    );
    assert_eq!(
        parsed(r#"open; set browser "firefox --private-window"; quit"#),
        vec![
            vec!["open"],
            vec!["set", "browser", "firefox --private-window"],
            vec!["quit"]
        ]
    );
    assert_eq!(
        parsed(r#"open ;set browser "firefox --private-window" ;quit"#),
        vec![
            vec!["open"],
            vec!["set", "browser", "firefox --private-window"],
            vec!["quit"]
        ]
    );
    assert_eq!(
        parsed(r#"open;set browser "firefox --private-window";quit"#),
        vec![
            vec!["open"],
            vec!["set", "browser", "firefox --private-window"],
            vec!["quit"]
        ]
    );
    assert_eq!(
        parsed("; ;; ; open",),
        vec![vec!["open"]]
    );
    assert_eq!(
        parsed(";;; ;; ; open",),
        vec![vec!["open"]]
    );
    assert_eq!(
        parsed(";;; ;; ; open ;",),
        vec![vec!["open"]]
    );
    assert_eq!(
        parsed(";;; ;; ; open ;; ;",),
        vec![vec!["open"]]
    );
    assert_eq!(
        parsed(";;; ;; ; open ; ;;;;",),
        vec![vec!["open"]]
    );
    assert_eq!(
        parsed(";;; open ; ;;;;",),
        vec![vec!["open"]]
    );
    assert_eq!(
        parsed("; open ;; ;; ;",),
        vec![vec!["open"]]
    );
    assert_eq!(
        parsed("open ; ;;; ;;",),
        vec![vec!["open"]]
    );
    assert_eq!(
        parsed(
            r#"set browser "sleep 3; do-something ; echo hi"; open-in-browser"#
        ),
        vec![
            vec!["set", "browser", "sleep 3; do-something ; echo hi"],
            vec!["open-in-browser"]
        ]
    );
}

#[test]
fn t_tokenize_operation_sequence_ignores_escaped_sequences_outside_double_quotes() {
    assert_eq!(parsed(r#"\t"#), vec![vec![r#"\t"#]]);
    assert_eq!(parsed(r#"\r"#), vec![vec![r#"\r"#]]);
    assert_eq!(parsed(r#"\n"#), vec![vec![r#"\n"#]]);
    assert_eq!(parsed(r#"\v"#), vec![vec![r#"\v"#]]);
    assert_eq!(parsed(r#"\""#), vec![vec![r#"\""#]]);
    assert_eq!(parsed(r#"\\"#), vec![vec![r#"\\"#]]);
}

#[test]
fn t_tokenize_operation_sequence_expands_escaped_sequences_inside_double_quotes() {
    assert_eq!(parsed(r#""\t""#), vec![vec!["\t"]]);
    assert_eq!(parsed(r#""\r""#), vec![vec!["\r"]]);
    assert_eq!(parsed(r#""\n""#), vec![vec!["\n"]]);
    assert_eq!(parsed(r#""\v""#), vec![vec!["\x0b"]]); // vertical tab
    assert_eq!(parsed(r#""\"""#), vec![vec!["\""]]);
    assert_eq!(parsed(r#""\\""#), vec![vec!["\\"]]);
}

#[test]
fn t_tokenize_operation_sequence_passes_through_unsupported_escaped_chars_inside_double_quotes()
{
    assert_eq!(parsed(r#""\1""#), vec![vec!["1"]]);
    assert_eq!(parsed(r#""\W""#), vec![vec!["W"]]);
    assert_eq!(parsed(r#""\b""#), vec![vec!["b"]]);
    assert_eq!(parsed(r#""\d""#), vec![vec!["d"]]);
    assert_eq!(parsed(r#""\x""#), vec![vec!["x"]]);
}
