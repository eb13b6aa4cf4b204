use ezlatexdoc::old_line::{
    determine_kind, is_space, maybe_trim, prefix_bytes, prefix_token, Line, LineKind,
};

fn chars(s: &str) -> Vec<char> {
    s.chars().collect()
}

fn text(v: &[char]) -> String {
    v.iter().collect()
}

#[test]
fn is_space_test() {
    assert_eq!("% xyz...  ", "  \t % xyz...  ".trim_start_matches(is_space));
}

#[test]
fn line_from_source_examples() {
    // Whitespace is trimmed from the end of source lines:
    assert_eq!(
        Line {
            orig: String::from("  xyz "),
            processed: String::from("  xyz"),
            kind: LineKind::Source,
        },
        Line::from("  xyz ")
    );

    // Comments are stripped too:
    assert_eq!(
        Line {
            orig: String::from("  xyz % Comment..."),
            processed: String::from("  xyz"),
            kind: LineKind::Source,
        },
        Line::from("  xyz % Comment...")
    );

    // Unless they don't have spaces:
    assert_eq!(
        Line {
            orig: String::from("  xyz% Comment..."),
            processed: String::from("  xyz%"),
            kind: LineKind::Source,
        },
        Line::from("  xyz% Comment...")
    );

    // Percent-signs behind a backslash are skipped:
    assert_eq!(
        Line {
            orig: String::from("xyz 100\\% not a comment"),
            processed: String::from("xyz 100\\% not a comment"),
            kind: LineKind::Source,
        },
        Line::from("xyz 100\\% not a comment")
    );
}

#[test]
fn line_from_comment_examples() {
    assert_eq!(
        Line {
            orig: String::from("%% Stays in source..."),
            processed: String::from("% Stays in source..."),
            kind: LineKind::Comment,
        },
        Line::from("%% Stays in source...")
    );

    assert_eq!(
        Line {
            orig: String::from("%%  Stays in source..."),
            processed: String::from("%  Stays in source..."),
            kind: LineKind::Comment,
        },
        Line::from("%%  Stays in source...")
    );

    assert_eq!(
        Line {
            orig: String::from("%%% Directives are ignored."),
            processed: String::from("Directives are ignored."),
            kind: LineKind::Directive,
        },
        Line::from("%%% Directives are ignored.")
    );

    assert_eq!(
        Line {
            orig: String::from("% Documentation."),
            processed: String::from("Documentation."),
            kind: LineKind::Documentation,
        },
        Line::from("% Documentation.")
    );

    // At most one whitespace character after the prefix token is trimmed:
    assert_eq!(
        Line {
            orig: String::from("%  Documentation."),
            processed: String::from(" Documentation."),
            kind: LineKind::Documentation,
        },
        Line::from("%  Documentation.")
    );
}

#[test]
fn should_discard_by_kind() {
    assert!(Line::from("%%% src_output = \"x\"").should_discard());
    assert!(!Line::from("plain text").should_discard());
    assert!(!Line::from("%% kept comment").should_discard());
    assert!(!Line::from("% documentation").should_discard());
}

#[test]
fn trim_trailing_comment_reruns() {
    let mut line = Line {
        orig: String::from("a % b"),
        processed: String::from("a % b"),
        kind: LineKind::Source,
    };
    line.trim_trailing_comment();
    assert_eq!(String::from("a"), line.processed);
}

#[test]
fn prefix_token_and_bytes() {
    assert_eq!("%%%", prefix_token(LineKind::Directive));
    assert_eq!("%%", prefix_token(LineKind::Comment));
    assert_eq!("%", prefix_token(LineKind::Documentation));
    assert_eq!("", prefix_token(LineKind::Source));
    assert_eq!(3, prefix_bytes(LineKind::Directive));
    assert_eq!(1, prefix_bytes(LineKind::Comment));
    assert_eq!(1, prefix_bytes(LineKind::Documentation));
    assert_eq!(0, prefix_bytes(LineKind::Source));
}

#[test]
fn maybe_trim_cases() {
    let t = chars("%%% payload");
    let (np, k) = maybe_trim(&t, LineKind::Directive).unwrap();
    assert_eq!("payload", text(&np));
    assert_eq!(LineKind::Directive, k);

    let t = chars("%% kept");
    let (np, k) = maybe_trim(&t, LineKind::Comment).unwrap();
    assert_eq!("% kept", text(&np));
    assert_eq!(LineKind::Comment, k);

    assert!(maybe_trim(&chars("no tag"), LineKind::Documentation).is_none());
}

#[test]
fn determine_kind_precedence() {
    let (p, k) = determine_kind(&chars("  %%% d "));
    assert_eq!("d", text(&p));
    assert_eq!(LineKind::Directive, k);

    let (p, k) = determine_kind(&chars("%% c"));
    assert_eq!("% c", text(&p));
    assert_eq!(LineKind::Comment, k);

    let (p, k) = determine_kind(&chars("% d"));
    assert_eq!("d", text(&p));
    assert_eq!(LineKind::Documentation, k);

    let (p, k) = determine_kind(&chars("  plain  "));
    assert_eq!("  plain  ", text(&p));
    assert_eq!(LineKind::Source, k);
}
