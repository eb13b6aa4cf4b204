use ezlatexdoc::error::LexError;
use ezlatexdoc::lex::{parse_document, Chunk, Comment, CommentKind};
use unindent::unindent;

/// Utility function for creating a chunk of source code.
fn src(source: &str) -> Chunk {
    Chunk::Source(String::from(source))
}

fn comment(text: &str, kind: CommentKind) -> Chunk {
    Chunk::Comment(Comment { text: unindent(text), kind })
}

/// Utility function for creating a directive comment chunk.
fn dir(text: &str) -> Chunk {
    comment(text, CommentKind::Directive)
}

/// Utility function for creating a documentation comment chunk.
fn doc(text: &str) -> Chunk {
    comment(text, CommentKind::Documentation)
}

/// Utility function for creating a preserved comment chunk.
fn preserved(text: &str) -> Chunk {
    comment(text, CommentKind::Preserved)
}

/// Utility function for creating an EOL comment chunk.
fn eol(text: &str) -> Chunk {
    comment(text, CommentKind::Eol)
}

#[test]
fn parse_empty() {
    assert_eq!(Ok(vec![]), parse_document(""));
}

#[test]
fn parse_source_simple() {
    assert_eq!(
        Ok(vec![src("lorem ipsum dolor...\nfoo bar baz")]),
        parse_document("lorem ipsum dolor...\nfoo bar baz")
    );

    assert_eq!(
        Ok(vec![src("lorem ipsum dolor...")]),
        parse_document("lorem ipsum dolor...")
    );
}

#[test]
fn parse_eol_comment_simple() {
    assert_eq!(
        Ok(vec![
            src("lorem ipsum dolor..."),
            eol("eol comment (thrown away)"),
        ]),
        parse_document("lorem ipsum dolor...% eol comment (thrown away)")
    );
}

#[test]
fn parse_directives() {
    assert_eq!(
        Ok(vec![
            dir("ezlatexdoc directives\nall come in blocks where each line starts with '%%%'\nwhitespace before the markers is optional."),
            eol("this plain comment will be thrown out..."),
            dir("...but it breaks up the directive blocks into two."),
        ]),
        parse_document(
            "%%% ezlatexdoc directives\n%%% all come in blocks where each line starts with '%%%'\n%%% whitespace before the markers is optional.\n% this plain comment will be thrown out...\n%%% ...but it breaks up the directive blocks into two.\n"
        ),
    );
}

#[test]
fn parse_mixed() {
    assert_eq!(
        Ok(vec![
            src("foo bar\nfoo bar baz\nfoo bar"),
            eol("eol"),
            src("foo baz"),
            preserved("preserved"),
            src("baz qux"),
            dir("directives\ndirectives"),
            doc("documentation...\n...goes here, and doesn't even need to be in TeX"),
            eol("impl note"),
            src("more source...\nfoo bar baz\nbux boz"),
        ]),
        parse_document(
            "foo bar\nfoo bar baz\nfoo bar% eol\nfoo baz%! preserved\nbaz qux\n%%% directives\n%%% directives\n%% documentation...\n%% ...goes here, and doesn't even need to be in TeX\n% impl note\nmore source...\nfoo bar baz\nbux boz\n"
        )
    );
}

#[test]
fn escape_never_opens_comment() {
    assert_eq!(Ok(vec![src("100\\% done")]), parse_document("100\\% done"));
}

#[test]
fn directive_tag_beats_shorter_tags() {
    assert_eq!(Ok(vec![dir("x")]), parse_document("%%% x"));
    assert_eq!(Ok(vec![doc("x")]), parse_document("%% x"));
    assert_eq!(Ok(vec![preserved("x")]), parse_document("%! x"));
    assert_eq!(Ok(vec![eol("x")]), parse_document("% x"));
}

#[test]
fn indented_tag_is_start_of_line() {
    assert_eq!(Ok(vec![doc("docs")]), parse_document("   %% docs\n"));
}

#[test]
fn blank_line_stays_in_source() {
    assert_eq!(Ok(vec![src("a\n\nb")]), parse_document("a\n\nb\n"));
}

#[test]
fn trailing_escape_is_a_lex_error() {
    assert_eq!(
        Err(LexError { remainder: String::from("oops\\") }),
        parse_document("oops\\")
    );
    assert_eq!(
        Err(LexError { remainder: String::from("bad\\\nrest") }),
        parse_document("fine\nbad\\\nrest")
    );
}

#[test]
fn comment_helpers() {
    let c = Comment { text: "  padded", kind: CommentKind::Eol };
    assert_eq!(
        Comment { text: String::from("  padded"), kind: CommentKind::Eol },
        c.to_owned()
    );
    assert_eq!(
        Comment { text: String::from("\n  padded"), kind: CommentKind::Eol },
        c.after_newline()
    );
    assert_eq!(
        Comment { text: String::from("padded"), kind: CommentKind::Eol },
        c.trimmed()
    );
}

#[test]
fn trimming_strips_all_unicode_whitespace() {
    let c = Comment { text: "\u{000B}\u{00A0} padded", kind: CommentKind::Eol };
    assert_eq!(
        Comment { text: String::from("padded"), kind: CommentKind::Eol },
        c.trimmed()
    );
    assert_eq!(
        Ok(vec![src("a"), eol("inline")]),
        parse_document("a%\u{000B}\u{2003}inline")
    );
}

#[test]
fn block_runs_collapse_by_kind() {
    assert_eq!(
        Ok(vec![
            preserved("p1\np2"),
            doc("d1\nd2\nd3"),
            eol("e1\ne2"),
        ]),
        parse_document("%! p1\n%! p2\n%% d1\n%% d2\n%% d3\n% e1\n% e2\n")
    );
}
