use ezlatexdoc::error::{Error, IoError, IoErrorKind};
use ezlatexdoc::parse;
use ezlatexdoc::parse::{Directives, Node};
use ezlatexdoc::process::Process;

fn run(input: &str) -> Result<Vec<ezlatexdoc::process::Dest>, Error> {
    let mut p = Process::default();
    p.process_document(input)?;
    Ok(p.finish())
}

#[test]
fn decode_single_directive() {
    assert_eq!(
        Ok(vec![Node::Directives(Directives {
            src_output: Some(String::from("a.tex")),
            doc_output: None,
        })]),
        parse::parse_document("%%% src_output = \"a.tex\"\n")
    );
}

#[test]
fn decode_merged_directive_block() {
    assert_eq!(
        Ok(vec![Node::Directives(Directives {
            src_output: Some(String::from("out.tex")),
            doc_output: Some(String::from("out.doc")),
        })]),
        parse::parse_document("%%% src_output = \"out.tex\"\n%%% doc_output = \"out.doc\"\n")
    );
}

#[test]
fn decode_rejects_unknown_key() {
    let r = parse::parse_document("%%% extra = \"x\"\n");
    assert!(matches!(r, Err(Error::DirectivesParse(_))));
}

#[test]
fn decode_rejects_non_string_value() {
    let r = parse::parse_document("%%% src_output = 3\n");
    assert!(matches!(r, Err(Error::DirectivesParse(_))));
}

#[test]
fn decode_rejects_malformed_body() {
    let r = parse::parse_document("%%% === not toml ===\n");
    assert!(matches!(r, Err(Error::DirectivesParse(_))));
}

#[test]
fn nodes_of_mixed_document() {
    assert_eq!(
        Ok(vec![
            Node::Source(String::from("a")),
            Node::Comment,
            Node::Documentation(String::from("d")),
            Node::PreservedComment(String::from("p")),
        ]),
        parse::parse_document("a% thrown away\n%% d\n%! p\n")
    );
}

#[test]
fn unbound_source_fails() {
    assert_eq!(Err(Error::NoOutput), run("no directive anywhere\n").map(|_| ()));
}

#[test]
fn unbound_documentation_fails() {
    assert_eq!(
        Err(Error::NoOutput),
        run("%%% src_output = \"s\"\n%% docs\n").map(|_| ())
    );
}

#[test]
fn empty_document_needs_nothing() {
    let dests = run("").unwrap();
    assert!(dests.is_empty());
}

#[test]
fn directive_rebinding_routes_to_both_names() {
    let dests = run(
        "%%% src_output = \"a.tex\"\nfirst\n%%% src_output = \"b.tex\"\nsecond\n",
    )
    .unwrap();
    assert_eq!(2, dests.len());
    assert_eq!("a.tex", dests[0].name);
    assert_eq!("first", dests[0].content);
    assert_eq!("b.tex", dests[1].name);
    assert_eq!("second", dests[1].content);
}

#[test]
fn end_to_end_scenario() {
    let dests = run(
        "%%% src_output = \"out.tex\"\n%%% doc_output = \"out.doc\"\nHello \\%world\n% a remark\n",
    )
    .unwrap();
    assert_eq!(2, dests.len());
    assert_eq!("out.tex", dests[0].name);
    assert_eq!("Hello \\%world%\n", dests[0].content);
    assert_eq!("out.doc", dests[1].name);
    assert_eq!("", dests[1].content);
}

#[test]
fn preserved_comment_is_resynthesized() {
    let dests = run("%%% src_output = \"s\"\ncode\n%! keep me\n").unwrap();
    assert_eq!(1, dests.len());
    assert_eq!("code% keep me\n", dests[0].content);
}

#[test]
fn reopening_a_name_fails_like_an_existing_file() {
    let r = run("%%% src_output = \"a\"\n%%% doc_output = \"a\"\n").map(|_| ());
    assert_eq!(
        Err(Error::FileOpen(IoError { kind: IoErrorKind::AlreadyExists })),
        r
    );
}

#[test]
fn lex_error_surfaces_from_processing() {
    let r = run("%%% src_output = \"s\"\nbad\\");
    assert!(matches!(r, Err(Error::Lex(_))));
}

#[test]
fn error_constructors_wrap_io_errors() {
    let io = IoError { kind: IoErrorKind::NotFound };
    assert_eq!(Error::FileOpen(io), Error::file_open(io));
    assert_eq!(Error::Write(io), Error::write(io));
    assert_eq!(IoErrorKind::NotFound, io.kind());
    assert_eq!(IoError { kind: IoErrorKind::NotFound }, io);
    assert_ne!(IoError { kind: IoErrorKind::AlreadyExists }, io);
}
