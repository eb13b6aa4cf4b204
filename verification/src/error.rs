use vstd::prelude::*;

verus! {

/// The kind of an operating-system I/O failure, as the surrounding
/// program reports it to the library.
#[derive(Clone, Copy, Debug, PartialEq, Eq, Structural)]
pub enum IoErrorKind {
    NotFound,
    PermissionDenied,
    AlreadyExists,
    Other,
}

/// An I/O failure, compared by its kind alone.
#[derive(Clone, Copy, Debug, PartialEq, Eq, Structural)]
pub struct IoError {
    pub kind: IoErrorKind,
}

impl IoError {
    pub fn kind(&self) -> (k: IoErrorKind)
        ensures
            k == self.kind,
    {
        self.kind
    }
}

/// A lexing failure: holds an owned copy of the document's text from the
/// start of the line that could not be read.
#[derive(Clone, Debug, PartialEq, Eq)]
pub struct LexError {
    pub remainder: String,
}

/// Everything that can go wrong while processing one document.
#[derive(Clone, Debug, PartialEq, Eq)]
pub enum Error {
    /// The document's text does not fit the grammar.
    Lex(LexError),
    /// A directive comment's body is not a well-formed record; holds the
    /// underlying parser's diagnostic.
    DirectivesParse(String),
    /// An output destination could not be opened.
    FileOpen(IoError),
    /// An output destination could not be written.
    Write(IoError),
    /// Content needed an output destination that no directive ever named.
    NoOutput,
}

impl Error {
    pub fn file_open(err: IoError) -> (r: Error)
        ensures
            r matches Error::FileOpen(e) && e == err,
    {
        Error::FileOpen(err)
    }

    pub fn write(err: IoError) -> (r: Error)
        ensures
            r matches Error::Write(e) && e == err,
    {
        Error::Write(err)
    }
}

} // verus!
