use vstd::prelude::*;

use crate::strutil::{
    is_hspace, strip_hspace, strip_white, str_chars_vec, string_from_chars, subrange_chars,
    trim_white_start, skip_hspace, push_all,
};
use crate::error::LexError;

verus! {

// ---------------------------------------------------------------------------
// Chunks: the lexer's output.
// ---------------------------------------------------------------------------

/// The classification of a comment, decided by its tag: `%%%` opens a
/// directive, `%%` documentation, `%!` a preserved comment and `%` an
/// end-of-line comment.  When tags overlap, the longest one wins.
#[derive(Clone, Copy, Debug, PartialEq, Eq, Structural)]
pub enum CommentKind {
    Directive,
    Documentation,
    Preserved,
    Eol,
}

/// A classified comment and its text (tag already stripped).
#[derive(Clone, Debug, PartialEq, Eq)]
pub struct Comment<T> {
    pub text: T,
    pub kind: CommentKind,
}

/// One region of the document: either plain source text or a comment.
#[derive(Clone, Debug, PartialEq, Eq)]
pub enum Chunk {
    Comment(Comment<String>),
    Source(String),
}

/// The mathematical value of a `Chunk`.
pub enum ChunkView {
    Comment(CommentKind, Seq<char>),
    Source(Seq<char>),
}

impl View for Chunk {
    type V = ChunkView;

    open spec fn view(&self) -> ChunkView {
        match self {
            Chunk::Source(s) => ChunkView::Source(s@),
            Chunk::Comment(c) => ChunkView::Comment(c.kind, c.text@),
        }
    }
}

/// The values of a sequence of chunks.
pub open spec fn chunks_view(cs: Seq<Chunk>) -> Seq<ChunkView> {
    cs.map_values(|c: Chunk| c@)
}

impl<'a> Comment<&'a str> {
    /// A copy of the comment that owns its text.
    pub fn to_owned(&self) -> (r: Comment<String>)
        ensures
            r.text@ == self.text@,
            r.kind == self.kind,
    {
        Comment { text: self.text.to_owned(), kind: self.kind }
    }

    /// Like `to_owned`, but with a line ending prepended to the text, the
    /// shape in which merged comment blocks are handed to the indentation
    /// normalizer (which leaves the first line alone).
    pub fn after_newline(&self) -> (r: Comment<String>)
        ensures
            r.text@ == seq!['\n'] + self.text@,
            r.kind == self.kind,
    {
        let mut text_new = String::from_str("\n");
        text_new.append(self.text);
        proof {
            reveal_strlit("\n");
            assert(text_new@ =~= seq!['\n'] + self.text@);
        }
        Comment { text: text_new, kind: self.kind }
    }

    /// A copy of the comment with leading whitespace removed from its
    /// text, whitespace read as `char::is_whitespace`.
    pub fn trimmed(&self) -> (r: Comment<String>)
        ensures
            r.text@ == strip_white(self.text@),
            r.kind == self.kind,
    {
        let cs = str_chars_vec(self.text);
        let t = trim_white_start(&cs);
        Comment { text: string_from_chars(&t), kind: self.kind }
    }
}

// ---------------------------------------------------------------------------
// The grammar, as a function on sequences of characters.
// ---------------------------------------------------------------------------

/// What `unindent::unindent` returns: the text with the largest shared
/// indentation removed from every line after the first.  The library never
/// states what this is on given characters; it only carries the name through.
pub uninterp spec fn unindent_of(s: Seq<char>) -> Seq<char>;

/// Relies on `unindent::unindent`: removes the largest indentation shared by
/// every line after the first; the result depends on the text alone.
#[verifier::external_body]
fn unindent_str(s: &str) -> (r: String)
    ensures
        r@ == unindent_of(s@),
{
    unindent::unindent(s)
}

/// The length of each kind's tag.
pub open spec fn tag_len(k: CommentKind) -> int {
    match k {
        CommentKind::Directive => 3,
        CommentKind::Documentation => 2,
        CommentKind::Preserved => 2,
        CommentKind::Eol => 1,
    }
}

/// The comment kind a whole line carries, if, after its indentation, it
/// begins with a comment tag.  Longer tags are tried first, so a line
/// starting `%%%` is always a directive.
pub open spec fn line_kind(l: Seq<char>) -> Option<CommentKind> {
    let t = strip_hspace(l);
    if t.len() >= 3 && t[0] == '%' && t[1] == '%' && t[2] == '%' {
        Some(CommentKind::Directive)
    } else if t.len() >= 2 && t[0] == '%' && t[1] == '%' {
        Some(CommentKind::Documentation)
    } else if t.len() >= 2 && t[0] == '%' && t[1] == '!' {
        Some(CommentKind::Preserved)
    } else if t.len() >= 1 && t[0] == '%' {
        Some(CommentKind::Eol)
    } else {
        None
    }
}

/// The text of a start-of-line comment: the line after its indentation and
/// its tag.
pub open spec fn sol_text(l: Seq<char>) -> Seq<char> {
    match line_kind(l) {
        Some(k) => strip_hspace(l).skip(tag_len(k)),
        None => Seq::empty(),
    }
}

/// Splits a line that does not open with a comment tag into its source part
/// and an optional trailing inline comment.  A backslash escapes the
/// character after it, so an escaped `%` stays in the source part.  Inline,
/// only the `%!` and `%` tags apply.  `None` means the line cannot be read:
/// a backslash stands at the end of the line with nothing to escape.
pub open spec fn split_src(l: Seq<char>) -> Option<(Seq<char>, Option<(CommentKind, Seq<char>)>)>
    decreases l.len(),
{
    if l.len() == 0 {
        Some((Seq::empty(), None))
    } else if l[0] == '\\' {
        if l.len() == 1 {
            None
        } else {
            match split_src(l.skip(2)) {
                None => None,
                Some((s, c)) => Some((l.take(2) + s, c)),
            }
        }
    } else if l[0] == '%' {
        if l.len() >= 2 && l[1] == '!' {
            Some((Seq::empty(), Some((CommentKind::Preserved, l.skip(2)))))
        } else {
            Some((Seq::empty(), Some((CommentKind::Eol, l.skip(1)))))
        }
    } else {
        match split_src(l.skip(1)) {
            None => None,
            Some((s, c)) => Some((seq![l[0]] + s, c)),
        }
    }
}

/// The index of the first line ending in `s`, or `s.len()` if there is none.
pub open spec fn first_nl(s: Seq<char>) -> int
    decreases s.len(),
{
    if s.len() == 0 {
        0
    } else if s[0] == '\n' {
        0
    } else {
        1 + first_nl(s.drop_first())
    }
}

pub proof fn lemma_first_nl(s: Seq<char>)
    ensures
        0 <= first_nl(s) <= s.len(),
        forall|i: int| 0 <= i < first_nl(s) ==> s[i] != '\n',
        first_nl(s) < s.len() ==> s[first_nl(s)] == '\n',
    decreases s.len(),
{
    if s.len() != 0 && s[0] != '\n' {
        lemma_first_nl(s.drop_first());
        assert forall|i: int| 0 <= i < first_nl(s) implies s[i] != '\n' by {
            if i > 0 {
                assert(s.drop_first()[i - 1] != '\n');
            }
        }
    }
}

/// The physical lines of the document: the segments between line endings.
/// A final line ending closes the last line and opens no new one.
pub open spec fn split_lines(s: Seq<char>) -> Seq<Seq<char>>
    decreases s.len(),
{
    if s.len() == 0 {
        Seq::empty()
    } else {
        let j = first_nl(s);
        if 0 <= j < s.len() {
            seq![s.take(j)] + split_lines(s.skip(j + 1))
        } else {
            seq![s]
        }
    }
}

// ---------------------------------------------------------------------------
// The lexer as a fold over the document's lines.
// ---------------------------------------------------------------------------

/// What the lexer holds between lines: nothing, the source lines gathered so
/// far (joined by line endings), or an open comment block of one kind whose
/// buffer holds each line's text behind a line ending.
pub enum Pending {
    Idle,
    Src(Seq<char>),
    Com(CommentKind, Seq<char>),
}

/// The lexer's state: the chunks already closed, what is still open, and the
/// character offset of the next unread line.
pub struct LexState {
    pub chunks: Seq<ChunkView>,
    pub pending: Pending,
    pub pos: int,
}

pub open spec fn init_state() -> LexState {
    LexState { chunks: Seq::empty(), pending: Pending::Idle, pos: 0 }
}

pub open spec fn nl() -> Seq<char> {
    seq!['\n']
}

/// Closes a gathered source run; an empty run (blank lines only) leaves no
/// chunk behind.
pub open spec fn flush_src(chunks: Seq<ChunkView>, s: Seq<char>) -> Seq<ChunkView> {
    if s.len() == 0 {
        chunks
    } else {
        chunks.push(ChunkView::Source(s))
    }
}

/// Closes whatever is open.  A comment block's buffer, which holds a line
/// ending before each line's text, goes through the indentation normalizer;
/// the synthetic leading line ending makes it treat the first line like the
/// rest, and is dropped from the result.
pub open spec fn flush_pending(chunks: Seq<ChunkView>, p: Pending) -> Seq<ChunkView> {
    match p {
        Pending::Idle => chunks,
        Pending::Src(s) => flush_src(chunks, s),
        Pending::Com(k, buf) => chunks.push(ChunkView::Comment(k, unindent_of(buf))),
    }
}

/// A new source line joins an open source run behind a line ending.
pub open spec fn join_pending_src(p: Pending, s: Seq<char>) -> Seq<char> {
    match p {
        Pending::Src(prev) => prev + nl() + s,
        _ => s,
    }
}

/// A tagged line extends an open block of the same kind, or closes what is
/// open and starts a new block of kind `k` with text `t`.
pub open spec fn step_tagged_spec(chunks: Seq<ChunkView>, p: Pending, k: CommentKind, t: Seq<char>) -> (Seq<
    ChunkView,
>, Pending) {
    match p {
        Pending::Com(k0, buf) => if k0 == k {
            (chunks, Pending::Com(k, buf + nl() + t))
        } else {
            (chunks.push(ChunkView::Comment(k0, unindent_of(buf))), Pending::Com(k, nl() + t))
        },
        _ => (flush_pending(chunks, p), Pending::Com(k, nl() + t)),
    }
}

/// An untagged line closes any open comment block, joins its source part
/// `s` onto an open source run, and, if an inline comment trails the line,
/// closes the run and the comment (whose text loses its leading
/// whitespace).
pub open spec fn step_source_spec(
    chunks: Seq<ChunkView>,
    p: Pending,
    s: Seq<char>,
    icom: Option<(CommentKind, Seq<char>)>,
) -> (Seq<ChunkView>, Pending) {
    let chunks1 = match p {
        Pending::Com(k0, buf) => chunks.push(ChunkView::Comment(k0, unindent_of(buf))),
        _ => chunks,
    };
    let joined = join_pending_src(p, s);
    match icom {
        Some((ck, ctext)) => (
            flush_src(chunks1, joined).push(ChunkView::Comment(ck, strip_white(ctext))),
            Pending::Idle,
        ),
        None => (chunks1, Pending::Src(joined)),
    }
}

/// Consumes one line.  `None` is the one failure: a line whose final
/// backslash escapes nothing.
pub open spec fn lex_step(st: LexState, l: Seq<char>) -> Option<LexState> {
    let pos2 = st.pos + l.len() + 1;
    match line_kind(l) {
        Some(k) => {
            let (c2, p2) = step_tagged_spec(st.chunks, st.pending, k, sol_text(l));
            Some(LexState { chunks: c2, pending: p2, pos: pos2 })
        }
        None => match split_src(l) {
            None => None,
            Some((s, icom)) => {
                let (c2, p2) = step_source_spec(st.chunks, st.pending, s, icom);
                Some(LexState { chunks: c2, pending: p2, pos: pos2 })
            }
        },
    }
}

/// The outcome of folding lines: a state, or the offset of the line where
/// lexing failed.
pub enum LexOut {
    Good(LexState),
    Fail(int),
}

/// Folds `lex_step` over the remaining lines.
pub open spec fn lex_from(st: LexState, lines: Seq<Seq<char>>) -> LexOut
    decreases lines.len(),
{
    if lines.len() == 0 {
        LexOut::Good(st)
    } else {
        match lex_step(st, lines[0]) {
            None => LexOut::Fail(st.pos),
            Some(st2) => lex_from(st2, lines.drop_first()),
        }
    }
}

/// The outcome of lexing a whole document: its chunks, or the offset of the
/// unreadable remainder.
pub enum LexOutcome {
    Chunks(Seq<ChunkView>),
    Fail(int),
}

/// The whole lexer: split into lines, fold, close what is still open.
pub open spec fn lex_spec(s: Seq<char>) -> LexOutcome {
    match lex_from(init_state(), split_lines(s)) {
        LexOut::Fail(p) => LexOutcome::Fail(p),
        LexOut::Good(st) => LexOutcome::Chunks(flush_pending(st.chunks, st.pending)),
    }
}

// ---------------------------------------------------------------------------
// What the grammar guarantees.
// ---------------------------------------------------------------------------

/// The tag of each kind, as it stands in the document.
pub open spec fn tag_seq(k: CommentKind) -> Seq<char> {
    match k {
        CommentKind::Directive => seq!['%', '%', '%'],
        CommentKind::Documentation => seq!['%', '%'],
        CommentKind::Preserved => seq!['%', '!'],
        CommentKind::Eol => seq!['%'],
    }
}

/// A line that, after its indentation, starts with the directive tag is
/// classified a directive — never documentation or an end-of-line comment,
/// though their tags are its prefixes.
pub proof fn lemma_tag_precedence(l: Seq<char>)
    requires
        ({
            let t = strip_hspace(l);
            t.len() >= 3 && t[0] == '%' && t[1] == '%' && t[2] == '%'
        }),
    ensures
        line_kind(l) == Some(CommentKind::Directive),
{
}

/// A line with no `%` carries no tag.
proof fn lemma_no_pct_no_kind(l: Seq<char>)
    requires
        forall|i: int| 0 <= i < l.len() ==> l[i] != '%',
    ensures
        line_kind(l) is None,
    decreases l.len(),
{
    if l.len() > 0 && is_hspace(l[0]) {
        lemma_no_pct_no_kind(l.drop_first());
        assert(strip_hspace(l) == strip_hspace(l.drop_first()));
    } else if l.len() > 0 {
        assert(strip_hspace(l) == l);
    }
}

/// A line with no `%` and no backslash is all source.
proof fn lemma_split_src_plain(l: Seq<char>)
    requires
        forall|i: int| 0 <= i < l.len() ==> l[i] != '%' && l[i] != '\\',
    ensures
        split_src(l) == Some((l, None::<(CommentKind, Seq<char>)>)),
    decreases l.len(),
{
    if l.len() > 0 {
        lemma_split_src_plain(l.skip(1));
        assert(seq![l[0]] + l.skip(1) =~= l);
    }
}

/// `s` up to a final line ending, if it has one.
pub open spec fn strip_last_nl(s: Seq<char>) -> Seq<char> {
    if s.len() > 0 && s[s.len() - 1] == '\n' {
        s.drop_last()
    } else {
        s
    }
}

/// Gathering plain text: with no `%` and no backslash anywhere in `s`, the
/// fold only extends the open source run, line by line.
proof fn lemma_no_comment_from(st: LexState, s: Seq<char>, p: Seq<char>)
    requires
        s.len() > 0,
        st.pending == Pending::Src(p),
        forall|i: int| 0 <= i < s.len() ==> s[i] != '%' && s[i] != '\\',
    ensures
        ({
            let out = lex_from(st, split_lines(s));
            out matches LexOut::Good(st2) && st2.chunks == st.chunks && st2.pending
                == Pending::Src(p + nl() + strip_last_nl(s))
        }),
    decreases s.len(),
{
    let j = first_nl(s);
    lemma_first_nl(s);
    let l1 = s.take(j);
    assert(forall|i: int| 0 <= i < l1.len() ==> l1[i] == s[i]);
    lemma_no_pct_no_kind(l1);
    lemma_split_src_plain(l1);
    let st2 = lex_step(st, l1)->Some_0;
    assert(st2.chunks == st.chunks);
    assert(st2.pending == Pending::Src(p + nl() + l1));
    if j == s.len() {
        assert(split_lines(s) =~= seq![s]);
        assert(l1 =~= s);
        assert((seq![s])[0] == s);
        assert((seq![s]).drop_first() =~= Seq::<Seq<char>>::empty());
        assert(strip_last_nl(s) == s);
        assert(lex_from(st2, (seq![s]).drop_first()) == LexOut::Good(st2));
        assert(lex_from(st, split_lines(s)) == LexOut::Good(st2));
    } else {
        let rest = s.skip(j + 1);
        assert(split_lines(s) == seq![l1] + split_lines(rest));
        assert((seq![l1] + split_lines(rest))[0] == l1);
        assert((seq![l1] + split_lines(rest)).drop_first() =~= split_lines(rest));
        if rest.len() == 0 {
            // the document ends right after this line's ending
            assert(split_lines(rest) =~= Seq::<Seq<char>>::empty());
            assert(lex_from(st2, split_lines(rest)) == LexOut::Good(st2));
            assert(lex_from(st, split_lines(s)) == LexOut::Good(st2));
            assert(s[s.len() - 1] == '\n');
            assert(strip_last_nl(s) =~= l1);
        } else {
            assert(forall|i: int| 0 <= i < rest.len() ==> rest[i] == s[j + 1 + i]);
            lemma_no_comment_from(st2, rest, p + nl() + l1);
            let out = lex_from(st2, split_lines(rest));
            let fin = out->Good_0;
            assert(fin.pending == Pending::Src((p + nl() + l1) + nl() + strip_last_nl(rest)));
            // joining the first line back on commutes with dropping a final
            // line ending
            if rest[rest.len() - 1] == '\n' {
                assert(s[s.len() - 1] == '\n');
                assert((p + nl() + l1) + nl() + strip_last_nl(rest) =~= p + nl() + strip_last_nl(
                    s,
                ));
            } else {
                assert(s[s.len() - 1] != '\n');
                assert((p + nl() + l1) + nl() + strip_last_nl(rest) =~= p + nl() + strip_last_nl(
                    s,
                ));
            }
            assert(lex_from(st, split_lines(s)) == out);
        }
    }
}

/// A document with no `%` and no backslash lexes to one source chunk:
/// itself, up to a final line ending — or to nothing when nothing is left.
pub proof fn lemma_lex_no_comment(s: Seq<char>)
    requires
        forall|i: int| 0 <= i < s.len() ==> s[i] != '%' && s[i] != '\\',
    ensures
        lex_spec(s) == LexOutcome::Chunks(
            if strip_last_nl(s).len() == 0 {
                Seq::<ChunkView>::empty()
            } else {
                seq![ChunkView::Source(strip_last_nl(s))]
            },
        ),
{
    if s.len() == 0 {
        assert(split_lines(s) =~= Seq::<Seq<char>>::empty());
        assert(lex_from(init_state(), split_lines(s)) == LexOut::Good(init_state()));
    } else {
        let j = first_nl(s);
        lemma_first_nl(s);
        let l1 = s.take(j);
        assert(forall|i: int| 0 <= i < l1.len() ==> l1[i] == s[i]);
        lemma_no_pct_no_kind(l1);
        lemma_split_src_plain(l1);
        let st2 = lex_step(init_state(), l1)->Some_0;
        assert(st2.chunks =~= Seq::<ChunkView>::empty());
        assert(st2.pending == Pending::Src(l1));
        if j == s.len() {
            assert(split_lines(s) =~= seq![s]);
            assert(l1 =~= s);
            assert((seq![s])[0] == s);
            assert((seq![s]).drop_first() =~= Seq::<Seq<char>>::empty());
            assert(lex_from(st2, (seq![s]).drop_first()) == LexOut::Good(st2));
            assert(lex_from(init_state(), split_lines(s)) == LexOut::Good(st2));
            assert(strip_last_nl(s) == s);
        } else {
            let rest = s.skip(j + 1);
            assert(split_lines(s) == seq![l1] + split_lines(rest));
            assert((seq![l1] + split_lines(rest))[0] == l1);
            assert((seq![l1] + split_lines(rest)).drop_first() =~= split_lines(rest));
            if rest.len() == 0 {
                assert(split_lines(rest) =~= Seq::<Seq<char>>::empty());
                assert(lex_from(st2, split_lines(rest)) == LexOut::Good(st2));
                assert(lex_from(init_state(), split_lines(s)) == LexOut::Good(st2));
                assert(s[s.len() - 1] == '\n');
                assert(strip_last_nl(s) =~= l1);
            } else {
                assert(forall|i: int| 0 <= i < rest.len() ==> rest[i] == s[j + 1 + i]);
                lemma_no_comment_from(st2, rest, l1);
                let out = lex_from(st2, split_lines(rest));
                let fin = out->Good_0;
                assert(fin.chunks =~= Seq::<ChunkView>::empty());
                if rest[rest.len() - 1] == '\n' {
                    assert(s[s.len() - 1] == '\n');
                    assert(l1 + nl() + strip_last_nl(rest) =~= strip_last_nl(s));
                } else {
                    assert(s[s.len() - 1] != '\n');
                    assert(l1 + nl() + strip_last_nl(rest) =~= strip_last_nl(s));
                }
                assert(fin.pending == Pending::Src(strip_last_nl(s)));
                assert(lex_from(init_state(), split_lines(s)) == out);
            }
        }
    }
}

/// A line of plain text around one escaped `%` carries no tag: its first
/// non-blank character is ordinary text or the backslash itself.
proof fn lemma_line_kind_escaped(a: Seq<char>, b: Seq<char>)
    requires
        forall|i: int| 0 <= i < a.len() ==> a[i] != '%' && a[i] != '\\',
    ensures
        line_kind(a + seq!['\\', '%'] + b) is None,
    decreases a.len(),
{
    let l = a + seq!['\\', '%'] + b;
    if a.len() > 0 && is_hspace(a[0]) {
        lemma_line_kind_escaped(a.drop_first(), b);
        assert(l.drop_first() =~= a.drop_first() + seq!['\\', '%'] + b);
        assert(strip_hspace(l) == strip_hspace(l.drop_first()));
    } else {
        if a.len() > 0 {
            assert(l[0] == a[0]);
        } else {
            assert(l[0] == '\\');
        }
        assert(!is_hspace(l[0]));
        assert(strip_hspace(l) == l);
        assert(l[0] != '%');
    }
}

/// Such a line is one source run: the escape swallows the `%`.
proof fn lemma_split_src_escaped(a: Seq<char>, b: Seq<char>)
    requires
        forall|i: int| 0 <= i < a.len() ==> a[i] != '%' && a[i] != '\\',
        forall|i: int| 0 <= i < b.len() ==> b[i] != '%' && b[i] != '\\',
    ensures
        split_src(a + seq!['\\', '%'] + b) == Some(
            (a + seq!['\\', '%'] + b, None::<(CommentKind, Seq<char>)>),
        ),
    decreases a.len(),
{
    let l = a + seq!['\\', '%'] + b;
    if a.len() == 0 {
        assert(l[0] == '\\');
        assert(l.len() >= 2);
        assert(l.skip(2) =~= b);
        lemma_split_src_plain(b);
        assert(l.take(2) + b =~= l);
    } else {
        assert(l[0] == a[0]);
        lemma_split_src_escaped(a.drop_first(), b);
        assert(l.skip(1) =~= a.drop_first() + seq!['\\', '%'] + b);
        assert(seq![l[0]] + l.skip(1) =~= l);
    }
}

/// Escape preservation: a document of one line of plain text around an
/// escaped `%` lexes to a single source chunk holding the backslash and
/// the `%` verbatim; the escape never starts a comment.
pub proof fn lemma_escape_preserved(a: Seq<char>, b: Seq<char>)
    requires
        forall|i: int| 0 <= i < a.len() ==> a[i] != '%' && a[i] != '\\' && a[i] != '\n',
        forall|i: int| 0 <= i < b.len() ==> b[i] != '%' && b[i] != '\\' && b[i] != '\n',
    ensures
        lex_spec(a + seq!['\\', '%'] + b) == LexOutcome::Chunks(
            seq![ChunkView::Source(a + seq!['\\', '%'] + b)],
        ),
{
    let l = a + seq!['\\', '%'] + b;
    assert forall|i: int| 0 <= i < l.len() implies l[i] != '\n' by {
        if i < a.len() {
            assert(l[i] == a[i]);
        } else if i < a.len() + 2 {
            assert(l[i] == seq!['\\', '%'][i - a.len()]);
        } else {
            assert(l[i] == b[i - a.len() - 2]);
        }
    }
    lemma_split_lines_single(l);
    lemma_line_kind_escaped(a, b);
    lemma_split_src_escaped(a, b);
    let st1 = lex_step(init_state(), l)->Some_0;
    assert(st1.chunks =~= Seq::<ChunkView>::empty());
    assert(st1.pending == Pending::Src(l));
    assert((seq![l])[0] == l);
    assert((seq![l]).drop_first() =~= Seq::<Seq<char>>::empty());
    assert(lex_from(st1, (seq![l]).drop_first()) == LexOut::Good(st1));
    assert(lex_from(init_state(), seq![l]) == LexOut::Good(st1));
    assert(flush_pending(st1.chunks, st1.pending) =~= seq![ChunkView::Source(l)]);
}

/// A line of one leading tag carries that tag's kind, and its text is what
/// follows the tag.
proof fn lemma_tag_line(k: CommentKind, t: Seq<char>)
    requires
        match k {
            CommentKind::Directive => true,
            CommentKind::Documentation => t.len() == 0 || t[0] != '%',
            CommentKind::Preserved => true,
            CommentKind::Eol => t.len() == 0 || (t[0] != '%' && t[0] != '!'),
        },
    ensures
        line_kind(tag_seq(k) + t) == Some(k),
        sol_text(tag_seq(k) + t) == t,
{
    let l = tag_seq(k) + t;
    assert(l[0] == '%');
    assert(!is_hspace(l[0]));
    assert(strip_hspace(l) == l);
    match k {
        CommentKind::Directive => {
            assert(l[1] == '%' && l[2] == '%');
        }
        CommentKind::Documentation => {
            assert(l[1] == '%');
            assert(l.len() >= 3 ==> l[2] == t[0]);
        }
        CommentKind::Preserved => {
            assert(l[1] == '!');
        }
        CommentKind::Eol => {
            assert(l.len() >= 2 ==> l[1] == t[0]);
        }
    }
    assert(l.skip(tag_len(k)) =~= t);
}

/// Splitting one leading line off a document.
proof fn lemma_split_lines_cons(l: Seq<char>, rest: Seq<char>)
    requires
        forall|i: int| 0 <= i < l.len() ==> l[i] != '\n',
    ensures
        split_lines(l + nl() + rest) == seq![l] + split_lines(rest),
{
    let s = l + nl() + rest;
    assert forall|i: int| 0 <= i < l.len() implies s[i] != '\n' by {
        assert(s[i] == l[i]);
    }
    assert(s[l.len() as int] == '\n');
    lemma_first_nl_is(s, l.len() as int);
    assert(s.take(l.len() as int) =~= l);
    assert(s.skip(l.len() as int + 1) =~= rest);
}

/// A document of one line with no line ending is that line alone.
proof fn lemma_split_lines_single(l: Seq<char>)
    requires
        l.len() > 0,
        forall|i: int| 0 <= i < l.len() ==> l[i] != '\n',
    ensures
        split_lines(l) == seq![l],
{
    lemma_first_nl_is(l, l.len() as int);
}

/// Two consecutive lines of one start-of-line tag collapse into a single
/// comment of that kind: both texts, each behind a line ending, handed as
/// one to the indentation normalizer.
pub proof fn lemma_block_merge(k: CommentKind, a: Seq<char>, b: Seq<char>)
    requires
        k == CommentKind::Directive || k == CommentKind::Documentation,
        forall|i: int| 0 <= i < a.len() ==> a[i] != '\n',
        forall|i: int| 0 <= i < b.len() ==> b[i] != '\n',
        k == CommentKind::Documentation ==> (a.len() == 0 || a[0] != '%') && (b.len() == 0 || b[0]
            != '%'),
    ensures
        lex_spec(tag_seq(k) + a + nl() + tag_seq(k) + b) == LexOutcome::Chunks(
            seq![ChunkView::Comment(k, unindent_of(nl() + a + nl() + b))],
        ),
{
    let l1 = tag_seq(k) + a;
    let l2 = tag_seq(k) + b;
    let s = tag_seq(k) + a + nl() + tag_seq(k) + b;
    assert(s =~= l1 + nl() + l2);
    assert(forall|i: int| 0 <= i < l1.len() ==> l1[i] == s[i]);
    assert forall|i: int| 0 <= i < l1.len() implies l1[i] != '\n' by {
        if i < tag_seq(k).len() {
            assert(l1[i] == tag_seq(k)[i]);
        } else {
            assert(l1[i] == a[i - tag_seq(k).len()]);
        }
    }
    assert forall|i: int| 0 <= i < l2.len() implies l2[i] != '\n' by {
        if i < tag_seq(k).len() {
            assert(l2[i] == tag_seq(k)[i]);
        } else {
            assert(l2[i] == b[i - tag_seq(k).len()]);
        }
    }
    lemma_split_lines_cons(l1, l2);
    lemma_split_lines_single(l2);
    assert(split_lines(s) == seq![l1] + seq![l2]);
    lemma_tag_line(k, a);
    lemma_tag_line(k, b);
    let st1 = lex_step(init_state(), l1)->Some_0;
    assert(st1.chunks =~= Seq::<ChunkView>::empty());
    assert(st1.pending == Pending::Com(k, nl() + a));
    let st2 = lex_step(st1, l2)->Some_0;
    assert(st2.chunks =~= Seq::<ChunkView>::empty());
    assert(st2.pending == Pending::Com(k, (nl() + a) + nl() + b));
    let lines = seq![l1] + seq![l2];
    assert(lines[0] == l1);
    assert(lines.drop_first() =~= seq![l2]);
    assert((seq![l2])[0] == l2);
    assert((seq![l2]).drop_first() =~= Seq::<Seq<char>>::empty());
    assert(lex_from(st2, (seq![l2]).drop_first()) == LexOut::Good(st2));
    assert(lex_from(st1, seq![l2]) == LexOut::Good(st2));
    assert(lex_from(init_state(), lines) == LexOut::Good(st2));
    assert((nl() + a) + nl() + b =~= nl() + a + nl() + b);
    assert(flush_pending(st2.chunks, st2.pending) =~= seq![
        ChunkView::Comment(k, unindent_of(nl() + a + nl() + b)),
    ]);
}

/// An intervening end-of-line comment splits what would otherwise be one
/// block: each tagged line becomes a comment of its own, the discarded
/// line an end-of-line comment between them.
pub proof fn lemma_block_split(k: CommentKind, a: Seq<char>, c: Seq<char>, b: Seq<char>)
    requires
        k == CommentKind::Directive || k == CommentKind::Documentation,
        forall|i: int| 0 <= i < a.len() ==> a[i] != '\n',
        forall|i: int| 0 <= i < b.len() ==> b[i] != '\n',
        forall|i: int| 0 <= i < c.len() ==> c[i] != '\n',
        c.len() == 0 || (c[0] != '%' && c[0] != '!'),
        k == CommentKind::Documentation ==> (a.len() == 0 || a[0] != '%') && (b.len() == 0 || b[0]
            != '%'),
    ensures
        lex_spec(tag_seq(k) + a + nl() + tag_seq(CommentKind::Eol) + c + nl() + tag_seq(k) + b)
            == LexOutcome::Chunks(
            seq![
                ChunkView::Comment(k, unindent_of(nl() + a)),
                ChunkView::Comment(CommentKind::Eol, unindent_of(nl() + c)),
                ChunkView::Comment(k, unindent_of(nl() + b)),
            ],
        ),
{
    let l1 = tag_seq(k) + a;
    let l2 = tag_seq(CommentKind::Eol) + c;
    let l3 = tag_seq(k) + b;
    let s = tag_seq(k) + a + nl() + tag_seq(CommentKind::Eol) + c + nl() + tag_seq(k) + b;
    assert(s =~= l1 + nl() + (l2 + nl() + l3));
    assert forall|i: int| 0 <= i < l1.len() implies l1[i] != '\n' by {
        if i < tag_seq(k).len() {
            assert(l1[i] == tag_seq(k)[i]);
        } else {
            assert(l1[i] == a[i - tag_seq(k).len()]);
        }
    }
    assert forall|i: int| 0 <= i < l2.len() implies l2[i] != '\n' by {
        if i < 1 {
            assert(l2[i] == tag_seq(CommentKind::Eol)[i]);
        } else {
            assert(l2[i] == c[i - 1]);
        }
    }
    assert forall|i: int| 0 <= i < l3.len() implies l3[i] != '\n' by {
        if i < tag_seq(k).len() {
            assert(l3[i] == tag_seq(k)[i]);
        } else {
            assert(l3[i] == b[i - tag_seq(k).len()]);
        }
    }
    lemma_split_lines_cons(l1, l2 + nl() + l3);
    lemma_split_lines_cons(l2, l3);
    lemma_split_lines_single(l3);
    assert(split_lines(s) == seq![l1] + (seq![l2] + seq![l3]));
    lemma_tag_line(k, a);
    lemma_tag_line(CommentKind::Eol, c);
    lemma_tag_line(k, b);
    assert(k != CommentKind::Eol);
    let st1 = lex_step(init_state(), l1)->Some_0;
    assert(st1.chunks =~= Seq::<ChunkView>::empty());
    assert(st1.pending == Pending::Com(k, nl() + a));
    let st2 = lex_step(st1, l2)->Some_0;
    assert(st2.chunks =~= Seq::<ChunkView>::empty().push(
        ChunkView::Comment(k, unindent_of(nl() + a)),
    ));
    assert(st2.pending == Pending::Com(CommentKind::Eol, nl() + c));
    let st3 = lex_step(st2, l3)->Some_0;
    assert(st3.chunks == st2.chunks.push(
        ChunkView::Comment(CommentKind::Eol, unindent_of(nl() + c)),
    ));
    assert(st3.pending == Pending::Com(k, nl() + b));
    let lines = seq![l1] + (seq![l2] + seq![l3]);
    assert(lines[0] == l1);
    assert(lines.drop_first() =~= seq![l2] + seq![l3]);
    assert((seq![l2] + seq![l3])[0] == l2);
    assert((seq![l2] + seq![l3]).drop_first() =~= seq![l3]);
    assert((seq![l3])[0] == l3);
    assert((seq![l3]).drop_first() =~= Seq::<Seq<char>>::empty());
    assert(lex_from(st3, (seq![l3]).drop_first()) == LexOut::Good(st3));
    assert(lex_from(st2, seq![l3]) == LexOut::Good(st3));
    assert(lex_from(st1, seq![l2] + seq![l3]) == LexOut::Good(st3));
    assert(lex_from(init_state(), lines) == LexOut::Good(st3));
    assert(flush_pending(st3.chunks, st3.pending) =~= seq![
        ChunkView::Comment(k, unindent_of(nl() + a)),
        ChunkView::Comment(CommentKind::Eol, unindent_of(nl() + c)),
        ChunkView::Comment(k, unindent_of(nl() + b)),
    ]);
}

// ---------------------------------------------------------------------------
// Collapsing a whole comment block.
// ---------------------------------------------------------------------------

// A start-of-line comment block, as a list of items: each item one tagged
// line, its kind and the text behind its tag.

/// A block line is well formed when its text holds no line ending and does
/// not lengthen its own tag: text after `%%` must not open with `%`, text
/// after `%` must not open with `%` or `!`.
pub open spec fn block_item_wf(k: CommentKind, t: Seq<char>) -> bool {
    &&& forall|i: int| 0 <= i < t.len() ==> t[i] != '\n'
    &&& match k {
        CommentKind::Directive => true,
        CommentKind::Documentation => t.len() == 0 || t[0] != '%',
        CommentKind::Preserved => true,
        CommentKind::Eol => t.len() == 0 || (t[0] != '%' && t[0] != '!'),
    }
}

/// The line an item stands on: its tag, then its text.
pub open spec fn block_line(it: (CommentKind, Seq<char>)) -> Seq<char> {
    tag_seq(it.0) + it.1
}

/// The block as document text: its lines joined by line endings.
pub open spec fn block_doc(items: Seq<(CommentKind, Seq<char>)>) -> Seq<char>
    decreases items.len(),
{
    if items.len() == 0 {
        Seq::empty()
    } else if items.len() == 1 {
        block_line(items[0])
    } else {
        block_line(items[0]) + nl() + block_doc(items.drop_first())
    }
}

/// The block's lines, one per item.
pub open spec fn block_lines(items: Seq<(CommentKind, Seq<char>)>) -> Seq<Seq<char>> {
    items.map_values(|it: (CommentKind, Seq<char>)| block_line(it))
}

/// The length of the maximal leading run of items of one kind.
pub open spec fn run_len(items: Seq<(CommentKind, Seq<char>)>) -> int
    decreases items.len(),
{
    if items.len() == 0 {
        0
    } else if items.len() == 1 {
        1
    } else if items[1].0 == items[0].0 {
        1 + run_len(items.drop_first())
    } else {
        1
    }
}

proof fn lemma_run_len(items: Seq<(CommentKind, Seq<char>)>)
    requires
        items.len() > 0,
    ensures
        1 <= run_len(items) <= items.len(),
        forall|i: int| 0 <= i < run_len(items) ==> (#[trigger] items[i]).0 == items[0].0,
        run_len(items) < items.len() ==> items[run_len(items)].0 != items[0].0,
    decreases items.len(),
{
    if items.len() > 1 && items[1].0 == items[0].0 {
        lemma_run_len(items.drop_first());
        assert forall|i: int| 0 <= i < run_len(items) implies (#[trigger] items[i]).0 == items[0].0 by {
            if i > 0 {
                assert(items.drop_first()[i - 1].0 == items.drop_first()[0].0);
            }
        }
        if run_len(items) < items.len() {
            assert(items.drop_first()[run_len(items) - 1].0 != items.drop_first()[0].0);
        }
    }
}

/// The buffer a run's merge hands the indentation normalizer: a line
/// ending before each item's text.
pub open spec fn block_buf(items: Seq<(CommentKind, Seq<char>)>) -> Seq<char>
    decreases items.len(),
{
    if items.len() == 0 {
        Seq::empty()
    } else {
        nl() + items[0].1 + block_buf(items.drop_first())
    }
}

/// Collapsing a block: each maximal run of adjacent same-kind lines
/// becomes one comment of that kind, its text the run's texts behind line
/// endings, normalized as one; kinds and relative order are kept.
pub open spec fn collapse_comments(items: Seq<(CommentKind, Seq<char>)>) -> Seq<ChunkView>
    decreases items.len(),
{
    if items.len() == 0 {
        Seq::empty()
    } else {
        let r0 = run_len(items);
        let r = if 1 <= r0 <= items.len() {
            r0
        } else {
            1
        };
        seq![ChunkView::Comment(items[0].0, unindent_of(block_buf(items.take(r))))]
            + collapse_comments(items.skip(r))
    }
}

/// A block line holds no line ending.
proof fn lemma_block_line_no_nl(it: (CommentKind, Seq<char>))
    requires
        block_item_wf(it.0, it.1),
    ensures
        block_line(it).len() > 0,
        forall|i: int| 0 <= i < block_line(it).len() ==> block_line(it)[i] != '\n',
{
    let l = block_line(it);
    assert forall|i: int| 0 <= i < l.len() implies l[i] != '\n' by {
        if i < tag_seq(it.0).len() {
            assert(l[i] == tag_seq(it.0)[i]);
        } else {
            assert(l[i] == it.1[i - tag_seq(it.0).len()]);
        }
    }
}

/// Splitting the block text recovers exactly the block's lines.
proof fn lemma_block_doc_lines(items: Seq<(CommentKind, Seq<char>)>)
    requires
        items.len() > 0,
        forall|i: int| 0 <= i < items.len() ==> #[trigger] block_item_wf(items[i].0, items[i].1),
    ensures
        split_lines(block_doc(items)) == block_lines(items),
    decreases items.len(),
{
    let l0 = block_line(items[0]);
    lemma_block_line_no_nl(items[0]);
    if items.len() == 1 {
        lemma_split_lines_single(l0);
        assert(block_lines(items) =~= seq![l0]);
    } else {
        assert forall|i: int| 0 <= i < items.drop_first().len() implies #[trigger] block_item_wf(
            items.drop_first()[i].0,
            items.drop_first()[i].1,
        ) by {
            assert(items.drop_first()[i] == items[i + 1]);
        }
        lemma_block_doc_lines(items.drop_first());
        lemma_split_lines_cons(l0, block_doc(items.drop_first()));
        assert(block_lines(items) =~= seq![l0] + block_lines(items.drop_first()));
    }
}

/// Folding a list of lines splits over concatenation, as long as the first
/// part goes through.
proof fn lemma_lex_from_append(st: LexState, a: Seq<Seq<char>>, b: Seq<Seq<char>>)
    ensures
        lex_from(st, a) matches LexOut::Good(stA) ==> lex_from(st, a + b) == lex_from(stA, b),
    decreases a.len(),
{
    if a.len() == 0 {
        assert(a + b =~= b);
    } else {
        match lex_step(st, a[0]) {
            None => {}
            Some(st1) => {
                lemma_lex_from_append(st1, a.drop_first(), b);
                assert((a + b)[0] == a[0]);
                assert((a + b).drop_first() =~= a.drop_first() + b);
                assert((a + b).len() > 0);
            }
        }
    }
}

/// Lines of the kind already open only grow the open buffer.
proof fn lemma_run_extend(st: LexState, k0: CommentKind, buf: Seq<char>, items: Seq<(CommentKind, Seq<char>)>)
    requires
        st.pending == Pending::Com(k0, buf),
        forall|i: int| 0 <= i < items.len() ==> #[trigger] block_item_wf(items[i].0, items[i].1),
        forall|i: int| 0 <= i < items.len() ==> (#[trigger] items[i]).0 == k0,
    ensures
        ({
            let out = lex_from(st, block_lines(items));
            &&& out matches LexOut::Good(st2)
            &&& st2.chunks == st.chunks
            &&& st2.pending == Pending::Com(k0, buf + block_buf(items))
        }),
    decreases items.len(),
{
    if items.len() == 0 {
        assert(block_lines(items) =~= Seq::<Seq<char>>::empty());
        assert(buf + block_buf(items) =~= buf);
        assert(st.pending == Pending::Com(k0, buf + block_buf(items)));
    } else {
        let l0 = block_line(items[0]);
        assert(block_item_wf(items[0].0, items[0].1));
        lemma_tag_line(k0, items[0].1);
        let st1 = lex_step(st, l0)->Some_0;
        assert(st1.chunks == st.chunks);
        assert(st1.pending == Pending::Com(k0, buf + nl() + items[0].1));
        let rest = items.drop_first();
        assert forall|i: int| 0 <= i < rest.len() implies #[trigger] block_item_wf(
            rest[i].0,
            rest[i].1,
        ) by {
            assert(rest[i] == items[i + 1]);
            assert(block_item_wf(items[i + 1].0, items[i + 1].1));
        }
        assert forall|i: int| 0 <= i < rest.len() implies (#[trigger] rest[i]).0 == k0 by {
            assert(rest[i] == items[i + 1]);
            assert(items[i + 1].0 == k0);
        }
        lemma_run_extend(st1, k0, buf + nl() + items[0].1, rest);
        assert(block_lines(items)[0] == l0);
        assert(block_lines(items).drop_first() =~= block_lines(items.drop_first()));
        assert(block_lines(items).len() > 0);
        assert(lex_from(st, block_lines(items)) == lex_from(st1, block_lines(items.drop_first())));
        assert((buf + nl() + items[0].1) + block_buf(items.drop_first()) =~= buf + block_buf(
            items,
        ));
    }
}

/// The fold over a whole block closes the runs in order: once everything
/// open is flushed, the chunks grow by exactly the collapsed block.
proof fn lemma_collapse_from(st: LexState, items: Seq<(CommentKind, Seq<char>)>)
    requires
        items.len() > 0,
        forall|i: int| 0 <= i < items.len() ==> #[trigger] block_item_wf(items[i].0, items[i].1),
        st.pending is Idle || (st.pending is Com && st.pending->Com_0 != items[0].0),
    ensures
        ({
            let out = lex_from(st, block_lines(items));
            &&& out matches LexOut::Good(st2)
            &&& flush_pending(st2.chunks, st2.pending) == flush_pending(st.chunks, st.pending)
                + collapse_comments(items)
        }),
    decreases items.len(),
{
    lemma_run_len(items);
    let r = run_len(items);
    let k = items[0].0;
    let first = items.take(r);
    let rest = items.skip(r);
    assert(first[0] == items[0]);
    // the first line opens a fresh block of kind `k`
    let l0 = block_line(items[0]);
    assert(block_item_wf(items[0].0, items[0].1));
    lemma_tag_line(k, items[0].1);
    let st1 = lex_step(st, l0)->Some_0;
    assert(st1.chunks == flush_pending(st.chunks, st.pending));
    assert(st1.pending == Pending::Com(k, nl() + items[0].1));
    // the rest of the run only grows the buffer
    let first_rest = first.drop_first();
    assert forall|i: int| 0 <= i < first_rest.len() implies #[trigger] block_item_wf(
        first_rest[i].0,
        first_rest[i].1,
    ) by {
        assert(first_rest[i] == items[i + 1]);
        assert(block_item_wf(items[i + 1].0, items[i + 1].1));
    }
    assert forall|i: int| 0 <= i < first_rest.len() implies (#[trigger] first_rest[i]).0 == k by {
        assert(first_rest[i] == items[i + 1]);
        assert(items[i + 1].0 == items[0].0);
    }
    lemma_run_extend(st1, k, nl() + items[0].1, first_rest);
    let stA = lex_from(st1, block_lines(first_rest))->Good_0;
    assert(stA.chunks == st1.chunks);
    assert((nl() + items[0].1) + block_buf(first_rest) =~= block_buf(first));
    assert(stA.pending == Pending::Com(k, block_buf(first)));
    // splice the run's lines back onto the whole block's lines
    assert(block_lines(first) =~= seq![l0] + block_lines(first_rest));
    assert((seq![l0] + block_lines(first_rest))[0] == l0);
    assert((seq![l0] + block_lines(first_rest)).drop_first() =~= block_lines(first_rest));
    assert(lex_from(st, block_lines(first)) == lex_from(st1, block_lines(first_rest)));
    assert(lex_from(st, block_lines(first)) == LexOut::Good(stA));
    assert(block_lines(items) =~= block_lines(first) + block_lines(rest));
    lemma_lex_from_append(st, block_lines(first), block_lines(rest));
    assert(lex_from(st, block_lines(items)) == lex_from(stA, block_lines(rest)));
    let chunk0 = ChunkView::Comment(k, unindent_of(block_buf(first)));
    assert(collapse_comments(items) == seq![chunk0] + collapse_comments(rest));
    if rest.len() == 0 {
        assert(block_lines(rest) =~= Seq::<Seq<char>>::empty());
        assert(lex_from(stA, block_lines(rest)) == LexOut::Good(stA));
        assert(collapse_comments(rest) =~= Seq::<ChunkView>::empty());
        assert(flush_pending(stA.chunks, stA.pending) =~= flush_pending(st.chunks, st.pending)
            + collapse_comments(items));
    } else {
        assert(rest[0] == items[r]);
        assert(rest[0].0 != k);
        assert forall|i: int| 0 <= i < rest.len() implies #[trigger] block_item_wf(
            rest[i].0,
            rest[i].1,
        ) by {
            assert(rest[i] == items[r + i]);
        }
        lemma_collapse_from(stA, rest);
        let st2 = lex_from(stA, block_lines(rest))->Good_0;
        assert(flush_pending(st2.chunks, st2.pending) == flush_pending(stA.chunks, stA.pending)
            + collapse_comments(rest));
        assert(flush_pending(stA.chunks, stA.pending) =~= flush_pending(st.chunks, st.pending)
            + seq![chunk0]);
        assert((flush_pending(st.chunks, st.pending) + seq![chunk0]) + collapse_comments(rest)
            =~= flush_pending(st.chunks, st.pending) + (seq![chunk0] + collapse_comments(rest)));
    }
}

/// Block collapse, in full: a document that is one start-of-line comment
/// block — any number of lines, any mix of kinds — lexes to exactly the
/// collapsed block: one comment per maximal run of adjacent same-kind
/// lines, texts joined behind line endings and normalized, order kept.
pub proof fn lemma_block_collapse(items: Seq<(CommentKind, Seq<char>)>)
    requires
        items.len() > 0,
        forall|i: int| 0 <= i < items.len() ==> #[trigger] block_item_wf(items[i].0, items[i].1),
    ensures
        lex_spec(block_doc(items)) == LexOutcome::Chunks(collapse_comments(items)),
{
    lemma_block_doc_lines(items);
    lemma_collapse_from(init_state(), items);
    let st2 = lex_from(init_state(), block_lines(items))->Good_0;
    assert(flush_pending(st2.chunks, st2.pending) == flush_pending(
        Seq::<ChunkView>::empty(),
        Pending::Idle,
    ) + collapse_comments(items));
    assert(Seq::<ChunkView>::empty() + collapse_comments(items) =~= collapse_comments(items));
}

// ---------------------------------------------------------------------------
// The lexer itself.
// ---------------------------------------------------------------------------

/// What the running lexer holds between lines; mirrors `Pending`.
enum Pend {
    Idle,
    Src(Vec<char>),
    Com(CommentKind, Vec<char>),
}

spec fn pend_view(p: Pend) -> Pending {
    match p {
        Pend::Idle => Pending::Idle,
        Pend::Src(s) => Pending::Src(s@),
        Pend::Com(k, buf) => Pending::Com(k, buf@),
    }
}

spec fn icom_view(c: Option<(CommentKind, Vec<char>)>) -> Option<(CommentKind, Seq<char>)> {
    match c {
        None => None,
        Some((k, t)) => Some((k, t@)),
    }
}

proof fn lemma_chunks_view_push(cs: Seq<Chunk>, c: Chunk)
    ensures
        chunks_view(cs.push(c)) == chunks_view(cs).push(c@),
{
    assert(chunks_view(cs.push(c)) =~= chunks_view(cs).push(c@));
}

/// A position that is preceded by no line ending, and stands at one or at
/// the end, is the first line ending.
proof fn lemma_first_nl_is(t: Seq<char>, j: int)
    requires
        0 <= j <= t.len(),
        forall|i: int| 0 <= i < j ==> t[i] != '\n',
        j == t.len() || t[j] == '\n',
    ensures
        first_nl(t) == j,
    decreases j,
{
    if j > 0 {
        lemma_first_nl_is(t.drop_first(), j - 1);
    }
}

/// Closes whatever `pend` holds, pushing at most one chunk.
fn flush_pend(chunks: &mut Vec<Chunk>, pend: Pend)
    ensures
        chunks_view(final(chunks)@) == flush_pending(chunks_view(old(chunks)@), pend_view(pend)),
{
    match pend {
        Pend::Idle => {}
        Pend::Src(s) => {
            if s.len() > 0 {
                let text = string_from_chars(&s);
                let ghost cs0 = chunks@;
                chunks.push(Chunk::Source(text));
                proof {
                    lemma_chunks_view_push(cs0, Chunk::Source(text));
                }
            }
        }
        Pend::Com(k, buf) => {
            let btext = string_from_chars(&buf);
            let text = unindent_str(btext.as_str());
            let ghost cs0 = chunks@;
            let c = Chunk::Comment(Comment { text, kind: k });
            chunks.push(c);
            proof {
                lemma_chunks_view_push(cs0, c);
            }
        }
    }
}

/// Starts a fresh comment buffer: a line ending, then `text`.
fn new_com_buf(text: &Vec<char>) -> (r: Vec<char>)
    ensures
        r@ == nl() + text@,
{
    let mut buf: Vec<char> = Vec::new();
    buf.push('\n');
    push_all(&mut buf, text);
    proof {
        assert(buf@ =~= nl() + text@);
    }
    buf
}

/// Consumes a tagged line of kind `k` with tag-stripped text `text`.
fn step_tagged(chunks: &mut Vec<Chunk>, pend: Pend, k: CommentKind, text: &Vec<char>) -> (r: Pend)
    ensures
        ({
            let (c2, p2) = step_tagged_spec(chunks_view(old(chunks)@), pend_view(pend), k, text@);
            chunks_view(final(chunks)@) == c2 && pend_view(r) == p2
        }),
{
    match pend {
        Pend::Com(k0, mut buf) => {
            if k0 == k {
                let ghost buf0 = buf@;
                buf.push('\n');
                push_all(&mut buf, text);
                proof {
                    assert(buf@ =~= buf0 + nl() + text@);
                }
                Pend::Com(k, buf)
            } else {
                flush_pend(chunks, Pend::Com(k0, buf));
                Pend::Com(k, new_com_buf(text))
            }
        }
        other => {
            flush_pend(chunks, other);
            Pend::Com(k, new_com_buf(text))
        }
    }
}

/// Consumes an untagged line already split into its source part and its
/// optional inline comment.
fn step_source(
    chunks: &mut Vec<Chunk>,
    pend: Pend,
    src: Vec<char>,
    icom: Option<(CommentKind, Vec<char>)>,
) -> (r: Pend)
    ensures
        ({
            let (c2, p2) = step_source_spec(
                chunks_view(old(chunks)@),
                pend_view(pend),
                src@,
                icom_view(icom),
            );
            chunks_view(final(chunks)@) == c2 && pend_view(r) == p2
        }),
{
    let ghost pend0 = pend_view(pend);
    let pend1 = match pend {
        Pend::Com(k0, buf) => {
            flush_pend(chunks, Pend::Com(k0, buf));
            Pend::Idle
        }
        other => other,
    };
    let joined: Vec<char> = match pend1 {
        Pend::Src(mut prev) => {
            let ghost prev0 = prev@;
            prev.push('\n');
            push_all(&mut prev, &src);
            proof {
                assert(prev@ =~= prev0 + nl() + src@);
            }
            prev
        }
        _ => src,
    };
    proof {
        assert(joined@ == join_pending_src(pend0, src@));
    }
    match icom {
        Some((ck, ctext)) => {
            if joined.len() > 0 {
                let text = string_from_chars(&joined);
                let ghost cs0 = chunks@;
                chunks.push(Chunk::Source(text));
                proof {
                    lemma_chunks_view_push(cs0, Chunk::Source(text));
                }
            }
            let trimmed = trim_white_start(&ctext);
            let text = string_from_chars(&trimmed);
            let ghost cs1 = chunks@;
            let c = Chunk::Comment(Comment { text, kind: ck });
            chunks.push(c);
            proof {
                lemma_chunks_view_push(cs1, c);
            }
            Pend::Idle
        }
        None => Pend::Src(joined),
    }
}

/// Classifies one line: the kind of its start-of-line tag, if it has one,
/// and the index where the text behind the tag begins.
#[verifier::rlimit(30)]
fn classify_line(line: &Vec<char>) -> (r: Option<(CommentKind, usize)>)
    ensures
        match r {
            Some((k, ts)) => {
                &&& line_kind(line@) == Some(k)
                &&& ts <= line@.len()
                &&& line@.skip(ts as int) == sol_text(line@)
            },
            None => line_kind(line@) is None,
        },
{
    let k0 = skip_hspace(line, 0);
    proof {
        assert(line@.skip(0) == line@);
    }
    let ghost t = strip_hspace(line@);
    let n = line.len();
    if k0 < n && line[k0] == '%' {
        proof {
            assert(t[0] == line@[k0 as int]);
        }
        if k0 + 1 < n && line[k0 + 1] == '%' {
            proof {
                assert(t[1] == line@[k0 + 1]);
            }
            if k0 + 2 < n && line[k0 + 2] == '%' {
                proof {
                    assert(t[2] == line@[k0 + 2]);
                    assert(line@.skip(k0 + 3) =~= strip_hspace(line@).skip(3));
                }
                Some((CommentKind::Directive, k0 + 3))
            } else {
                proof {
                    assert(t.len() >= 3 ==> t[2] == line@[k0 + 2]);
                    assert(line@.skip(k0 + 2) =~= strip_hspace(line@).skip(2));
                }
                Some((CommentKind::Documentation, k0 + 2))
            }
        } else if k0 + 1 < n && line[k0 + 1] == '!' {
            proof {
                assert(t[1] == line@[k0 + 1]);
                assert(line@.skip(k0 + 2) =~= strip_hspace(line@).skip(2));
            }
            Some((CommentKind::Preserved, k0 + 2))
        } else {
            proof {
                assert(t.len() >= 2 ==> t[1] == line@[k0 + 1]);
                assert(line@.skip(k0 + 1) =~= strip_hspace(line@).skip(1));
            }
            Some((CommentKind::Eol, k0 + 1))
        }
    } else {
        None
    }
}

/// Splits an untagged line at its first unescaped `%`, if any.
fn split_source_line(line: &Vec<char>) -> (r: Option<(Vec<char>, Option<(CommentKind, Vec<char>)>)>)
    ensures
        match r {
            None => split_src(line@) is None,
            Some((s, ic)) => split_src(line@) == Some((s@, icom_view(ic))),
        },
{
    let n = line.len();
    let mut i: usize = 0;
    let mut acc: Vec<char> = Vec::new();
    proof {
        assert(line@.skip(0) == line@);
        match split_src(line@) {
            Some((s2, c2)) => {
                assert(Seq::<char>::empty() + s2 =~= s2);
            }
            None => {}
        }
    }
    loop
        invariant
            i <= n,
            n == line@.len(),
            split_src(line@) == (match split_src(line@.skip(i as int)) {
                None => None::<(Seq<char>, Option<(CommentKind, Seq<char>)>)>,
                Some((s, c)) => Some((acc@ + s, c)),
            }),
        decreases n - i,
    {
        if i == n {
            proof {
                assert(line@.skip(i as int) =~= Seq::<char>::empty());
                assert(acc@ + Seq::<char>::empty() =~= acc@);
            }
            return Some((acc, None));
        }
        let ghost rest = line@.skip(i as int);
        proof {
            assert(rest.len() == n - i);
            assert(rest[0] == line@[i as int]);
        }
        let c = line[i];
        if c == '\\' {
            if i + 1 == n {
                return None;
            }
            let ghost acc0 = acc@;
            acc.push(line[i]);
            acc.push(line[i + 1]);
            i = i + 2;
            proof {
                assert(rest[1] == line@[i - 1]);
                assert(rest.skip(2) =~= line@.skip(i as int));
                assert(rest.take(2) =~= seq![line@[i - 2], line@[i - 1]]);
                assert(acc@ =~= acc0 + rest.take(2));
                match split_src(line@.skip(i as int)) {
                    Some((s2, c2)) => {
                        assert(acc0 + (rest.take(2) + s2) =~= acc@ + s2);
                    }
                    None => {}
                }
            }
        } else if c == '%' {
            if i + 1 < n && line[i + 1] == '!' {
                proof {
                    assert(rest[1] == line@[i + 1]);
                    assert(rest.skip(2) =~= line@.skip(i + 2));
                    assert(acc@ + Seq::<char>::empty() =~= acc@);
                }
                let text = subrange_chars(line, i + 2, n);
                proof {
                    assert(text@ =~= line@.skip(i + 2));
                }
                return Some((acc, Some((CommentKind::Preserved, text))));
            } else {
                proof {
                    assert(rest.len() >= 2 ==> rest[1] == line@[i + 1]);
                    assert(rest.skip(1) =~= line@.skip(i + 1));
                    assert(acc@ + Seq::<char>::empty() =~= acc@);
                }
                let text = subrange_chars(line, i + 1, n);
                proof {
                    assert(text@ =~= line@.skip(i + 1));
                }
                return Some((acc, Some((CommentKind::Eol, text))));
            }
        } else {
            let ghost acc0 = acc@;
            acc.push(c);
            i = i + 1;
            proof {
                assert(rest.skip(1) =~= line@.skip(i as int));
                assert(acc@ =~= acc0 + seq![rest[0]]);
                match split_src(line@.skip(i as int)) {
                    Some((s2, c2)) => {
                        assert(acc0 + (seq![rest[0]] + s2) =~= acc@ + s2);
                    }
                    None => {}
                }
            }
        }
    }
}

/// Lexes a whole document into chunks, or fails on the line where the text
/// leaves the grammar, handing back the document from that line on.
pub fn parse_document(input: &str) -> (r: Result<Vec<Chunk>, LexError>)
    ensures
        match r {
            Ok(chunks) => match lex_spec(input@) {
                LexOutcome::Chunks(cv) => chunks_view(chunks@) == cv,
                LexOutcome::Fail(_) => false,
            },
            Err(e) => match lex_spec(input@) {
                LexOutcome::Fail(pp) => e.remainder@ == input@.skip(pp),
                LexOutcome::Chunks(_) => false,
            },
        },
{
    let v = str_chars_vec(input);
    let ghost s = input@;
    let n = v.len();
    let mut chunks: Vec<Chunk> = Vec::new();
    let mut pend = Pend::Idle;
    let mut p: usize = 0;
    let ghost mut gpos: int = 0;
    proof {
        assert(s.skip(0) == s);
        assert(chunks_view(Seq::<Chunk>::empty()) =~= Seq::<ChunkView>::empty());
    }
    while p < n
        invariant
            s == input@,
            v@ == s,
            n == s.len(),
            p <= n,
            p < n ==> gpos == p as int,
            lex_from(init_state(), split_lines(s)) == lex_from(
                LexState { chunks: chunks_view(chunks@), pending: pend_view(pend), pos: gpos },
                split_lines(s.skip(p as int)),
            ),
        decreases n - p,
    {
        let ghost st_cur = LexState {
            chunks: chunks_view(chunks@),
            pending: pend_view(pend),
            pos: gpos,
        };
        // Find the end of the current line.
        let mut j = p;
        while j < n && v[j] != '\n'
            invariant
                p <= j <= n,
                n == v@.len(),
                forall|i: int| p <= i < j ==> v@[i] != '\n',
            decreases n - j,
        {
            j = j + 1;
        }
        let ghost tail = s.skip(p as int);
        proof {
            assert forall|i: int| 0 <= i < j - p implies tail[i] != '\n' by {
                assert(tail[i] == v@[p + i]);
            }
            if j < n {
                assert(tail[j - p] == v@[j as int]);
            }
            lemma_first_nl_is(tail, j - p);
        }
        let line = subrange_chars(&v, p, j);
        let ghost l = line@;
        // Peel one line off the remaining document.
        let ghost p2: int = if j < n { j + 1 } else { j as int };
        proof {
            assert(l =~= tail.take(j - p));
            if j < n {
                assert(tail.skip(j - p + 1) =~= s.skip(p2));
                assert(split_lines(tail) == seq![l] + split_lines(s.skip(p2)));
            } else {
                assert(l =~= tail);
                assert(s.skip(p2) =~= Seq::<char>::empty());
                assert(split_lines(tail) =~= seq![l] + split_lines(s.skip(p2)));
            }
            assert((seq![l] + split_lines(s.skip(p2)))[0] == l);
            assert((seq![l] + split_lines(s.skip(p2))).drop_first() =~= split_lines(s.skip(p2)));
        }
        // Consume the line.
        match classify_line(&line) {
            Some((k, ts)) => {
                let text = subrange_chars(&line, ts, line.len());
                proof {
                    assert(text@ =~= l.skip(ts as int));
                }
                pend = step_tagged(&mut chunks, pend, k, &text);
            }
            None => {
                match split_source_line(&line) {
                    None => {
                        proof {
                            assert(lex_step(st_cur, l) is None);
                            assert(lex_from(st_cur, split_lines(tail)) == LexOut::Fail(gpos));
                        }
                        let rem = subrange_chars(&v, p, n);
                        proof {
                            assert(rem@ =~= s.skip(p as int));
                        }
                        let e = LexError { remainder: string_from_chars(&rem) };
                        proof {
                            assert(lex_spec(s) == LexOutcome::Fail(gpos));
                            assert(e.remainder@ == s.skip(gpos));
                        }
                        return Err(e);
                    }
                    Some((src, icom)) => {
                        pend = step_source(&mut chunks, pend, src, icom);
                    }
                }
            }
        }
        proof {
            let st2 = lex_step(st_cur, l)->Some_0;
            assert(lex_from(st_cur, split_lines(tail)) == lex_from(st2, split_lines(s.skip(p2))));
            gpos = gpos + l.len() + 1;
            assert(st2 == LexState {
                chunks: chunks_view(chunks@),
                pending: pend_view(pend),
                pos: gpos,
            });
        }
        p = if j < n {
            j + 1
        } else {
            j
        };
    }
    proof {
        assert(s.skip(n as int) =~= Seq::<char>::empty());
        assert(lex_from(init_state(), split_lines(s)) == LexOut::Good(
            LexState { chunks: chunks_view(chunks@), pending: pend_view(pend), pos: gpos },
        ));
    }
    flush_pend(&mut chunks, pend);
    Ok(chunks)
}

} // verus!
