use vstd::prelude::*;

use crate::strutil::{
    is_hspace, strip_hspace, strip_hspace_end, str_chars_vec, string_from_chars, subrange_chars,
    skip_hspace, lemma_strip_hspace_end_take,
};

verus! {

// An earlier, line-at-a-time surface of the same classification rules: each
// line is trimmed, classified by its `%` prefix, and stripped of a trailing
// unescaped comment.

/// The category of one line.  Here `%%` marks a comment that stays in the
/// stripped source (with one `%`), and a single `%` marks documentation.
#[derive(Clone, Copy, Debug, PartialEq, Eq, Structural)]
pub enum LineKind {
    /// A directive.
    Directive,
    /// A true comment, kept in the processed source.
    Comment,
    /// A documentation comment, written to the documentation source.
    Documentation,
    /// Source code, kept in the processed source.
    Source,
}

/// A line in a source file, possibly stripped or otherwise processed.
#[derive(Clone, Debug, PartialEq, Eq)]
pub struct Line {
    /// The original line, directly from the source file, without its line
    /// ending.
    pub orig: String,
    /// The processed line.
    pub processed: String,
    pub kind: LineKind,
}

/// The line-prefix token of a kind, not counting leading whitespace.
pub open spec fn prefix_token_spec(kind: LineKind) -> Seq<char> {
    match kind {
        LineKind::Directive => seq!['%', '%', '%'],
        LineKind::Comment => seq!['%', '%'],
        LineKind::Documentation => seq!['%'],
        LineKind::Source => Seq::empty(),
    }
}

/// How much of the prefix is removed.  A `%%` comment keeps one `%`, so
/// only one character of its token goes.
pub open spec fn prefix_bytes_spec(kind: LineKind) -> int {
    match kind {
        LineKind::Comment => 1,
        _ => prefix_token_spec(kind).len() as int,
    }
}

pub open spec fn spec_starts_with(s: Seq<char>, p: Seq<char>) -> bool {
    p.len() <= s.len() && s.take(p.len() as int) == p
}

/// The trimmed line without its prefix, if the line carries this kind's
/// token; at most one following blank is dropped with it.
pub open spec fn maybe_trim_spec(t: Seq<char>, kind: LineKind) -> Option<Seq<char>> {
    if spec_starts_with(t, prefix_token_spec(kind)) {
        let np = t.skip(prefix_bytes_spec(kind));
        if np.len() > 0 && is_hspace(np[0]) {
            Some(np.drop_first())
        } else {
            Some(np)
        }
    } else {
        None
    }
}

/// Both-ends blank trimming, as classification applies it.
pub open spec fn trim_both_spec(s: Seq<char>) -> Seq<char> {
    strip_hspace_end(strip_hspace(s))
}

/// A line's kind and its prefix-stripped text.  Longer tokens are tried
/// first; a line with no token is source and keeps its text untrimmed.
pub open spec fn determine_kind_spec(orig: Seq<char>) -> (Seq<char>, LineKind) {
    let t = trim_both_spec(orig);
    match maybe_trim_spec(t, LineKind::Directive) {
        Some(np) => (np, LineKind::Directive),
        None => match maybe_trim_spec(t, LineKind::Comment) {
            Some(np) => (np, LineKind::Comment),
            None => match maybe_trim_spec(t, LineKind::Documentation) {
                Some(np) => (np, LineKind::Documentation),
                None => (orig, LineKind::Source),
            },
        },
    }
}

/// The first `%` that opens a trailing comment: one with a character before
/// it that is not a backslash.
pub open spec fn find_cut_from(s: Seq<char>, i: int) -> Option<int>
    decreases s.len() - i,
{
    if i >= s.len() {
        None
    } else if i >= 1 && s[i] == '%' && s[i - 1] != '\\' {
        Some(i)
    } else {
        find_cut_from(s, i + 1)
    }
}

/// A source line with its trailing comment removed: cut at the first
/// unescaped `%` (the marker itself stays unless a blank stood before it),
/// then drop trailing blanks.
pub open spec fn trim_trailing_spec(s: Seq<char>) -> Seq<char> {
    match find_cut_from(s, 0) {
        Some(i) => if is_hspace(s[i - 1]) {
            strip_hspace_end(s.take(i))
        } else {
            strip_hspace_end(s.take(i + 1))
        },
        None => strip_hspace_end(s),
    }
}

/// What `Line::from` computes: classification, then, on source lines,
/// trailing-comment removal.
pub open spec fn line_from_spec(orig: Seq<char>) -> (Seq<char>, LineKind) {
    let (pr, kind) = determine_kind_spec(orig);
    if kind == LineKind::Source {
        (trim_trailing_spec(pr), kind)
    } else {
        (pr, kind)
    }
}

/// Whether a character is ignorable start-of-line space.
pub fn is_space(c: char) -> (r: bool)
    ensures
        r == is_hspace(c),
{
    c == ' ' || c == '\t'
}

/// The line-prefix token for a given kind.
pub fn prefix_token(kind: LineKind) -> (r: &'static str)
    ensures
        r@ == prefix_token_spec(kind),
{
    proof {
        reveal_strlit("%%%");
        reveal_strlit("%%");
        reveal_strlit("%");
        reveal_strlit("");
    }
    let r = match kind {
        LineKind::Directive => "%%%",
        LineKind::Comment => "%%",
        LineKind::Documentation => "%",
        LineKind::Source => "",
    };
    proof {
        assert(r@ =~= prefix_token_spec(kind));
    }
    r
}

/// How many characters of the token are removed for a given kind.
pub fn prefix_bytes(kind: LineKind) -> (r: usize)
    ensures
        r as int == prefix_bytes_spec(kind),
{
    match kind {
        LineKind::Directive => 3,
        LineKind::Comment => 1,
        LineKind::Documentation => 1,
        LineKind::Source => 0,
    }
}

/// Removes the kind's prefix token from the trimmed line, or returns `None`.
pub fn maybe_trim(orig_trimmed: &Vec<char>, kind: LineKind) -> (r: Option<(Vec<char>, LineKind)>)
    ensures
        match r {
            Some((np, k2)) => k2 == kind && maybe_trim_spec(orig_trimmed@, kind) == Some(np@),
            None => maybe_trim_spec(orig_trimmed@, kind) is None,
        },
{
    let tl: usize = match kind {
        LineKind::Directive => 3,
        LineKind::Comment => 2,
        LineKind::Documentation => 1,
        LineKind::Source => 0,
    };
    proof {
        assert(tl as int == prefix_token_spec(kind).len());
    }
    if orig_trimmed.len() < tl {
        proof {
            assert(!spec_starts_with(orig_trimmed@, prefix_token_spec(kind)));
        }
        return None;
    }
    let mut i: usize = 0;
    while i < tl
        invariant
            i <= tl <= orig_trimmed@.len(),
            tl as int == prefix_token_spec(kind).len(),
            forall|q: int| 0 <= q < i ==> orig_trimmed@[q] == prefix_token_spec(kind)[q],
        decreases tl - i,
    {
        if orig_trimmed[i] != '%' {
            proof {
                assert(prefix_token_spec(kind)[i as int] == '%');
                assert(orig_trimmed@.take(tl as int)[i as int] == orig_trimmed@[i as int]);
                assert(!spec_starts_with(orig_trimmed@, prefix_token_spec(kind)));
            }
            return None;
        }
        proof {
            assert(prefix_token_spec(kind)[i as int] == '%');
        }
        i = i + 1;
    }
    proof {
        assert(orig_trimmed@.take(tl as int) =~= prefix_token_spec(kind));
        assert(spec_starts_with(orig_trimmed@, prefix_token_spec(kind)));
    }
    let pb = prefix_bytes(kind);
    let ghost np = orig_trimmed@.skip(pb as int);
    let start: usize = if pb < orig_trimmed.len() && (orig_trimmed[pb] == ' '
        || orig_trimmed[pb] == '\t') {
        proof {
            assert(np[0] == orig_trimmed@[pb as int]);
            assert(np.drop_first() =~= orig_trimmed@.skip(pb + 1));
        }
        pb + 1
    } else {
        proof {
            assert(np.len() > 0 ==> np[0] == orig_trimmed@[pb as int]);
        }
        pb
    };
    let out = subrange_chars(orig_trimmed, start, orig_trimmed.len());
    proof {
        assert(out@ =~= orig_trimmed@.skip(start as int));
    }
    Some((out, kind))
}

/// Trims blanks from both ends of `v`.
fn trim_both(v: &Vec<char>) -> (r: Vec<char>)
    ensures
        r@ == trim_both_spec(v@),
{
    let k0 = skip_hspace(v, 0);
    proof {
        assert(v@.skip(0) == v@);
    }
    let mut k1 = v.len();
    while k1 > k0 && (v[k1 - 1] == ' ' || v[k1 - 1] == '\t')
        invariant
            k0 <= k1 <= v@.len(),
            forall|i: int| k1 <= i < v@.len() ==> is_hspace(v@[i]),
        decreases k1,
    {
        k1 = k1 - 1;
    }
    let r = subrange_chars(v, k0, k1);
    proof {
        let t = strip_hspace(v@);
        assert(t == v@.skip(k0 as int));
        assert forall|i: int| k1 - k0 <= i < t.len() implies is_hspace(t[i]) by {
            assert(t[i] == v@[k0 + i]);
        }
        if k1 > k0 {
            assert(t[k1 - k0 - 1] == v@[k1 - 1]);
        }
        lemma_strip_hspace_end_take(t, k1 - k0);
        assert(r@ =~= t.take(k1 - k0));
    }
    r
}

/// Determines a line's kind and trims it of its prefix.
pub fn determine_kind(orig: &Vec<char>) -> (r: (Vec<char>, LineKind))
    ensures
        (r.0@, r.1) == determine_kind_spec(orig@),
{
    let t = trim_both(orig);
    if let Some((np, k)) = maybe_trim(&t, LineKind::Directive) {
        return (np, k);
    }
    if let Some((np, k)) = maybe_trim(&t, LineKind::Comment) {
        return (np, k);
    }
    if let Some((np, k)) = maybe_trim(&t, LineKind::Documentation) {
        return (np, k);
    }
    let copy = subrange_chars(orig, 0, orig.len());
    proof {
        assert(copy@ =~= orig@);
    }
    (copy, LineKind::Source)
}

/// Removes a trailing unescaped comment from `v`, with the marker kept
/// unless a blank stood before it, and trailing blanks dropped.
fn find_cut(v: &Vec<char>) -> (r: Option<usize>)
    ensures
        match r {
            Some(c) => find_cut_from(v@, 0) == Some(c as int) && 1 <= c < v@.len(),
            None => find_cut_from(v@, 0) is None,
        },
{
    let mut i: usize = 0;
    while i < v.len()
        invariant
            i <= v@.len(),
            find_cut_from(v@, 0) == find_cut_from(v@, i as int),
        decreases v@.len() - i,
    {
        if i >= 1 && v[i] == '%' && v[i - 1] != '\\' {
            return Some(i);
        }
        i = i + 1;
    }
    None
}

fn trim_trailing(v: &Vec<char>) -> (r: Vec<char>)
    ensures
        r@ == trim_trailing_spec(v@),
{
    let n = v.len();
    match find_cut(v) {
        Some(c) => {
            let upto: usize = if v[c - 1] == ' ' || v[c - 1] == '\t' {
                c
            } else {
                c + 1
            };
            let out = trim_end_upto(v, upto);
            proof {
                if is_hspace(v@[c - 1]) {
                    assert(out@ == strip_hspace_end(v@.take(c as int)));
                } else {
                    assert(out@ == strip_hspace_end(v@.take(c + 1)));
                }
                assert(out@ == trim_trailing_spec(v@));
            }
            out
        }
        None => {
            let out = trim_end_upto(v, n);
            proof {
                assert(v@.take(n as int) == v@);
                assert(out@ == trim_trailing_spec(v@));
            }
            out
        }
    }
}

/// Trims trailing blanks off `v[..end]`.
fn trim_end_upto(v: &Vec<char>, end: usize) -> (r: Vec<char>)
    requires
        end <= v@.len(),
    ensures
        r@ == strip_hspace_end(v@.take(end as int)),
{
    let mut k = end;
    while k > 0 && (v[k - 1] == ' ' || v[k - 1] == '\t')
        invariant
            k <= end <= v@.len(),
            forall|i: int| k <= i < end ==> is_hspace(v@[i]),
        decreases k,
    {
        k = k - 1;
    }
    let r = subrange_chars(v, 0, k);
    proof {
        let t = v@.take(end as int);
        assert forall|i: int| k <= i < t.len() implies is_hspace(t[i]) by {
            assert(t[i] == v@[i]);
        }
        if k > 0 {
            assert(t[k - 1] == v@[k - 1]);
        }
        lemma_strip_hspace_end_take(t, k as int);
        assert(r@ =~= t.take(k as int));
    }
    r
}

impl Line {
    /// Converts and cleans up one source line: classifies it, strips its
    /// prefix, and, on source lines, removes a trailing unescaped comment.
    pub fn from(orig: &str) -> (r: Line)
        ensures
            r.orig@ == orig@,
            (r.processed@, r.kind) == line_from_spec(orig@),
    {
        let v = str_chars_vec(orig);
        let (processed, kind) = determine_kind(&v);
        let processed = if let LineKind::Source = kind {
            trim_trailing(&processed)
        } else {
            processed
        };
        Line { orig: orig.to_owned(), processed: string_from_chars(&processed), kind }
    }

    /// Whether the processed line leaves no mark in the stripped source:
    /// directives always, kept comments when nothing of them remains.
    pub fn should_discard(&self) -> (r: bool)
        ensures
            r == match self.kind {
                LineKind::Directive => true,
                LineKind::Comment => self.processed@.len() == 0,
                _ => false,
            },
    {
        match self.kind {
            LineKind::Directive => true,
            LineKind::Comment => self.processed.as_str().is_empty(),
            _ => false,
        }
    }

    /// Re-runs trailing-comment removal on the processed text; meaningful
    /// only for source lines, and a no-op for the rest.
    pub fn trim_trailing_comment(&mut self)
        ensures
            final(self).orig == old(self).orig,
            final(self).kind == old(self).kind,
            final(self).processed@ == if old(self).kind == LineKind::Source {
                trim_trailing_spec(old(self).processed@)
            } else {
                old(self).processed@
            },
    {
        if let LineKind::Source = self.kind {
            let v = str_chars_vec(self.processed.as_str());
            let t = trim_trailing(&v);
            self.processed = string_from_chars(&t);
        }
    }
}

} // verus!
