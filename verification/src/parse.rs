use vstd::prelude::*;
use vstd::set_lib::lemma_len_subset;

use crate::lex;
use crate::lex::{Chunk, ChunkView, CommentKind, chunks_view, lex_spec, LexOutcome};

verus! {

// ---------------------------------------------------------------------------
// Nodes: one semantic value per chunk.
// ---------------------------------------------------------------------------

/// The routing record a directive comment decodes to: where stripped
/// source should go, and where documentation should go.  An absent field
/// leaves the current destination unchanged.
#[derive(Clone, Debug, PartialEq, Eq)]
pub struct Directives {
    pub src_output: Option<String>,
    pub doc_output: Option<String>,
}

/// The mathematical value of a `Directives`.
pub struct DirectivesView {
    pub src_output: Option<Seq<char>>,
    pub doc_output: Option<Seq<char>>,
}

impl View for Directives {
    type V = DirectivesView;

    open spec fn view(&self) -> DirectivesView {
        DirectivesView {
            src_output: match self.src_output {
                Some(s) => Some(s@),
                None => None,
            },
            doc_output: match self.doc_output {
                Some(s) => Some(s@),
                None => None,
            },
        }
    }
}

/// One semantic region of the document.
#[derive(Clone, Debug, PartialEq, Eq)]
pub enum Node {
    Source(String),
    Directives(Directives),
    Documentation(String),
    PreservedComment(String),
    /// A discarded end-of-line comment; its text is gone, only the fact
    /// that it stood there remains.
    Comment,
}

/// The mathematical value of a `Node`.
pub enum NodeView {
    Source(Seq<char>),
    Directives(DirectivesView),
    Documentation(Seq<char>),
    PreservedComment(Seq<char>),
    Comment,
}

impl View for Node {
    type V = NodeView;

    open spec fn view(&self) -> NodeView {
        match self {
            Node::Source(s) => NodeView::Source(s@),
            Node::Directives(d) => NodeView::Directives(d@),
            Node::Documentation(s) => NodeView::Documentation(s@),
            Node::PreservedComment(s) => NodeView::PreservedComment(s@),
            Node::Comment => NodeView::Comment,
        }
    }
}

/// The values of a sequence of nodes.
pub open spec fn nodes_view(ns: Seq<Node>) -> Seq<NodeView> {
    ns.map_values(|n: Node| n@)
}

// ---------------------------------------------------------------------------
// The directive decoder, over a general configuration-text parser.
// ---------------------------------------------------------------------------

/// What the configuration parser returns for a given text: `None` when the
/// text is not well formed, otherwise each top-level key mapped to its
/// string value, or to `None` when its value is not a string.  The library
/// never states what this is on given characters; it only carries the name
/// through.
pub uninterp spec fn toml_table_of(s: Seq<char>) -> Option<Map<Seq<char>, Option<Seq<char>>>>;

/// What a parsed table holds, projected the same way: each key, with its
/// string value or `None` for a value of another type.
pub uninterp spec fn table_entries(t: toml::map::Map<String, toml::Value>) -> Map<
    Seq<char>,
    Option<Seq<char>>,
>;

#[verifier::external_type_specification]
#[verifier::external_body]
#[verifier::reject_recursive_types(K)]
#[verifier::reject_recursive_types(V)]
pub struct ExTomlMap<K, V>(toml::map::Map<K, V>);

#[verifier::external_type_specification]
#[verifier::external_body]
pub struct ExTomlValue(toml::Value);

/// Relies on `toml::from_str`: parses a document into its top-level table;
/// the result depends on the text alone.  A parse failure is handed back as
/// the parser's own diagnostic, read with `toml::de::Error::message`.
#[verifier::external_body]
fn toml_parse(s: &str) -> (r: Result<toml::map::Map<String, toml::Value>, String>)
    ensures
        match r {
            Ok(t) => toml_table_of(s@) == Some(table_entries(t)) && table_entries(
                t,
            ).dom().finite(),
            Err(_) => toml_table_of(s@) is None,
        },
{
    match toml::from_str(s) {
        Ok(t) => Ok(t),
        Err(e) => Err(e.message().to_owned()),
    }
}

/// Relies on `toml::map::Map::len`: the number of keys in the table.
#[verifier::external_body]
fn toml_table_len(t: &toml::map::Map<String, toml::Value>) -> (r: usize)
    ensures
        r as nat == table_entries(*t).dom().len(),
{
    t.len()
}

/// The outcome of looking one key up in a parsed table.
pub enum KeyLookup {
    Missing,
    Text(String),
    NotText,
}

/// Relies on `toml::map::Map::get`, telling the returned value's variants
/// apart: the key is absent, names a string, or names something else.
#[verifier::external_body]
fn toml_table_get(t: &toml::map::Map<String, toml::Value>, key: &str) -> (r: KeyLookup)
    ensures
        match r {
            KeyLookup::Missing => !table_entries(*t).dom().contains(key@),
            KeyLookup::Text(s) => table_entries(*t).dom().contains(key@) && table_entries(
                *t,
            )[key@] == Some(s@),
            KeyLookup::NotText => table_entries(*t).dom().contains(key@) && table_entries(
                *t,
            )[key@] is None,
        },
{
    match t.get(key) {
        None => KeyLookup::Missing,
        Some(toml::Value::String(s)) => KeyLookup::Text(s.clone()),
        Some(_) => KeyLookup::NotText,
    }
}

pub open spec fn src_key() -> Seq<char> {
    "src_output"@
}

pub open spec fn doc_key() -> Seq<char> {
    "doc_output"@
}

/// What decoding a directive body yields: the record, when the text parses,
/// every key is one of the two known ones, and each names a string;
/// otherwise nothing.
pub open spec fn decode_spec(s: Seq<char>) -> Option<DirectivesView> {
    match toml_table_of(s) {
        None => None,
        Some(m) => if m.dom().subset_of(set![src_key(), doc_key()]) && (m.dom().contains(src_key())
            ==> m[src_key()] is Some) && (m.dom().contains(doc_key()) ==> m[doc_key()] is Some) {
            Some(
                DirectivesView {
                    src_output: if m.dom().contains(src_key()) {
                        m[src_key()]
                    } else {
                        None
                    },
                    doc_output: if m.dom().contains(doc_key()) {
                        m[doc_key()]
                    } else {
                        None
                    },
                },
            )
        } else {
            None
        },
    }
}

/// A finite set lies within `{k1, k2}` exactly when its size equals the
/// number of the two keys it contains.
proof fn lemma_dom_count(m: Map<Seq<char>, Option<Seq<char>>>, k1: Seq<char>, k2: Seq<char>)
    requires
        m.dom().finite(),
        k1 != k2,
    ensures
        m.dom().subset_of(set![k1, k2]) <==> m.dom().len() == (if m.dom().contains(k1) {
            1int
        } else {
            0int
        }) + (if m.dom().contains(k2) {
            1int
        } else {
            0int
        }),
{
    let dom = m.dom();
    let pres = dom.intersect(set![k1, k2]);
    let count = (if dom.contains(k1) {
        1int
    } else {
        0int
    }) + (if dom.contains(k2) {
        1int
    } else {
        0int
    });
    assert(set![k1, k2] == Set::empty().insert(k1).insert(k2));
    if dom.contains(k1) && dom.contains(k2) {
        assert(pres =~= Set::empty().insert(k1).insert(k2));
        assert(pres.len() == count);
    } else if dom.contains(k1) {
        assert(pres =~= Set::empty().insert(k1));
        assert(pres.len() == count);
    } else if dom.contains(k2) {
        assert(pres =~= Set::empty().insert(k2));
        assert(pres.len() == count);
    } else {
        assert(pres =~= Set::<Seq<char>>::empty());
        assert(pres.len() == count);
    }
    if dom.subset_of(set![k1, k2]) {
        assert(dom =~= pres);
    }
    if dom.len() == count {
        if !dom.subset_of(set![k1, k2]) {
            let x = choose|x: Seq<char>| dom.contains(x) && !set![k1, k2].contains(x);
            let bigger = pres.insert(x);
            assert(bigger.subset_of(dom));
            lemma_len_subset(bigger, dom);
            assert(bigger.len() == pres.len() + 1);
        }
    }
}

/// Decodes a directive comment's body.  `Ok` exactly when the body parses
/// with only the two known keys, each naming a string; any other body is a
/// decode error carrying the parser's diagnostic.
pub fn decode_directives(text: &str) -> (r: Result<Directives, crate::error::Error>)
    ensures
        match r {
            Ok(d) => decode_spec(text@) == Some(d@),
            Err(e) => decode_spec(text@) is None && e matches crate::error::Error::DirectivesParse(_),
        },
{
    let t = match toml_parse(text) {
        Ok(t) => t,
        Err(msg) => {
            return Err(crate::error::Error::DirectivesParse(msg));
        }
    };
    let ghost m = table_entries(t);
    proof {
        reveal_strlit("src_output");
        reveal_strlit("doc_output");
        assert(src_key()[0] == 's' && doc_key()[0] == 'd');
        assert(src_key() != doc_key());
        lemma_dom_count(m, src_key(), doc_key());
    }
    let n = toml_table_len(&t);
    let src = toml_table_get(&t, "src_output");
    let doc = toml_table_get(&t, "doc_output");
    let expected: usize = (match &src {
        KeyLookup::Missing => 0,
        _ => 1,
    }) + (match &doc {
        KeyLookup::Missing => 0,
        _ => 1,
    });
    if n != expected {
        proof {
            assert(!m.dom().subset_of(set![src_key(), doc_key()]));
        }
        return Err(crate::error::Error::DirectivesParse(String::from_str("unknown directive key")));
    }
    let src_output = match src {
        KeyLookup::Missing => None,
        KeyLookup::Text(s) => Some(s),
        KeyLookup::NotText => {
            return Err(crate::error::Error::DirectivesParse(String::from_str("src_output is not a string")));
        }
    };
    let doc_output = match doc {
        KeyLookup::Missing => None,
        KeyLookup::Text(s) => Some(s),
        KeyLookup::NotText => {
            return Err(crate::error::Error::DirectivesParse(String::from_str("doc_output is not a string")));
        }
    };
    Ok(Directives { src_output, doc_output })
}

// ---------------------------------------------------------------------------
// The node builder.
// ---------------------------------------------------------------------------

/// The node one chunk becomes; `None` when a directive body does not
/// decode.
pub open spec fn node_of_chunk(c: ChunkView) -> Option<NodeView> {
    match c {
        ChunkView::Source(s) => Some(NodeView::Source(s)),
        ChunkView::Comment(k, text) => match k {
            CommentKind::Directive => match decode_spec(text) {
                Some(d) => Some(NodeView::Directives(d)),
                None => None,
            },
            CommentKind::Documentation => Some(NodeView::Documentation(text)),
            CommentKind::Preserved => Some(NodeView::PreservedComment(text)),
            CommentKind::Eol => Some(NodeView::Comment),
        },
    }
}

/// All chunks mapped to nodes, in order; `None` as soon as one fails.
pub open spec fn build_nodes(chunks: Seq<ChunkView>) -> Option<Seq<NodeView>>
    decreases chunks.len(),
{
    if chunks.len() == 0 {
        Some(Seq::empty())
    } else {
        match node_of_chunk(chunks[0]) {
            None => None,
            Some(n) => match build_nodes(chunks.drop_first()) {
                None => None,
                Some(rest) => Some(seq![n] + rest),
            },
        }
    }
}

/// Lexes a document and maps each chunk to its node, decoding directive
/// bodies on the way.  The first failure, of the lexer or of a directive
/// body, is the document's error.
pub fn parse_document(input: &str) -> (r: Result<Vec<Node>, crate::error::Error>)
    ensures
        match r {
            Ok(nodes) => match lex_spec(input@) {
                LexOutcome::Chunks(cs) => build_nodes(cs) == Some(nodes_view(nodes@)),
                LexOutcome::Fail(_) => false,
            },
            Err(e) => match lex_spec(input@) {
                LexOutcome::Fail(p) => e matches crate::error::Error::Lex(le) && le.remainder@ == input@.skip(p),
                LexOutcome::Chunks(cs) => build_nodes(cs) is None && e matches crate::error::Error::DirectivesParse(_),
            },
        },
{
    let chunks = match lex::parse_document(input) {
        Ok(c) => c,
        Err(le) => {
            return Err(crate::error::Error::Lex(le));
        }
    };
    let ghost cs = chunks_view(chunks@);
    let n = chunks.len();
    proof {
        assert(cs.len() == n);
    }
    let mut nodes: Vec<Node> = Vec::new();
    let mut i: usize = 0;
    proof {
        assert(cs.skip(0) == cs);
        assert(nodes_view(Seq::<Node>::empty()) =~= Seq::<NodeView>::empty());
        match build_nodes(cs) {
            Some(ns) => {
                assert(Seq::<NodeView>::empty() + ns =~= ns);
            }
            None => {}
        }
    }
    while i < n
        invariant
            i <= n,
            n == cs.len(),
            cs == chunks_view(chunks@),
            match lex_spec(input@) {
                LexOutcome::Chunks(cc) => cc == cs,
                LexOutcome::Fail(_) => false,
            },
            n == chunks@.len(),
            build_nodes(cs) == (match build_nodes(cs.skip(i as int)) {
                None => None::<Seq<NodeView>>,
                Some(rest) => Some(nodes_view(nodes@) + rest),
            }),
        decreases n - i,
    {
        let ghost rest0 = cs.skip(i as int);
        proof {
            assert(rest0.len() == n - i);
            assert(rest0[0] == cs[i as int]);
            assert(cs[i as int] == chunks@[i as int]@);
            assert(rest0.drop_first() =~= cs.skip(i + 1));
        }
        let node: Node = match &chunks[i] {
            Chunk::Source(s) => Node::Source(s.clone()),
            Chunk::Comment(c) => match c.kind {
                CommentKind::Directive => match decode_directives(c.text.as_str()) {
                    Ok(d) => Node::Directives(d),
                    Err(e) => {
                        proof {
                            assert(node_of_chunk(rest0[0]) is None);
                            assert(build_nodes(rest0) is None);
                        }
                        return Err(e);
                    }
                },
                CommentKind::Documentation => Node::Documentation(c.text.clone()),
                CommentKind::Preserved => Node::PreservedComment(c.text.clone()),
                CommentKind::Eol => Node::Comment,
            },
        };
        proof {
            assert(node_of_chunk(rest0[0]) == Some(node@));
        }
        let ghost nodes0 = nodes@;
        nodes.push(node);
        i = i + 1;
        proof {
            assert(nodes_view(nodes0.push(node)) =~= nodes_view(nodes0).push(node@));
            match build_nodes(cs.skip(i as int)) {
                Some(rest) => {
                    assert(nodes_view(nodes0) + (seq![node@] + rest) =~= nodes_view(nodes0).push(
                        node@,
                    ) + rest);
                }
                None => {}
            }
        }
    }
    proof {
        assert(cs.skip(n as int) =~= Seq::<ChunkView>::empty());
        assert(nodes_view(nodes@) + Seq::<NodeView>::empty() =~= nodes_view(nodes@));
    }
    Ok(nodes)
}

} // verus!
