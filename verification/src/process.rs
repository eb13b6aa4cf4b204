use vstd::prelude::*;

use crate::error::{Error, IoError, IoErrorKind};
use crate::parse;
use crate::parse::{Node, NodeView, nodes_view, build_nodes};
use crate::lex::{lex_spec, LexOutcome};

verus! {

// ---------------------------------------------------------------------------
// Destinations.
// ---------------------------------------------------------------------------

/// One opened output destination: its name and everything routed to it so
/// far, in document order.
#[derive(Clone, Debug, PartialEq, Eq)]
pub struct Dest {
    pub name: String,
    pub content: String,
}

/// The mathematical value of a `Dest`.
pub struct DestView {
    pub name: Seq<char>,
    pub content: Seq<char>,
}

impl View for Dest {
    type V = DestView;

    open spec fn view(&self) -> DestView {
        DestView { name: self.name@, content: self.content@ }
    }
}

pub open spec fn dests_view(ds: Seq<Dest>) -> Seq<DestView> {
    ds.map_values(|d: Dest| d@)
}

/// Whether some destination of this name is already open.
pub open spec fn name_open(dests: Seq<DestView>, name: Seq<char>) -> bool {
    exists|j: int| 0 <= j < dests.len() && dests[j].name == name
}

// ---------------------------------------------------------------------------
// The state machine.
// ---------------------------------------------------------------------------

/// The processor's state: the destinations opened so far, in open order,
/// and which of them (if any) source and documentation are bound to.
pub struct ProcessView {
    pub dests: Seq<DestView>,
    pub src_bound: Option<int>,
    pub doc_bound: Option<int>,
}

/// Both bindings point at open destinations.
pub open spec fn wf(st: ProcessView) -> bool {
    &&& match st.src_bound {
        Some(i) => 0 <= i < st.dests.len(),
        None => true,
    }
    &&& match st.doc_bound {
        Some(i) => 0 <= i < st.dests.len(),
        None => true,
    }
}

/// Fresh state: nothing open, nothing bound.
pub open spec fn init_view() -> ProcessView {
    ProcessView { dests: Seq::empty(), src_bound: None, doc_bound: None }
}

/// Why processing a node can fail.
pub enum ProcErr {
    /// Content needed a destination that is not bound.
    Unbound,
    /// A directive named a destination that is already open; opening is
    /// create-exclusive, so the open fails.
    AlreadyOpen,
}

/// Appends `text` to the destination `which` is bound to; with nothing
/// bound, the state stays and the step fails at once.
pub open spec fn append_to(st: ProcessView, which: Option<int>, text: Seq<char>) -> (ProcessView, Option<
    ProcErr,
>) {
    match which {
        None => (st, Some(ProcErr::Unbound)),
        Some(i) => (
            ProcessView {
                dests: st.dests.update(
                    i,
                    DestView { name: st.dests[i].name, content: st.dests[i].content + text },
                ),
                src_bound: st.src_bound,
                doc_bound: st.doc_bound,
            },
            None,
        ),
    }
}

/// Opens a destination for one directive field and rebinds the named
/// channel to it; an absent field changes nothing, a name already open
/// fails.
pub open spec fn bind_one(st: ProcessView, name: Option<Seq<char>>, to_src: bool) -> (ProcessView, Option<
    ProcErr,
>) {
    match name {
        None => (st, None),
        Some(nm) => if name_open(st.dests, nm) {
            (st, Some(ProcErr::AlreadyOpen))
        } else {
            let d2 = st.dests.push(DestView { name: nm, content: Seq::empty() });
            let idx = st.dests.len() as int;
            if to_src {
                (ProcessView { dests: d2, src_bound: Some(idx), doc_bound: st.doc_bound }, None)
            } else {
                (ProcessView { dests: d2, src_bound: st.src_bound, doc_bound: Some(idx) }, None)
            }
        },
    }
}

/// One step of the state machine, on one node in document order.  Source
/// text goes verbatim to the source destination; a preserved comment is
/// re-synthesized as `% ` and its text on a line of its own; a discarded
/// comment leaves a bare `%` line; documentation goes verbatim to the
/// documentation destination; a directive opens and rebinds, source first,
/// so a failure on the second field keeps the first field's effect.
pub open spec fn proc_step(st: ProcessView, n: NodeView) -> (ProcessView, Option<ProcErr>) {
    match n {
        NodeView::Source(t) => append_to(st, st.src_bound, t),
        NodeView::PreservedComment(t) => append_to(
            st,
            st.src_bound,
            seq!['%', ' '] + t + seq!['\n'],
        ),
        NodeView::Comment => append_to(st, st.src_bound, seq!['%', '\n']),
        NodeView::Documentation(t) => append_to(st, st.doc_bound, t),
        NodeView::Directives(d) => {
            let (st1, e1) = bind_one(st, d.src_output, true);
            match e1 {
                Some(er) => (st1, Some(er)),
                None => bind_one(st1, d.doc_output, false),
            }
        }
    }
}

/// The machine run over a node sequence, stopping at the first failure.
pub open spec fn proc_run(st: ProcessView, nodes: Seq<NodeView>) -> (ProcessView, Option<ProcErr>)
    decreases nodes.len(),
{
    if nodes.len() == 0 {
        (st, None)
    } else {
        let (st1, e) = proc_step(st, nodes[0]);
        match e {
            Some(er) => (st1, Some(er)),
            None => proc_run(st1, nodes.drop_first()),
        }
    }
}

/// Stepping preserves well-formedness.
pub proof fn lemma_step_wf(st: ProcessView, n: NodeView)
    requires
        wf(st),
    ensures
        wf(proc_step(st, n).0),
{
}

/// The library's error for each way a step can fail.
pub open spec fn err_of(e: ProcErr, le: Error) -> bool {
    match e {
        ProcErr::Unbound => le is NoOutput,
        ProcErr::AlreadyOpen => le matches Error::FileOpen(io) && io.kind
            == IoErrorKind::AlreadyExists,
    }
}

// ---------------------------------------------------------------------------
// What the state machine guarantees.
// ---------------------------------------------------------------------------

/// A document with content but no directive at all fails at once with the
/// unbound-destination error: nothing is dropped silently, and the state is
/// untouched.
pub proof fn lemma_unbound_failure(st: ProcessView, nodes: Seq<NodeView>)
    requires
        st.src_bound is None,
        st.doc_bound is None,
        nodes.len() > 0,
        forall|i: int| 0 <= i < nodes.len() ==> !(#[trigger] nodes[i] is Directives),
    ensures
        proc_run(st, nodes) == (st, Some(ProcErr::Unbound)),
{
    assert(!(nodes[0] is Directives));
    assert(proc_step(st, nodes[0]) == (st, Some(ProcErr::Unbound)));
}

/// Rebinding the source destination mid-document routes what comes before
/// the rebinding to the first name and what comes after to the second,
/// exactly and with no cross-contamination.
pub proof fn lemma_directive_rebinding(na: Seq<char>, t1: Seq<char>, nb: Seq<char>, t2: Seq<char>)
    requires
        na != nb,
    ensures
        ({
            let nodes = seq![
                NodeView::Directives(
                    crate::parse::DirectivesView { src_output: Some(na), doc_output: None },
                ),
                NodeView::Source(t1),
                NodeView::Directives(
                    crate::parse::DirectivesView { src_output: Some(nb), doc_output: None },
                ),
                NodeView::Source(t2),
            ];
            proc_run(init_view(), nodes) == (
                ProcessView {
                    dests: seq![
                        DestView { name: na, content: t1 },
                        DestView { name: nb, content: t2 },
                    ],
                    src_bound: Some(1int),
                    doc_bound: None::<int>,
                },
                None::<ProcErr>,
            )
        }),
{
    let n0 = NodeView::Directives(
        crate::parse::DirectivesView { src_output: Some(na), doc_output: None },
    );
    let n1 = NodeView::Source(t1);
    let n2 = NodeView::Directives(
        crate::parse::DirectivesView { src_output: Some(nb), doc_output: None },
    );
    let n3 = NodeView::Source(t2);
    let nodes = seq![n0, n1, n2, n3];
    assert(!name_open(init_view().dests, na));
    let (s1, e1) = proc_step(init_view(), n0);
    assert(e1 is None);
    assert(s1.dests =~= seq![DestView { name: na, content: Seq::<char>::empty() }]);
    assert(s1.src_bound == Some(0int));
    let (s2, e2) = proc_step(s1, n1);
    assert(e2 is None);
    assert(Seq::<char>::empty() + t1 =~= t1);
    assert(s2.dests =~= seq![DestView { name: na, content: t1 }]);
    assert forall|j: int| 0 <= j < s2.dests.len() implies s2.dests[j].name != nb by {
        assert(s2.dests[j].name == na);
    }
    assert(!name_open(s2.dests, nb));
    let (s3, e3) = proc_step(s2, n2);
    assert(e3 is None);
    assert(s3.dests =~= seq![
        DestView { name: na, content: t1 },
        DestView { name: nb, content: Seq::<char>::empty() },
    ]);
    assert(s3.src_bound == Some(1int));
    let (s4, e4) = proc_step(s3, n3);
    assert(e4 is None);
    assert(Seq::<char>::empty() + t2 =~= t2);
    assert(s4.dests =~= seq![
        DestView { name: na, content: t1 },
        DestView { name: nb, content: t2 },
    ]);
    assert(nodes.drop_first() =~= seq![n1, n2, n3]);
    assert((seq![n1, n2, n3]).drop_first() =~= seq![n2, n3]);
    assert((seq![n2, n3]).drop_first() =~= seq![n3]);
    assert((seq![n3]).drop_first() =~= Seq::<NodeView>::empty());
    assert(proc_run(s4, Seq::<NodeView>::empty()) == (s4, None::<ProcErr>));
    assert(proc_run(s3, seq![n3]) == (s4, None::<ProcErr>));
    assert(proc_run(s2, seq![n2, n3]) == (s4, None::<ProcErr>));
    assert(proc_run(s1, seq![n1, n2, n3]) == (s4, None::<ProcErr>));
    assert(proc_run(init_view(), nodes) == (s4, None::<ProcErr>));
    assert(s4 =~~= ProcessView {
        dests: seq![DestView { name: na, content: t1 }, DestView { name: nb, content: t2 }],
        src_bound: Some(1int),
        doc_bound: None::<int>,
    });
}

/// End to end: a document with no `%` and no backslash is pure source, and
/// processing it appends exactly the text itself, up to a final line
/// ending, to the bound source destination, touching nothing else.
pub proof fn lemma_roundtrip_no_comment(st: ProcessView, s: Seq<char>, i: int)
    requires
        wf(st),
        st.src_bound == Some(i),
        forall|q: int| 0 <= q < s.len() ==> s[q] != '%' && s[q] != '\\',
    ensures
        match lex_spec(s) {
            LexOutcome::Chunks(cs) => match build_nodes(cs) {
                Some(ns) => proc_run(st, ns) == (
                    ProcessView {
                        dests: st.dests.update(
                            i,
                            DestView {
                                name: st.dests[i].name,
                                content: st.dests[i].content
                                    + crate::lex::strip_last_nl(s),
                            },
                        ),
                        src_bound: st.src_bound,
                        doc_bound: st.doc_bound,
                    },
                    None::<ProcErr>,
                ),
                None => false,
            },
            LexOutcome::Fail(_) => false,
        },
{
    crate::lex::lemma_lex_no_comment(s);
    let t = crate::lex::strip_last_nl(s);
    if t.len() == 0 {
        assert(build_nodes(Seq::<crate::lex::ChunkView>::empty()) == Some(
            Seq::<NodeView>::empty(),
        ));
        assert(proc_run(st, Seq::<NodeView>::empty()) == (st, None::<ProcErr>));
        assert(st.dests[i].content + t =~= st.dests[i].content);
        assert(DestView { name: st.dests[i].name, content: st.dests[i].content + t }
            =~~= st.dests[i]);
        assert(st.dests.update(i, st.dests[i]) =~= st.dests);
        assert(st =~~= ProcessView {
            dests: st.dests.update(
                i,
                DestView { name: st.dests[i].name, content: st.dests[i].content + t },
            ),
            src_bound: st.src_bound,
            doc_bound: st.doc_bound,
        });
    } else {
        let cs = seq![crate::lex::ChunkView::Source(t)];
        let n0 = NodeView::Source(t);
        assert(cs.drop_first() =~= Seq::<crate::lex::ChunkView>::empty());
        assert(crate::parse::node_of_chunk(cs[0]) == Some(n0));
        assert(build_nodes(cs.drop_first()) == Some(Seq::<NodeView>::empty()));
        assert(seq![n0] + Seq::<NodeView>::empty() =~= seq![n0]);
        assert(build_nodes(cs) == Some(seq![n0]));
        let (s1, e1) = proc_step(st, n0);
        assert(e1 is None);
        assert((seq![n0]).drop_first() =~= Seq::<NodeView>::empty());
        assert(proc_run(s1, Seq::<NodeView>::empty()) == (s1, None::<ProcErr>));
        assert(proc_run(st, seq![n0]) == (s1, None::<ProcErr>));
    }
}

// ---------------------------------------------------------------------------
// The processor.
// ---------------------------------------------------------------------------

/// The output-routing processor.  It holds every destination a directive
/// has opened, in memory, with the content routed to it; the surrounding
/// program creates the real files from what `finish` hands back.
pub struct Process {
    dests: Vec<Dest>,
    src_bound: Option<usize>,
    doc_bound: Option<usize>,
}

impl View for Process {
    type V = ProcessView;

    closed spec fn view(&self) -> ProcessView {
        ProcessView {
            dests: dests_view(self.dests@),
            src_bound: match self.src_bound {
                Some(i) => Some(i as int),
                None => None,
            },
            doc_bound: match self.doc_bound {
                Some(i) => Some(i as int),
                None => None,
            },
        }
    }
}

impl Default for Process {
    /// A fresh processor: nothing open, nothing bound.
    fn default() -> (r: Self)
        ensures
            r@ == init_view(),
    {
        let r = Process { dests: Vec::new(), src_bound: None, doc_bound: None };
        proof {
            assert(dests_view(Seq::<Dest>::empty()) =~= Seq::<DestView>::empty());
            assert(r@ =~= init_view());
        }
        r
    }
}

impl Process {
    /// Appends `text` to the destination at `i`.
    fn append_at(&mut self, i: usize, text: &str)
        requires
            i < old(self)@.dests.len(),
        ensures
            final(self)@ == (ProcessView {
                dests: old(self)@.dests.update(
                    i as int,
                    DestView {
                        name: old(self)@.dests[i as int].name,
                        content: old(self)@.dests[i as int].content + text@,
                    },
                ),
                src_bound: old(self)@.src_bound,
                doc_bound: old(self)@.doc_bound,
            }),
    {
        let ghost ds0 = self.dests@;
        self.dests[i].content.append(text);
        proof {
            assert(dests_view(self.dests@) =~= old(self)@.dests.update(
                i as int,
                DestView {
                    name: old(self)@.dests[i as int].name,
                    content: old(self)@.dests[i as int].content + text@,
                },
            ));
        }
    }

    /// Opens the destination one directive field names and rebinds that
    /// channel; create-exclusive, so a name already open is an open error.
    #[verifier::loop_isolation(false)]
    fn bind_field(&mut self, name: Option<String>, to_src: bool) -> (r: Result<(), Error>)
        ensures
            ({
                let (st2, e) = bind_one(
                    old(self)@,
                    match name {
                        Some(s) => Some(s@),
                        None => None,
                    },
                    to_src,
                );
                &&& final(self)@ == st2
                &&& match e {
                    None => r is Ok,
                    Some(er) => r matches Err(le) && err_of(er, le),
                }
            }),
    {
        let ghost gname: Option<Seq<char>> = match name {
            Some(ref s) => Some(s@),
            None => None,
        };
        let nm = match name {
            None => {
                proof {
                    assert(final(self)@ =~= old(self)@);
                }
                return Ok(());
            }
            Some(nm) => nm,
        };
        // create-exclusive: fail if this run already opened the name
        let mut j: usize = 0;
        let n = self.dests.len();
        while j < n
            invariant
                j <= n,
                n == self.dests@.len(),
                self == old(self),
                gname == Some(nm@),
                forall|q: int| 0 <= q < j ==> dests_view(self.dests@)[q].name != nm@,
            decreases n - j,
        {
            if self.dests[j].name.eq(&nm) {
                proof {
                    assert(dests_view(self.dests@)[j as int].name == nm@);
                    assert(name_open(old(self)@.dests, nm@));
                    assert(gname == Some(nm@));
                    assert(bind_one(old(self)@, gname, to_src).1 == Some(ProcErr::AlreadyOpen));
                    assert(bind_one(old(self)@, gname, to_src).0 == old(self)@);
                    assert(self@ == old(self)@);
                }
                return Err(Error::FileOpen(IoError { kind: IoErrorKind::AlreadyExists }));
            }
            j = j + 1;
        }
        proof {
            assert(!name_open(old(self)@.dests, nm@));
        }
        let ghost ds0 = self.dests@;
        let idx = self.dests.len();
        self.dests.push(Dest { name: nm, content: String::new() });
        proof {
            assert(dests_view(self.dests@) =~= dests_view(ds0).push(
                DestView { name: nm@, content: Seq::<char>::empty() },
            ));
        }
        if to_src {
            self.src_bound = Some(idx);
        } else {
            self.doc_bound = Some(idx);
        }
        Ok(())
    }

    /// Consumes one node: routes its text, or opens and rebinds
    /// destinations.  Exactly the step `proc_step` describes, with
    /// `Error::NoOutput` for unbound content and an already-exists open
    /// error for a name opened twice.
    pub fn process(&mut self, node: Node) -> (r: Result<(), Error>)
        requires
            wf(old(self)@),
        ensures
            wf(final(self)@),
            ({
                let (st2, e) = proc_step(old(self)@, node@);
                &&& final(self)@ == st2
                &&& match e {
                    None => r is Ok,
                    Some(er) => r matches Err(le) && err_of(er, le),
                }
            }),
    {
        match node {
            Node::Source(t) => match self.src_bound {
                None => Err(Error::NoOutput),
                Some(i) => {
                    self.append_at(i, t.as_str());
                    Ok(())
                }
            },
            Node::PreservedComment(t) => match self.src_bound {
                None => Err(Error::NoOutput),
                Some(i) => {
                    let mut line = String::from_str("% ");
                    line.append(t.as_str());
                    line.append("\n");
                    proof {
                        reveal_strlit("% ");
                        reveal_strlit("\n");
                        assert(line@ =~= seq!['%', ' '] + t@ + seq!['\n']);
                    }
                    self.append_at(i, line.as_str());
                    Ok(())
                }
            },
            Node::Comment => match self.src_bound {
                None => Err(Error::NoOutput),
                Some(i) => {
                    let line = String::from_str("%\n");
                    proof {
                        reveal_strlit("%\n");
                        assert(line@ =~= seq!['%', '\n']);
                    }
                    self.append_at(i, line.as_str());
                    Ok(())
                }
            },
            Node::Documentation(t) => match self.doc_bound {
                None => Err(Error::NoOutput),
                Some(i) => {
                    self.append_at(i, t.as_str());
                    Ok(())
                }
            },
            Node::Directives(d) => {
                let r1 = self.bind_field(d.src_output, true);
                if let Err(e) = r1 {
                    return Err(e);
                }
                self.bind_field(d.doc_output, false)
            }
        }
    }

    /// Runs the machine over every node of a document, in order, stopping
    /// at the document's first error.
    pub fn process_document(&mut self, input: &str) -> (r: Result<(), Error>)
        requires
            wf(old(self)@),
        ensures
            wf(final(self)@),
            match lex_spec(input@) {
                LexOutcome::Fail(p) => r matches Err(e) && e matches Error::Lex(le)
                    && le.remainder@ == input@.skip(p) && final(self)@ == old(self)@,
                LexOutcome::Chunks(cs) => match build_nodes(cs) {
                    None => r matches Err(e) && e matches Error::DirectivesParse(_)
                        && final(self)@ == old(self)@,
                    Some(ns) => ({
                        let (st2, e) = proc_run(old(self)@, ns);
                        &&& final(self)@ == st2
                        &&& match e {
                            None => r is Ok,
                            Some(er) => r matches Err(le) && err_of(er, le),
                        }
                    }),
                },
            },
    {
        let nodes = match parse::parse_document(input) {
            Ok(ns) => ns,
            Err(e) => {
                return Err(e);
            }
        };
        let ghost ns = nodes_view(nodes@);
        let n = nodes.len();
        let mut i: usize = 0;
        proof {
            assert(ns.skip(0) == ns);
        }
        while i < n
            invariant
                i <= n,
                n == ns.len(),
                n == nodes@.len(),
                ns == nodes_view(nodes@),
                wf(self@),
                match lex_spec(input@) {
                    LexOutcome::Chunks(cs) => build_nodes(cs) == Some(ns),
                    LexOutcome::Fail(_) => false,
                },
                proc_run(old(self)@, ns) == proc_run(self@, ns.skip(i as int)),
            decreases n - i,
        {
            let ghost rest0 = ns.skip(i as int);
            proof {
                assert(rest0.len() == n - i);
                assert(rest0[0] == ns[i as int]);
                assert(ns[i as int] == nodes@[i as int]@);
                assert(rest0.drop_first() =~= ns.skip(i + 1));
            }
            let node = clone_node(&nodes[i]);
            let step = self.process(node);
            if let Err(e) = step {
                return Err(e);
            }
            i = i + 1;
        }
        proof {
            assert(ns.skip(n as int) =~= Seq::<NodeView>::empty());
        }
        Ok(())
    }

    /// Ends the run and hands every destination back, in open order, with
    /// the content routed to it.  Content never waits anywhere else: a node
    /// that found no destination already failed its own step.
    pub fn finish(self) -> (r: Vec<Dest>)
        ensures
            dests_view(r@) == self@.dests,
    {
        self.dests
    }
}

/// An owned copy of a node, field by field.
fn clone_node(n: &Node) -> (r: Node)
    ensures
        r@ == n@,
{
    match n {
        Node::Source(s) => Node::Source(s.clone()),
        Node::Directives(d) => Node::Directives(
            parse::Directives {
                src_output: match &d.src_output {
                    Some(s) => Some(s.clone()),
                    None => None,
                },
                doc_output: match &d.doc_output {
                    Some(s) => Some(s.clone()),
                    None => None,
                },
            },
        ),
        Node::Documentation(s) => Node::Documentation(s.clone()),
        Node::PreservedComment(s) => Node::PreservedComment(s.clone()),
        Node::Comment => Node::Comment,
    }
}

} // verus!
