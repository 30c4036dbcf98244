//! The document: the pieces of the input in runs, each run linked to the one
//! before it and the one after it, and what was wrong with the input.

use vstd::prelude::*;
use vstd::utf8::valid_utf8;
use crate::assembler::Assembler;
use crate::assembly::{
    lemma_assemble_count, piece_count, spec_assemble, spec_steps, unterminated, Assembly,
};
use crate::cuts::{document_all, is_part_of, is_utf8, lemma_analyze_parts, lemma_analyze_utf8};
use crate::node::{next_node, Diagnostic, DiagnosticView, DomNodeType, NodeView, Step};
use crate::scanner::{LINE_FEED, SPACE};

verus! {

/// What a [`DomTree`] holds, as sequences of bytes.
pub struct TreeView {
    /// Where the run before this one stands in the forest.
    pub pre: Option<usize>,
    /// The pieces of this run.
    pub node: Seq<NodeView>,
    /// Where the run after this one stands in the forest.
    pub next: Option<usize>,
}

/// One run of pieces of a document: the pieces that follow a tag that opens
/// an element, up to the next such tag and with it; for the first run, the
/// pieces from the start of the document.
///
/// The runs of a document stand in one forest, a `Vec`; `pre` and `next` are
/// the places in it of the run before this one and of the one after it.
#[derive(Debug, PartialEq, Eq)]
pub struct DomTree<'a> {
    /// Where the run before this one stands in the forest.
    pub pre: Option<usize>,
    /// The pieces of this run, in the order of the input.
    pub node: Vec<DomNodeType<'a>>,
    /// Where the run after this one stands in the forest.
    pub next: Option<usize>,
}

/// The views of the pieces of a run.
pub open spec fn nodes_view(v: Seq<DomNodeType>) -> Seq<NodeView> {
    Seq::new(v.len(), |i: int| v[i]@)
}

impl<'a> View for DomTree<'a> {
    type V = TreeView;

    open spec fn view(&self) -> TreeView {
        TreeView { pre: self.pre, node: nodes_view(self.node@), next: self.next }
    }
}

/// The views of the runs of a forest.
pub open spec fn forest_view(v: Seq<DomTree>) -> Seq<TreeView> {
    Seq::new(v.len(), |i: int| v[i]@)
}

/// The views of a list of diagnostics.
pub open spec fn diagnostics_view(v: Seq<Diagnostic>) -> Seq<DiagnosticView> {
    Seq::new(v.len(), |i: int| v[i]@)
}

/// The views of a list of names.
pub open spec fn names_view(v: Seq<&[u8]>) -> Seq<Seq<u8>> {
    Seq::new(v.len(), |i: int| v[i]@)
}

/// What a [`Document`] holds, as sequences of bytes.
pub struct DocumentView {
    /// The runs of pieces.
    pub forest: Seq<TreeView>,
    /// What was wrong with the input.
    pub diagnostics: Seq<DiagnosticView>,
}

/// What reading a buffer gives: the forest of its pieces, and what was wrong
/// with it.
#[derive(Debug, PartialEq, Eq)]
pub struct Document<'a> {
    /// The runs of pieces, in the order of the input.
    pub forest: Vec<DomTree<'a>>,
    /// What was wrong with the input, in the order in which it was found.
    pub diagnostics: Vec<Diagnostic<'a>>,
}

impl<'a> View for Document<'a> {
    type V = DocumentView;

    open spec fn view(&self) -> DocumentView {
        DocumentView {
            forest: forest_view(self.forest@),
            diagnostics: diagnostics_view(self.diagnostics@),
        }
    }
}

/// `s` with a space in the place of each line feed.
pub open spec fn normalized(s: Seq<u8>) -> Seq<u8> {
    Seq::new(s.len(), |i: int| if s[i] == LINE_FEED { SPACE } else { s[i] })
}

/// The runs as a forest: each run with the place of the run before it and
/// of the run after it, where there is one.
pub open spec fn linked(runs: Seq<Seq<NodeView>>) -> Seq<TreeView> {
    Seq::new(
        runs.len(),
        |i: int|
            TreeView {
                pre: if i > 0 {
                    Some((i - 1) as usize)
                } else {
                    None
                },
                node: runs[i],
                next: if i + 1 < runs.len() {
                    Some((i + 1) as usize)
                } else {
                    None
                },
            },
    )
}

/// The pieces of each run of a forest.
pub open spec fn runs_of(forest: Seq<TreeView>) -> Seq<Seq<NodeView>> {
    Seq::new(forest.len(), |i: int| forest[i].node)
}

/// What [`DomTree::analyze_html`] returns for the normalized buffer `s`.
pub open spec fn spec_analyze(s: Seq<u8>) -> DocumentView {
    let end = spec_assemble(s, Assembly::empty());
    DocumentView {
        forest: linked(end.runs),
        diagnostics: end.diagnostics + unterminated(end.stack),
    }
}

/// In a forest the run before a run and the run after it lead back to it.
pub proof fn lemma_linked(runs: Seq<Seq<NodeView>>, i: int)
    requires
        0 <= i < runs.len() <= usize::MAX,
    ensures
        linked(runs)[i].node == runs[i],
        linked(runs)[i].pre is None <==> i == 0,
        linked(runs)[i].next is None <==> i == runs.len() - 1,
        linked(runs)[i].pre matches Some(p) ==> p == i - 1 && linked(runs)[p as int].next == Some(
            i as usize,
        ),
        linked(runs)[i].next matches Some(n) ==> n == i + 1 && linked(runs)[n as int].pre == Some(
            i as usize,
        ),
{
}

/// A document has no more pieces than its buffer has bytes, no more runs
/// than that and one, and no more diagnostics than pieces.
pub proof fn lemma_analyze_count(s: Seq<u8>)
    ensures
        spec_analyze(s).forest.len() <= s.len() + 1,
        piece_count(runs_of(spec_analyze(s).forest)) <= s.len(),
        spec_analyze(s).diagnostics.len() <= piece_count(runs_of(spec_analyze(s).forest)),
{
    lemma_assemble_count(s, Assembly::empty());
    let end = spec_assemble(s, Assembly::empty());
    assert(runs_of(linked(end.runs)) =~= end.runs);
}

/// A normalized buffer is as long as the buffer was and holds no line feed,
/// and normalizing it again changes nothing.
pub proof fn lemma_normalized(s: Seq<u8>)
    ensures
        normalized(s).len() == s.len(),
        forall|i: int| 0 <= i < s.len() ==> normalized(s)[i] != LINE_FEED,
        normalized(normalized(s)) == normalized(s),
{
}

/// Puts a space in the place of each line feed of `html`.
pub fn normalize(html: &mut [u8])
    ensures
        final(html)@ == normalized(old(html)@),
{
    let n: usize = html.len();
    let mut i: usize = 0;
    while i < n
        invariant
            n == html@.len(),
            n == old(html)@.len(),
            i <= n,
            forall|k: int| 0 <= k < i ==> html@[k] == normalized(old(html)@)[k],
            forall|k: int| i <= k < n ==> html@[k] == old(html)@[k],
        decreases n - i,
    {
        if html[i] == LINE_FEED {
            html[i] = SPACE;
        }
        i = i + 1;
    }
}

impl<'a> DomTree<'a> {
    /// Reads the document in `html`.
    ///
    /// First a space is put in the place of each line feed of `html`. Then
    /// the buffer is read piece by piece from its start: tags, end tags and
    /// the text between them go, in their order, into the runs of the forest,
    /// and the names of the open elements are kept on a stack. Nothing stops
    /// the reading: what does not parse as a tag is kept as content.
    ///
    /// The forest is empty where the buffer holds nothing but whitespace.
    /// The document has no more pieces than the buffer has bytes, and no
    /// more diagnostics than pieces. All its text is a part of the buffer,
    /// and is valid UTF-8 where the buffer is.
    pub fn analyze_html(html: &'a mut [u8]) -> (doc: Document<'a>)
        ensures
            final(html)@ == normalized(old(html)@),
            doc@ == spec_analyze(normalized(old(html)@)),
            doc.forest@.len() <= old(html)@.len() + 1,
            piece_count(runs_of(doc@.forest)) <= old(html)@.len(),
            doc.diagnostics@.len() <= piece_count(runs_of(doc@.forest)),
            document_all(is_part_of(final(html)@), doc@),
            valid_utf8(old(html)@) ==> valid_utf8(final(html)@) && document_all(is_utf8(), doc@),
    {
        proof {
            lemma_analyze_count(normalized(old(html)@));
            lemma_analyze_parts(normalized(old(html)@));
            if valid_utf8(old(html)@) {
                lemma_analyze_utf8(old(html)@);
            }
        }
        normalize(html);
        let text: &'a [u8] = html;
        let mut state = Assembler::new();
        let mut input: &'a [u8] = text;
        // Each turn of the loop is one step of `spec_steps`.
        let ghost mut steps: nat = 0;
        while input.len() > 0
            invariant
                state.wf(),
                spec_assemble(text@, Assembly::empty()) == spec_assemble(input@, state@),
                spec_steps(text@) == steps + spec_steps(input@),
            decreases input@.len(),
        {
            proof {
                steps = steps + 1;
            }
            let Step { rest, node, problem } = next_node(input);
            state.note(problem);
            match node {
                Some(found) => {
                    state.accept(found);
                },
                None => {},
            }
            input = rest;
        }
        state.finish()
    }
}

} // verus!
