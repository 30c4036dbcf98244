//! The reader's state, and the steps that change it.

use vstd::prelude::*;
use crate::assembly::{
    appended, closed_stack, closing_diagnostics, depth_of, unterminated, Assembly,
};
use crate::error::ParseError;
use crate::node::{Diagnostic, DiagnosticView, DomNodeType, NodeView};
use crate::scanner::same_bytes;
use crate::tree::{
    diagnostics_view, forest_view, linked, names_view, nodes_view, Document, DocumentView,
    DomTree,
};

verus! {

/// The reader's state while it goes through a document: the names of the
/// open elements, their number, the forest so far, and what was found wrong
/// so far.
pub struct Assembler<'a> {
    stack: Vec<&'a [u8]>,
    level: usize,
    forest: Vec<DomTree<'a>>,
    diagnostics: Vec<Diagnostic<'a>>,
}

/// The pieces of each run of a forest.
pub open spec fn runs_view(forest: Seq<DomTree>) -> Seq<Seq<NodeView>> {
    Seq::new(forest.len(), |i: int| nodes_view(forest[i].node@))
}

impl<'a> View for Assembler<'a> {
    type V = Assembly;

    closed spec fn view(&self) -> Assembly {
        Assembly {
            stack: names_view(self.stack@),
            runs: runs_view(self.forest@),
            diagnostics: diagnostics_view(self.diagnostics@),
        }
    }
}

impl<'a> Assembler<'a> {
    /// Whether the state is one that reading can reach: the level is the
    /// number of open elements, and each run of the forest holds the place of
    /// the run before it and of the run after it.
    pub closed spec fn wf(&self) -> bool {
        &&& self.level == self.stack@.len()
        &&& forest_view(self.forest@) == linked(runs_view(self.forest@))
    }

    /// The state before anything is read.
    pub fn new() -> (r: Self)
        ensures
            r.wf(),
            r@ == Assembly::empty(),
    {
        let r = Assembler {
            stack: Vec::new(),
            level: 0,
            forest: Vec::new(),
            diagnostics: Vec::new(),
        };
        assert(r@.stack =~= Seq::empty());
        assert(r@.runs =~= Seq::empty());
        assert(r@.diagnostics =~= Seq::empty());
        assert(forest_view(r.forest@) =~= linked(runs_view(r.forest@)));
        r
    }

    /// The number of elements that are open.
    pub fn level(&self) -> (n: usize)
        requires
            self.wf(),
        ensures
            n == self@.stack.len(),
    {
        self.level
    }

    /// Records one more thing found wrong, if there is one.
    pub fn note(&mut self, problem: Option<Diagnostic<'a>>)
        requires
            old(self).wf(),
        ensures
            final(self).wf(),
            final(self)@ == old(self)@.noted(
                match problem {
                    Some(d) => Some(d@),
                    None => None,
                },
            ),
    {
        match problem {
            Some(d) => {
                self.diagnostics.push(d);
                assert(self@.diagnostics =~= old(self)@.diagnostics.push(d@));
            },
            None => {},
        }
    }

    /// Closes the innermost open element named `name` and those inside it,
    /// reporting these as closed with it. Where no open element has that
    /// name, every open element is closed so and the end tag is reported as
    /// unmatched.
    fn close(&mut self, name: &'a [u8])
        requires
            old(self).wf(),
        ensures
            final(self).wf(),
            final(self)@ == (Assembly {
                stack: closed_stack(old(self)@.stack, name@),
                diagnostics: old(self)@.diagnostics + closing_diagnostics(
                    old(self)@.stack,
                    name@,
                ),
                ..old(self)@
            }),
    {
        let ghost open = self@.stack;
        let ghost told = self@.diagnostics;
        let ghost mut k: int = 0;
        let mut found = false;
        while !found && self.stack.len() > 0
            invariant
                self.forest == old(self).forest,
                0 <= k <= open.len(),
                found ==> k < open.len(),
                names_view(self.stack@) == open.take(open.len() - k - if found { 1int } else { 0 }),
                depth_of(open, name@) == k + if found {
                    0
                } else {
                    depth_of(open.take(open.len() - k), name@)
                },
                diagnostics_view(self.diagnostics@) == told + Seq::new(
                    k as nat,
                    |i: int| DiagnosticView::ImplicitlyClosed(open[open.len() - 1 - i]),
                ),
            decreases self.stack@.len() + if found { 0int } else { 1 },
        {
            let ghost held = open.take(open.len() - k);
            let ghost before = self.diagnostics@;
            let top = self.stack.pop().unwrap();
            assert(names_view(self.stack@) =~= held.drop_last());
            if same_bytes(top, name) {
                found = true;
            } else {
                self.diagnostics.push(Diagnostic::ImplicitlyClosed(top));
                assert(diagnostics_view(self.diagnostics@) =~= told + Seq::new(
                    (k + 1) as nat,
                    |i: int| DiagnosticView::ImplicitlyClosed(open[open.len() - 1 - i]),
                )) by {
                    assert(diagnostics_view(self.diagnostics@) =~= diagnostics_view(before).push(
                        DiagnosticView::ImplicitlyClosed(top@),
                    ));
                }
                proof {
                    k = k + 1;
                }
            }
        }
        if !found {
            let ghost before = self.diagnostics@;
            self.diagnostics.push(Diagnostic::Problem(ParseError::UnmatchedEndTag, name));
            assert(diagnostics_view(self.diagnostics@) =~= diagnostics_view(before).push(
                DiagnosticView::Problem(ParseError::UnmatchedEndTag, name@),
            ));
        }
        self.level = self.stack.len();
        assert(self@.stack =~= closed_stack(open, name@));
    }

    /// Puts `node` behind the last piece of the last run. Behind a tag that
    /// opens an element a new run begins: the run that held the last piece
    /// gets the new run as its `next`, and the new run gets that run as its
    /// `pre`.
    fn append(&mut self, node: DomNodeType<'a>)
        requires
            old(self).wf(),
        ensures
            final(self).wf(),
            final(self)@ == (Assembly { runs: appended(old(self)@.runs, node@), ..old(self)@ }),
    {
        let ghost runs = self@.runs;
        let opens = match node {
            DomNodeType::ElementStart(_) => true,
            _ => false,
        };
        if self.forest.len() == 0 {
            self.forest.push(DomTree { pre: None, node: Vec::new(), next: None });
            assert(nodes_view(self.forest@[0].node@) =~= Seq::<NodeView>::empty());
        }
        let ghost begun = runs_view(self.forest@);
        let ghost before = self.forest@;
        let n: usize = self.forest.len();
        let last: usize = n - 1;
        assert(forest_view(before)[last as int] == linked(begun)[last as int]);
        self.forest[last].node.push(node);
        assert(runs_view(self.forest@) =~= begun.update(last as int, begun.last().push(node@))) by {
            assert(nodes_view(self.forest@[last as int].node@) =~= begun.last().push(node@));
        }
        if opens {
            self.forest[last].next = Some(n);
            self.forest.push(DomTree { pre: Some(last), node: Vec::new(), next: None });
            assert(nodes_view(self.forest@[n as int].node@) =~= Seq::<NodeView>::empty());
            assert(runs_view(self.forest@) =~= begun.update(
                last as int,
                begun.last().push(node@),
            ).push(Seq::empty()));
        }
        assert(runs_view(self.forest@) =~= appended(runs, node@));
        assert(forest_view(self.forest@) =~= linked(runs_view(self.forest@))) by {
            assert forall|i: int| 0 <= i < self.forest@.len() implies forest_view(
                self.forest@,
            )[i] == linked(runs_view(self.forest@))[i] by {
                if i < last {
                    assert(forest_view(before)[i] == linked(begun)[i]);
                }
            }
        }
    }

    /// Takes one more piece into the document. A tag that opens an element
    /// puts its name on the stack of open elements; an end tag closes the
    /// innermost open element of its name and those inside it.
    pub fn accept(&mut self, node: DomNodeType<'a>)
        requires
            old(self).wf(),
        ensures
            final(self).wf(),
            final(self)@ == old(self)@.accepted(node@),
    {
        match &node {
            DomNodeType::ElementStart(element) => {
                self.stack.push(element.tag);
                self.level = self.stack.len();
                assert(self@.stack =~= old(self)@.stack.push(element@.tag));
            },
            DomNodeType::ElementEnd(name) => {
                self.close(name);
            },
            _ => {},
        }
        self.append(node);
    }

    /// Ends the document: each element that is still open, the outermost
    /// first, is reported as left open. Returns the forest and all that was
    /// found wrong.
    pub fn finish(self) -> (doc: Document<'a>)
        requires
            self.wf(),
        ensures
            doc@ == (DocumentView {
                forest: linked(self@.runs),
                diagnostics: self@.diagnostics + unterminated(self@.stack),
            }),
    {
        let ghost told = self@.diagnostics;
        let ghost open = self@.stack;
        let Assembler { stack, level, forest, diagnostics } = self;
        let mut diagnostics = diagnostics;
        let mut i: usize = 0;
        while i < stack.len()
            invariant
                i <= stack.len(),
                open == names_view(stack@),
                diagnostics_view(diagnostics@) =~= told + unterminated(open).take(i as int),
            decreases stack.len() - i,
        {
            let ghost before = diagnostics@;
            diagnostics.push(Diagnostic::Problem(ParseError::UnterminatedDocument, stack[i]));
            assert(diagnostics_view(diagnostics@) =~= diagnostics_view(before).push(
                unterminated(open)[i as int],
            ));
            i = i + 1;
        }
        let doc = Document { forest, diagnostics };
        assert(doc@.diagnostics =~= told + unterminated(open));
        doc
    }
}

} // verus!
