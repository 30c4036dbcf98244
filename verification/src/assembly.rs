//! The rules by which the pieces of a document become its runs, its stack of
//! open elements and its diagnostics.

use vstd::prelude::*;
use crate::element::ElementView;
use crate::error::ParseError;
use crate::node::{lemma_next_node_rest, spec_next_node, DiagnosticView, NodeView};

verus! {

/// The state of reading a document: the names of the elements that are
/// open, the outermost first; the runs of pieces read so far; and what was
/// found wrong so far.
pub struct Assembly {
    /// The names of the open elements, the outermost first.
    pub stack: Seq<Seq<u8>>,
    /// The runs of pieces.
    pub runs: Seq<Seq<NodeView>>,
    /// What was found wrong.
    pub diagnostics: Seq<DiagnosticView>,
}

/// The number of open elements above the innermost one named `name`; the
/// number of all open elements where none has that name.
pub open spec fn depth_of(stack: Seq<Seq<u8>>, name: Seq<u8>) -> nat
    decreases stack.len(),
{
    if stack.len() > 0 && stack.last() != name {
        1 + depth_of(stack.drop_last(), name)
    } else {
        0
    }
}

/// The open elements behind an end tag named `name`: those around the
/// innermost element of that name; none, where no element has that name.
pub open spec fn closed_stack(stack: Seq<Seq<u8>>, name: Seq<u8>) -> Seq<Seq<u8>> {
    let n = depth_of(stack, name) as int;
    if n < stack.len() {
        stack.take(stack.len() - n - 1)
    } else {
        Seq::empty()
    }
}

/// What an end tag named `name` gives to report: each open element inside
/// the innermost one of that name as closed with it, the innermost first;
/// where no element has that name, every open element so, and the end tag as
/// unmatched.
pub open spec fn closing_diagnostics(stack: Seq<Seq<u8>>, name: Seq<u8>) -> Seq<DiagnosticView> {
    let n = depth_of(stack, name);
    let closed = Seq::new(
        n,
        |i: int| DiagnosticView::ImplicitlyClosed(stack[stack.len() - 1 - i]),
    );
    if n < stack.len() {
        closed
    } else {
        closed.push(DiagnosticView::Problem(ParseError::UnmatchedEndTag, name))
    }
}

/// The runs with one more piece: the piece goes behind the last piece of the
/// last run, and a tag that opens an element ends that run, so that an empty
/// run follows it. The first piece of a document begins its first run.
pub open spec fn appended(runs: Seq<Seq<NodeView>>, node: NodeView) -> Seq<Seq<NodeView>> {
    let begun = if runs.len() == 0 {
        seq![Seq::<NodeView>::empty()]
    } else {
        runs
    };
    let held = begun.update(begun.len() - 1, begun.last().push(node));
    if node is ElementStart {
        held.push(Seq::empty())
    } else {
        held
    }
}

impl Assembly {
    /// The state before anything is read.
    pub open spec fn empty() -> Assembly {
        Assembly { stack: Seq::empty(), runs: Seq::empty(), diagnostics: Seq::empty() }
    }

    /// The state with one more thing found wrong, if there is one.
    pub open spec fn noted(self, problem: Option<DiagnosticView>) -> Assembly {
        match problem {
            Some(d) => Assembly { diagnostics: self.diagnostics.push(d), ..self },
            None => self,
        }
    }

    /// The state with one more piece. A tag that opens an element puts its
    /// name on the stack; an end tag takes from the stack the innermost
    /// element of its name and those inside it, and reports what
    /// [`closing_diagnostics`] says; a tag that is an element by itself, and
    /// content, leave the stack as it is.
    pub open spec fn accepted(self, node: NodeView) -> Assembly {
        Assembly {
            stack: match node {
                NodeView::ElementStart(element) => self.stack.push(element.tag),
                NodeView::ElementEnd(name) => closed_stack(self.stack, name),
                _ => self.stack,
            },
            runs: appended(self.runs, node),
            diagnostics: match node {
                NodeView::ElementEnd(name) => self.diagnostics + closing_diagnostics(
                    self.stack,
                    name,
                ),
                _ => self.diagnostics,
            },
        }
    }

    /// The state behind one step of reading.
    pub open spec fn stepped(self, s: Seq<u8>) -> Assembly {
        let step = spec_next_node(s);
        let noted = self.noted(step.problem);
        match step.node {
            Some(node) => noted.accepted(node),
            None => noted,
        }
    }
}

/// The state behind reading all of `s`, step by step, from the state `a`.
pub open spec fn spec_assemble(s: Seq<u8>, a: Assembly) -> Assembly
    decreases s.len(),
{
    if s.len() == 0 {
        a
    } else {
        proof {
            lemma_next_node_rest(s);
        }
        spec_assemble(spec_next_node(s).rest, a.stepped(s))
    }
}

/// Each element that is still open, the outermost first, reported as left
/// open.
pub open spec fn unterminated(stack: Seq<Seq<u8>>) -> Seq<DiagnosticView> {
    Seq::new(
        stack.len(),
        |i: int| DiagnosticView::Problem(ParseError::UnterminatedDocument, stack[i]),
    )
}

/// The number of steps that reading all of `s` takes.
pub open spec fn spec_steps(s: Seq<u8>) -> nat
    decreases s.len(),
{
    if s.len() == 0 {
        0
    } else {
        proof {
            lemma_next_node_rest(s);
        }
        1 + spec_steps(spec_next_node(s).rest)
    }
}

/// Reading takes no more steps than the input has bytes.
pub proof fn lemma_steps_bounded(s: Seq<u8>)
    ensures
        spec_steps(s) <= s.len(),
    decreases s.len(),
{
    if s.len() > 0 {
        lemma_next_node_rest(s);
        lemma_steps_bounded(spec_next_node(s).rest);
    }
}

/// The number of pieces in all the runs.
pub open spec fn piece_count(runs: Seq<Seq<NodeView>>) -> nat
    decreases runs.len(),
{
    if runs.len() == 0 {
        0
    } else {
        piece_count(runs.drop_last()) + runs.last().len()
    }
}

/// One more piece is one more piece, and at most one more run, or two where
/// the piece is the first.
pub proof fn lemma_appended_count(runs: Seq<Seq<NodeView>>, node: NodeView)
    ensures
        piece_count(appended(runs, node)) == piece_count(runs) + 1,
        runs.len() <= appended(runs, node).len() <= runs.len() + 2,
        runs.len() > 0 ==> appended(runs, node).len() <= runs.len() + 1,
{
    let begun = if runs.len() == 0 {
        seq![Seq::<NodeView>::empty()]
    } else {
        runs
    };
    if runs.len() == 0 {
        assert(begun.drop_last() =~= runs);
    }
    let held = begun.update(begun.len() - 1, begun.last().push(node));
    assert(held.drop_last() =~= begun.drop_last());
    assert(piece_count(held) == piece_count(runs) + 1);
    if node is ElementStart {
        assert(held.push(Seq::empty()).drop_last() =~= held);
    }
}

/// By how much the diagnostics and the open elements of a state outnumber
/// its pieces.
pub open spec fn excess(a: Assembly) -> int {
    a.diagnostics.len() + a.stack.len() - piece_count(a.runs)
}

/// A piece adds no more to the diagnostics and the open elements than the
/// one piece that it is: a tag that opens an element is one more open
/// element; an end tag is unmatched, or closes the element of its name; each
/// element that it reports as closed is one open element less; and a tag that
/// is an element by itself, and content, add nothing.
pub proof fn lemma_accepted_excess(a: Assembly, node: NodeView)
    ensures
        excess(a.accepted(node)) <= excess(a),
        node is Content || node is ElementComplete ==> excess(a.accepted(node)) == excess(a) - 1,
{
    lemma_appended_count(a.runs, node);
    match node {
        NodeView::ElementEnd(name) => {
            lemma_depth_of_bounds(a.stack, name);
        },
        _ => {},
    }
}

/// Reading `s` adds no more pieces than `s` has bytes, no more runs than that
/// and one, and no more to the diagnostics and the open elements than it adds
/// pieces.
pub proof fn lemma_assemble_count(s: Seq<u8>, a: Assembly)
    ensures
        piece_count(spec_assemble(s, a).runs) <= piece_count(a.runs) + s.len(),
        spec_assemble(s, a).runs.len() <= a.runs.len() + s.len() + if a.runs.len() == 0 {
            1int
        } else {
            0
        },
        excess(spec_assemble(s, a)) <= excess(a),
    decreases s.len(),
{
    if s.len() > 0 {
        lemma_next_node_rest(s);
        let step = spec_next_node(s);
        let noted = a.noted(step.problem);
        match step.node {
            Some(node) => {
                lemma_appended_count(a.runs, node);
                lemma_accepted_excess(noted, node);
            },
            None => {},
        }
        lemma_assemble_count(step.rest, a.stepped(s));
    }
}

/// A tag that is an element by itself, and content, leave the open elements
/// as they are.
pub proof fn lemma_stack_kept(a: Assembly, node: NodeView)
    requires
        node is ElementComplete || node is Content,
    ensures
        a.accepted(node).stack == a.stack,
        a.accepted(node).diagnostics == a.diagnostics,
{
}

/// A tag that opens an element and an end tag of the same name, one behind
/// the other, leave the open elements as they were and report nothing.
pub proof fn lemma_matching_end_tag(a: Assembly, element: ElementView)
    ensures
        a.accepted(NodeView::ElementStart(element)).accepted(
            NodeView::ElementEnd(element.tag),
        ).stack == a.stack,
        a.accepted(NodeView::ElementStart(element)).accepted(
            NodeView::ElementEnd(element.tag),
        ).diagnostics == a.diagnostics,
{
}

/// An end tag named like the element around the innermost open one closes
/// both, and reports the innermost as closed with the other.
pub proof fn lemma_end_tag_closes_inner(
    a: Assembly,
    around: Seq<Seq<u8>>,
    name: Seq<u8>,
    inner: Seq<u8>,
)
    requires
        a.stack == around.push(name).push(inner),
        inner != name,
    ensures
        a.accepted(NodeView::ElementEnd(name)).stack == around,
        a.accepted(NodeView::ElementEnd(name)).diagnostics == a.diagnostics.push(
            DiagnosticView::ImplicitlyClosed(inner),
        ),
{
    assert(depth_of(a.stack.drop_last(), name) == 0);
}

/// An end tag whose name no open element has closes every open element and
/// is reported as unmatched behind them.
pub proof fn lemma_unmatched_end_tag(a: Assembly, name: Seq<u8>)
    requires
        forall|i: int| 0 <= i < a.stack.len() ==> a.stack[i] != name,
    ensures
        a.accepted(NodeView::ElementEnd(name)).stack == Seq::<Seq<u8>>::empty(),
        a.accepted(NodeView::ElementEnd(name)).diagnostics.last() == DiagnosticView::Problem(
            ParseError::UnmatchedEndTag,
            name,
        ),
        a.accepted(NodeView::ElementEnd(name)).diagnostics.len() == a.diagnostics.len()
            + a.stack.len() + 1,
{
    lemma_depth_of_absent(a.stack, name);
}

/// No more elements are above the innermost one of a name than are open.
pub proof fn lemma_depth_of_bounds(stack: Seq<Seq<u8>>, name: Seq<u8>)
    ensures
        depth_of(stack, name) <= stack.len(),
    decreases stack.len(),
{
    if stack.len() > 0 && stack.last() != name {
        lemma_depth_of_bounds(stack.drop_last(), name);
    }
}

/// Where no open element is named `name`, `depth_of` counts them all.
pub proof fn lemma_depth_of_absent(stack: Seq<Seq<u8>>, name: Seq<u8>)
    requires
        forall|i: int| 0 <= i < stack.len() ==> stack[i] != name,
    ensures
        depth_of(stack, name) == stack.len(),
    decreases stack.len(),
{
    if stack.len() > 0 {
        lemma_depth_of_absent(stack.drop_last(), name);
    }
}

} // verus!
