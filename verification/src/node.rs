//! The pieces that a document is read as: tags, end tags and text.

use vstd::prelude::*;
use crate::element::{
    lemma_element_rest, parser_element, spec_parser_element, DomElement, ElementView,
};
use crate::error::ParseError;
use crate::scanner::{
    find_byte, index_of, lemma_index_of_bounds, lemma_name_len_bounds, lemma_space_len_bounds,
    skip_space, spec_skip_space, spec_while_element1, while_element1, GREATER_THAN, LESS_THAN,
    SLASH,
};
use crate::value::cut_result_view;

verus! {

/// What a [`DomNodeType`] holds, as sequences of bytes.
pub enum NodeView {
    /// A tag that opens an element.
    ElementStart(ElementView),
    /// An end tag, by its name.
    ElementEnd(Seq<u8>),
    /// A tag that is an element by itself.
    ElementComplete(ElementView),
    /// Text between tags.
    Content(Seq<u8>),
}

/// One piece of a document.
#[derive(Debug, PartialEq, Eq)]
pub enum DomNodeType<'a> {
    /// A tag that ends in `>`: it opens an element.
    ElementStart(DomElement<'a>),
    /// An end tag, by its name.
    ElementEnd(&'a [u8]),
    /// A tag that ends in `/>`: an element by itself.
    ElementComplete(DomElement<'a>),
    /// Text between tags.
    Content(&'a [u8]),
}

impl<'a> View for DomNodeType<'a> {
    type V = NodeView;

    open spec fn view(&self) -> NodeView {
        match *self {
            DomNodeType::ElementStart(element) => NodeView::ElementStart(element@),
            DomNodeType::ElementEnd(name) => NodeView::ElementEnd(name@),
            DomNodeType::ElementComplete(element) => NodeView::ElementComplete(element@),
            DomNodeType::Content(text) => NodeView::Content(text@),
        }
    }
}

/// What a [`Diagnostic`] holds, as sequences of bytes.
pub enum DiagnosticView {
    /// An element that was open when an end tag closed one around it.
    ImplicitlyClosed(Seq<u8>),
    /// A problem, and the text that has it.
    Problem(ParseError, Seq<u8>),
}

/// Something wrong with a document that did not stop it from being read.
#[derive(Clone, Copy, Debug, PartialEq, Eq)]
pub enum Diagnostic<'a> {
    /// The element of this name was open when an end tag closed one around
    /// it, and was closed with it.
    ImplicitlyClosed(&'a [u8]),
    /// A problem, and the text that has it: for `UnmatchedEndTag` the name of
    /// the end tag, for `UnterminatedDocument` the name of a tag left open,
    /// for `EmptyTagName` and `MalformedTag` the text that begins with `<`
    /// and was kept as content.
    Problem(ParseError, &'a [u8]),
}

impl<'a> View for Diagnostic<'a> {
    type V = DiagnosticView;

    open spec fn view(&self) -> DiagnosticView {
        match *self {
            Diagnostic::ImplicitlyClosed(name) => DiagnosticView::ImplicitlyClosed(name@),
            Diagnostic::Problem(e, text) => DiagnosticView::Problem(e, text@),
        }
    }
}

/// The view of what [`classify`] returns.
pub open spec fn node_result_view(r: Result<(&[u8], DomNodeType), ParseError>) -> Result<
    (Seq<u8>, NodeView),
    ParseError,
> {
    match r {
        Ok((rest, node)) => Ok((rest@, node@)),
        Err(e) => Err(e),
    }
}

/// What [`classify`] returns on `s`: the tag that `s` begins with behind
/// optional whitespace, as an element by itself where it ends in `/>` and as
/// the start of one where it ends in `>`; the tag parser's error where there
/// is no tag.
pub open spec fn spec_classify(s: Seq<u8>) -> Result<(Seq<u8>, NodeView), ParseError> {
    match spec_parser_element(spec_skip_space(s)) {
        Ok((rest, (element, end))) => if end.len() == 2 {
            Ok((rest, NodeView::ElementComplete(element)))
        } else {
            Ok((rest, NodeView::ElementStart(element)))
        },
        Err(e) => Err(e),
    }
}

/// What [`parser_end_tag`] returns on `s`.
///
/// An end tag is `</`, a name, optional whitespace, and `>`.
pub open spec fn spec_parser_end_tag(s: Seq<u8>) -> Result<(Seq<u8>, Seq<u8>), ParseError> {
    if s.len() < 2 || s[0] != LESS_THAN || s[1] != SLASH {
        Err(ParseError::MalformedTag)
    } else {
        match spec_while_element1(s.skip(2)) {
            None => Err(ParseError::MalformedTag),
            Some((named, name)) => {
                let end = spec_skip_space(named);
                if end.len() >= 1 && end[0] == GREATER_THAN {
                    Ok((end.skip(1), name))
                } else {
                    Err(ParseError::MalformedTag)
                }
            },
        }
    }
}

/// The number of bytes of content that `s` begins with: its first byte and
/// those that follow up to the next `<`; none where `s` is empty.
pub open spec fn content_len(s: Seq<u8>) -> nat {
    if s.len() == 0 {
        0
    } else {
        1 + index_of(s.skip(1), LESS_THAN)
    }
}

/// What [`take_content`] returns on `s`: what is left behind the content that
/// `s` begins with, and the content.
pub open spec fn spec_take_content(s: Seq<u8>) -> (Seq<u8>, Seq<u8>) {
    let n = content_len(s) as int;
    (s.skip(n), s.take(n))
}

/// What one step of reading a document finds.
pub struct StepView {
    /// What is left of the input.
    pub rest: Seq<u8>,
    /// The piece that was read, if there was one.
    pub node: Option<NodeView>,
    /// What was wrong with the input that the piece was read from.
    pub problem: Option<DiagnosticView>,
}

/// What [`next_node`] finds, as slices of the input.
pub struct Step<'a> {
    /// What is left of the input.
    pub rest: &'a [u8],
    /// The piece that was read, if there was one.
    pub node: Option<DomNodeType<'a>>,
    /// What was wrong with the input that the piece was read from.
    pub problem: Option<Diagnostic<'a>>,
}

impl<'a> View for Step<'a> {
    type V = StepView;

    open spec fn view(&self) -> StepView {
        StepView {
            rest: self.rest@,
            node: match self.node {
                Some(node) => Some(node@),
                None => None,
            },
            problem: match self.problem {
                Some(problem) => Some(problem@),
                None => None,
            },
        }
    }
}

/// Text that is kept as content, and what is wrong with it: nothing, where
/// it does not begin with `<`; else `e`.
pub open spec fn spec_content_step(s: Seq<u8>, e: ParseError) -> StepView {
    let (rest, text) = spec_take_content(s);
    StepView {
        rest,
        node: Some(NodeView::Content(text)),
        problem: if s[0] == LESS_THAN {
            Some(DiagnosticView::Problem(e, text))
        } else {
            None
        },
    }
}

/// What [`next_node`] returns on `s`.
///
/// Whitespace is passed over. Where input is left, it is read as a tag if a
/// tag parses; else as an end tag, if it begins with `</` and an end tag
/// parses; else it is content up to the next `<`. Content that begins with
/// `<` is a tag that did not parse: the problem is the end tag parser's error
/// where it begins with `</`, and the tag parser's otherwise.
pub open spec fn spec_next_node(s: Seq<u8>) -> StepView {
    let t = spec_skip_space(s);
    if t.len() == 0 {
        StepView { rest: t, node: None, problem: None }
    } else {
        match spec_classify(s) {
            Ok((rest, node)) => StepView { rest, node: Some(node), problem: None },
            Err(e) => if t.len() >= 2 && t[0] == LESS_THAN && t[1] == SLASH {
                match spec_parser_end_tag(t) {
                    Ok((rest, name)) => StepView {
                        rest,
                        node: Some(NodeView::ElementEnd(name)),
                        problem: None,
                    },
                    Err(e) => spec_content_step(t, e),
                }
            } else {
                spec_content_step(t, e)
            },
        }
    }
}

/// A step on input that is not empty takes at least one byte, and what is
/// left behind it is the end of the input.
pub proof fn lemma_next_node_rest(s: Seq<u8>)
    requires
        s.len() > 0,
    ensures
        spec_next_node(s).rest.len() < s.len(),
        spec_next_node(s).rest == s.skip(s.len() - spec_next_node(s).rest.len()),
{
    lemma_space_len_bounds(s);
    let t = spec_skip_space(s);
    if t.len() > 0 {
        lemma_element_rest(t);
        lemma_end_tag_rest(t);
        lemma_index_of_bounds(t.skip(1), LESS_THAN);
    }
}

/// Whether input begins with a tag depends on the input alone: two results
/// of [`classify`] on one input hold the same bytes, and where one is a
/// failure the other is the same failure.
pub proof fn lemma_classify_repeats(
    input: &[u8],
    first: Result<(&[u8], DomNodeType), ParseError>,
    second: Result<(&[u8], DomNodeType), ParseError>,
)
    requires
        node_result_view(first) == spec_classify(input@),
        node_result_view(second) == spec_classify(input@),
    ensures
        node_result_view(first) == node_result_view(second),
        first is Err ==> second == first,
{
}

/// An end tag takes at least four bytes, and what is left behind it is the
/// end of the input.
pub proof fn lemma_end_tag_rest(s: Seq<u8>)
    ensures
        match spec_parser_end_tag(s) {
            Ok((rest, name)) => rest.len() + 4 <= s.len() && rest == s.skip(s.len() - rest.len()),
            Err(_) => true,
        },
{
    if s.len() >= 2 {
        lemma_name_len_bounds(s.skip(2));
        match spec_while_element1(s.skip(2)) {
            Some((named, name)) => {
                lemma_space_len_bounds(named);
            },
            None => {},
        }
    }
}

/// Decides whether `input` begins, behind optional whitespace, with a tag,
/// by parsing one. Returns what follows the tag, and the tag: as
/// `ElementComplete` where it ends in `/>`, as `ElementStart` where it ends
/// in `>`. Where no tag parses, the tag parser's error says why.
pub fn classify<'a>(input: &'a [u8]) -> (r: Result<(&'a [u8], DomNodeType<'a>), ParseError>)
    ensures
        node_result_view(r) == spec_classify(input@),
        r matches Ok((rest, _)) ==> rest@.len() < input@.len() && rest@ == input@.skip(
            input@.len() - rest@.len(),
        ),
{
    match parser_element(skip_space(input)) {
        Ok((rest, (element, end))) => if end.len() == 2 {
            Ok((rest, DomNodeType::ElementComplete(element)))
        } else {
            Ok((rest, DomNodeType::ElementStart(element)))
        },
        Err(e) => Err(e),
    }
}

/// Parses one end tag: `</`, a name, optional whitespace, and `>`. Returns
/// what follows the end tag, and the name; fails with `MalformedTag` where
/// `input` does not begin with an end tag.
pub fn parser_end_tag<'a>(input: &'a [u8]) -> (r: Result<(&'a [u8], &'a [u8]), ParseError>)
    ensures
        cut_result_view(r) == spec_parser_end_tag(input@),
        r matches Ok((rest, _)) ==> rest@.len() < input@.len() && rest@ == input@.skip(
            input@.len() - rest@.len(),
        ),
{
    proof {
        lemma_end_tag_rest(input@);
    }
    if input.len() < 2 || input[0] != LESS_THAN || input[1] != SLASH {
        return Err(ParseError::MalformedTag);
    }
    match while_element1(&input[2..input.len()]) {
        None => Err(ParseError::MalformedTag),
        Some((named, name)) => {
            let end = skip_space(named);
            if end.len() >= 1 && end[0] == GREATER_THAN {
                Ok((&end[1..end.len()], name))
            } else {
                Err(ParseError::MalformedTag)
            }
        },
    }
}

/// Takes content from `input`: its first byte, whatever it is, and what
/// follows up to the next `<`. Returns what is left, and the content; the
/// content is empty only where `input` is.
pub fn take_content<'a>(input: &'a [u8]) -> (r: (&'a [u8], &'a [u8]))
    ensures
        (r.0@, r.1@) == spec_take_content(input@),
{
    if input.len() == 0 {
        return (input, input);
    }
    let n: usize = 1 + find_byte(&input[1..input.len()], LESS_THAN);
    (&input[n..input.len()], &input[0..n])
}

/// Content from the start of `input`, with the problem `e` where it begins
/// with `<`.
fn content_step<'a>(input: &'a [u8], e: ParseError) -> (step: Step<'a>)
    requires
        input@.len() > 0,
    ensures
        step@ == spec_content_step(input@, e),
{
    let (rest, text) = take_content(input);
    let problem = if input[0] == LESS_THAN {
        Some(Diagnostic::Problem(e, text))
    } else {
        None
    };
    Step { rest, node: Some(DomNodeType::Content(text)), problem }
}

/// Reads the next piece of a document from `input`: whitespace is passed
/// over, and what follows is a tag, an end tag or content, in this order of
/// preference. Returns what is left, the piece where there is one (there is
/// none where only whitespace was left), and the problem where the piece is
/// content that begins with `<`.
///
/// Every step on input that is not empty takes at least one byte of it.
pub fn next_node<'a>(input: &'a [u8]) -> (step: Step<'a>)
    ensures
        step@ == spec_next_node(input@),
        step.rest@.len() <= input@.len(),
        input@.len() > 0 ==> step.rest@.len() < input@.len(),
        step.rest@ == input@.skip(input@.len() - step.rest@.len()),
{
    proof {
        if input@.len() > 0 {
            lemma_next_node_rest(input@);
        }
    }
    let text = skip_space(input);
    if text.len() == 0 {
        return Step { rest: text, node: None, problem: None };
    }
    match classify(input) {
        Ok((rest, node)) => Step { rest, node: Some(node), problem: None },
        Err(e) => if text.len() >= 2 && text[0] == LESS_THAN && text[1] == SLASH {
            match parser_end_tag(text) {
                Ok((rest, name)) => Step {
                    rest,
                    node: Some(DomNodeType::ElementEnd(name)),
                    problem: None,
                },
                Err(e) => content_step(text, e),
            }
        } else {
            content_step(text, e)
        },
    }
}

} // verus!
