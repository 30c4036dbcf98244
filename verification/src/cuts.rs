//! Where the parsers cut their input, and what that keeps.
//!
//! The grammar cuts a sequence of bytes only at one of its ends, or before or
//! behind a byte of ASCII. So whatever holds of a buffer and of both sides of
//! each such cut holds of every name, value and piece of text that is read
//! from the buffer. Two such things are stated here: that the text is valid
//! UTF-8 where the buffer is, and that the text is a part of the buffer.

use vstd::prelude::*;
use vstd::utf8::{
    is_char_boundary_iff_not_is_continuation_byte, pop_first_scalar, valid_utf8,
    valid_utf8_concat, valid_utf8_split,
};
use crate::assembly::{lemma_depth_of_bounds, spec_assemble, Assembly};
use crate::attr::{lemma_attr_rest, spec_parser_attr, AttrView};
use crate::element::{spec_parser_attrs, spec_parser_element, spec_styles, ElementView};
use crate::node::{
    content_len, lemma_next_node_rest, spec_next_node, spec_parser_end_tag, spec_take_content,
    DiagnosticView, NodeView,
};
use crate::scanner::{
    index_of, lemma_index_of_bounds, lemma_name_len_bounds, lemma_space_len_bounds, name_len,
    space_len, spec_skip_space, spec_while_element1, EQUALS, LESS_THAN,
};
use crate::style::{
    lemma_trailing_space_len_bounds, spec_declaration, spec_parser_style, trailing_space_len,
    trimmed, COLON, SEMICOLON,
};
use crate::tree::{normalized, spec_analyze, DocumentView};
use crate::value::{
    lemma_quoted_len_bounds, quote_byte, quoted_len, spec_parser_attr_value, spec_take_quoted,
};

verus! {

/// Whether `b` is a byte of ASCII.
pub open spec fn ascii_byte(b: u8) -> bool {
    b < 0x80
}

/// Whether `n` is a place where the grammar may cut `s`: an end of `s`, or
/// a place before or behind a byte of ASCII.
pub open spec fn cut_point(s: Seq<u8>, n: int) -> bool {
    &&& 0 <= n <= s.len()
    &&& (n == 0 || n == s.len() || ascii_byte(s[n]) || ascii_byte(s[n - 1]))
}

/// Whether `p`, where it holds of a sequence, holds of both sides of every
/// cut that the grammar may make in it.
pub open spec fn kept_by_cuts(p: spec_fn(Seq<u8>) -> bool) -> bool {
    forall|s: Seq<u8>, n: int|
        #![trigger s.take(n)]
        #![trigger s.skip(n)]
        p(s) && cut_point(s, n) ==> p(s.take(n)) && p(s.skip(n))
}

/// Whether `p` holds of a piece of text that may be absent.
pub open spec fn optional_all(p: spec_fn(Seq<u8>) -> bool, t: Option<Seq<u8>>) -> bool {
    match t {
        Some(text) => p(text),
        None => true,
    }
}

/// Whether `p` holds of the name and of the value of an attribute.
pub open spec fn attr_all(p: spec_fn(Seq<u8>) -> bool, a: AttrView) -> bool {
    p(a.0) && optional_all(p, a.1)
}

/// Whether `p` holds of the names and of the values of a list of attributes.
pub open spec fn attrs_all(p: spec_fn(Seq<u8>) -> bool, v: Seq<AttrView>) -> bool {
    forall|i: int| 0 <= i < v.len() ==> attr_all(p, #[trigger] v[i])
}

/// Whether `p` holds of the name of a tag, of its attributes and of its
/// declarations.
pub open spec fn element_all(p: spec_fn(Seq<u8>) -> bool, e: ElementView) -> bool {
    p(e.tag) && attrs_all(p, e.attr) && attrs_all(p, e.style)
}

/// Whether `p` holds of all the text that a piece holds.
pub open spec fn node_all(p: spec_fn(Seq<u8>) -> bool, node: NodeView) -> bool {
    match node {
        NodeView::ElementStart(e) => element_all(p, e),
        NodeView::ElementEnd(name) => p(name),
        NodeView::ElementComplete(e) => element_all(p, e),
        NodeView::Content(text) => p(text),
    }
}

/// Whether `p` holds of the text that a diagnostic holds.
pub open spec fn diagnostic_all(p: spec_fn(Seq<u8>) -> bool, d: DiagnosticView) -> bool {
    match d {
        DiagnosticView::ImplicitlyClosed(name) => p(name),
        DiagnosticView::Problem(_, text) => p(text),
    }
}

/// Whether `p` holds of all the text in a state of reading.
pub open spec fn assembly_all(p: spec_fn(Seq<u8>) -> bool, a: Assembly) -> bool {
    &&& forall|i: int| 0 <= i < a.stack.len() ==> p(#[trigger] a.stack[i])
    &&& forall|i: int, j: int|
        0 <= i < a.runs.len() && 0 <= j < a.runs[i].len() ==> node_all(
            p,
            #[trigger] a.runs[i][j],
        )
    &&& forall|i: int|
        0 <= i < a.diagnostics.len() ==> diagnostic_all(p, #[trigger] a.diagnostics[i])
}

/// Whether `p` holds of all the text in a document.
pub open spec fn document_all(p: spec_fn(Seq<u8>) -> bool, d: DocumentView) -> bool {
    &&& forall|i: int, j: int|
        0 <= i < d.forest.len() && 0 <= j < d.forest[i].node.len() ==> node_all(
            p,
            #[trigger] d.forest[i].node[j],
        )
    &&& forall|i: int|
        0 <= i < d.diagnostics.len() ==> diagnostic_all(p, #[trigger] d.diagnostics[i])
}

/// What is kept by cuts holds of both sides of a cut.
pub proof fn lemma_cut(p: spec_fn(Seq<u8>) -> bool, s: Seq<u8>, n: int)
    requires
        kept_by_cuts(p),
        p(s),
        cut_point(s, n),
    ensures
        p(s.take(n)),
        p(s.skip(n)),
{
}

/// What is kept by cuts holds of what is left behind leading whitespace.
pub proof fn lemma_skip_space_keeps(p: spec_fn(Seq<u8>) -> bool, s: Seq<u8>)
    requires
        kept_by_cuts(p),
        p(s),
    ensures
        p(spec_skip_space(s)),
{
    lemma_space_len_bounds(s);
    lemma_cut(p, s, space_len(s) as int);
}

/// What is kept by cuts holds of a name and of what follows it.
pub proof fn lemma_while_element1_keeps(p: spec_fn(Seq<u8>) -> bool, s: Seq<u8>)
    requires
        kept_by_cuts(p),
        p(s),
    ensures
        match spec_while_element1(s) {
            Some((rest, name)) => p(rest) && p(name),
            None => true,
        },
{
    lemma_name_len_bounds(s);
    lemma_cut(p, s, name_len(s) as int);
}

/// What is kept by cuts holds of a quoted value and of what follows it.
pub proof fn lemma_take_quoted_keeps(p: spec_fn(Seq<u8>) -> bool, s: Seq<u8>, q: u8)
    requires
        kept_by_cuts(p),
        p(s),
        ascii_byte(q),
    ensures
        match spec_take_quoted(s, q) {
            Some((rest, value)) => p(rest) && p(value),
            None => true,
        },
{
    lemma_quoted_len_bounds(s, q);
    match quoted_len(s, q) {
        Some(n) => {
            lemma_cut(p, s, n as int);
            lemma_cut(p, s, n as int + 1);
        },
        None => {},
    }
}

/// What is kept by cuts holds of a value and of what follows it.
pub proof fn lemma_attr_value_keeps(p: spec_fn(Seq<u8>) -> bool, s: Seq<u8>)
    requires
        kept_by_cuts(p),
        p(s),
    ensures
        match spec_parser_attr_value(s) {
            Ok((rest, value)) => p(rest) && p(value),
            Err(_) => true,
        },
{
    lemma_skip_space_keeps(p, s);
    let a = spec_skip_space(s);
    if a.len() > 0 && a[0] == EQUALS {
        lemma_cut(p, a, 1);
        lemma_skip_space_keeps(p, a.skip(1));
        let b = spec_skip_space(a.skip(1));
        if b.len() > 0 {
            if quote_byte(b[0]) {
                lemma_cut(p, b, 1);
                lemma_take_quoted_keeps(p, b.skip(1), b[0]);
            } else {
                lemma_while_element1_keeps(p, b);
            }
        }
    }
}

/// What is kept by cuts holds of an attribute and of what follows it.
pub proof fn lemma_attr_keeps(p: spec_fn(Seq<u8>) -> bool, s: Seq<u8>)
    requires
        kept_by_cuts(p),
        p(s),
    ensures
        match spec_parser_attr(s) {
            Ok((rest, a)) => p(rest) && attr_all(p, a),
            Err(_) => true,
        },
{
    lemma_skip_space_keeps(p, s);
    lemma_while_element1_keeps(p, spec_skip_space(s));
    match spec_while_element1(spec_skip_space(s)) {
        Some((rest, key)) => {
            lemma_attr_value_keeps(p, rest);
        },
        None => {},
    }
}

/// What is kept by cuts holds of the attributes that follow one another,
/// and of what follows them.
pub proof fn lemma_attrs_keeps(p: spec_fn(Seq<u8>) -> bool, s: Seq<u8>)
    requires
        kept_by_cuts(p),
        p(s),
    ensures
        p(spec_parser_attrs(s).0),
        attrs_all(p, spec_parser_attrs(s).1),
    decreases s.len(),
{
    lemma_attr_keeps(p, s);
    lemma_attr_rest(s);
    match spec_parser_attr(s) {
        Ok((rest, a)) => {
            lemma_attrs_keeps(p, rest);
        },
        Err(_) => {},
    }
}

/// What is kept by cuts holds of a sequence without the whitespace at its
/// ends.
pub proof fn lemma_trimmed_keeps(p: spec_fn(Seq<u8>) -> bool, s: Seq<u8>)
    requires
        kept_by_cuts(p),
        p(s),
    ensures
        p(trimmed(s)),
{
    lemma_skip_space_keeps(p, s);
    let t = spec_skip_space(s);
    lemma_trailing_space_len_bounds(t);
    lemma_cut(p, t, t.len() - trailing_space_len(t));
}

/// What is kept by cuts holds of the property and of the value of a
/// declaration.
pub proof fn lemma_declaration_keeps(p: spec_fn(Seq<u8>) -> bool, s: Seq<u8>)
    requires
        kept_by_cuts(p),
        p(s),
    ensures
        attr_all(p, spec_declaration(s)),
{
    lemma_index_of_bounds(s, COLON);
    let n = index_of(s, COLON) as int;
    lemma_cut(p, s, n);
    if n < s.len() {
        lemma_cut(p, s, n + 1);
    }
}

/// What is kept by cuts holds of the declarations in a value.
pub proof fn lemma_parser_style_keeps(p: spec_fn(Seq<u8>) -> bool, s: Seq<u8>)
    requires
        kept_by_cuts(p),
        p(s),
    ensures
        attrs_all(p, spec_parser_style(s)),
    decreases s.len(),
{
    lemma_index_of_bounds(s, SEMICOLON);
    let n = index_of(s, SEMICOLON) as int;
    lemma_cut(p, s, n);
    lemma_trimmed_keeps(p, s.take(n));
    let piece = trimmed(s.take(n));
    if piece.len() > 0 {
        lemma_declaration_keeps(p, piece);
    }
    if n < s.len() {
        lemma_cut(p, s, n + 1);
        lemma_parser_style_keeps(p, s.skip(n + 1));
    }
}

/// What is kept by cuts holds of the declarations of attributes of which it
/// holds.
pub proof fn lemma_styles_keeps(p: spec_fn(Seq<u8>) -> bool, attr: Seq<AttrView>)
    requires
        kept_by_cuts(p),
        attrs_all(p, attr),
    ensures
        attrs_all(p, spec_styles(attr)),
    decreases attr.len(),
{
    if attr.len() > 0 {
        lemma_styles_keeps(p, attr.drop_last());
        match attr.last().1 {
            Some(value) => {
                lemma_parser_style_keeps(p, value);
            },
            None => {},
        }
    }
}

/// What is kept by cuts holds of a tag and of what follows it.
pub proof fn lemma_element_keeps(p: spec_fn(Seq<u8>) -> bool, s: Seq<u8>)
    requires
        kept_by_cuts(p),
        p(s),
    ensures
        match spec_parser_element(s) {
            Ok((rest, (element, end))) => p(rest) && element_all(p, element) && p(end),
            Err(_) => true,
        },
{
    if s.len() > 0 && s[0] == LESS_THAN {
        lemma_cut(p, s, 1);
        lemma_while_element1_keeps(p, s.skip(1));
        match spec_while_element1(s.skip(1)) {
            Some((named, tag)) => {
                lemma_attrs_keeps(p, named);
                let (listed, attr) = spec_parser_attrs(named);
                lemma_styles_keeps(p, attr);
                lemma_skip_space_keeps(p, listed);
                let end = spec_skip_space(listed);
                if end.len() >= 1 && ascii_byte(end[0]) {
                    lemma_cut(p, end, 1);
                    if end.len() >= 2 && ascii_byte(end[1]) {
                        lemma_cut(p, end, 2);
                    }
                }
            },
            None => {},
        }
    }
}

/// What is kept by cuts holds of the name of an end tag and of what follows
/// the end tag.
pub proof fn lemma_end_tag_keeps(p: spec_fn(Seq<u8>) -> bool, s: Seq<u8>)
    requires
        kept_by_cuts(p),
        p(s),
    ensures
        match spec_parser_end_tag(s) {
            Ok((rest, name)) => p(rest) && p(name),
            Err(_) => true,
        },
{
    if s.len() >= 2 && ascii_byte(s[1]) {
        lemma_cut(p, s, 2);
        lemma_while_element1_keeps(p, s.skip(2));
        match spec_while_element1(s.skip(2)) {
            Some((named, name)) => {
                lemma_skip_space_keeps(p, named);
                let end = spec_skip_space(named);
                if end.len() >= 1 && ascii_byte(end[0]) {
                    lemma_cut(p, end, 1);
                }
            },
            None => {},
        }
    }
}

/// What is kept by cuts holds of content and of what follows it.
pub proof fn lemma_content_keeps(p: spec_fn(Seq<u8>) -> bool, s: Seq<u8>)
    requires
        kept_by_cuts(p),
        p(s),
    ensures
        p(spec_take_content(s).0),
        p(spec_take_content(s).1),
{
    if s.len() > 0 {
        lemma_index_of_bounds(s.skip(1), LESS_THAN);
    }
    lemma_cut(p, s, content_len(s) as int);
}

/// What is kept by cuts holds of what one step reads, and of what is left.
pub proof fn lemma_next_node_keeps(p: spec_fn(Seq<u8>) -> bool, s: Seq<u8>)
    requires
        kept_by_cuts(p),
        p(s),
    ensures
        p(spec_next_node(s).rest),
        match spec_next_node(s).node {
            Some(node) => node_all(p, node),
            None => true,
        },
        match spec_next_node(s).problem {
            Some(d) => diagnostic_all(p, d),
            None => true,
        },
{
    lemma_skip_space_keeps(p, s);
    let t = spec_skip_space(s);
    lemma_element_keeps(p, t);
    lemma_end_tag_keeps(p, t);
    lemma_content_keeps(p, t);
}

/// A state keeps what holds of all its text when it takes a piece of whose
/// text the same holds.
pub proof fn lemma_accepted_keeps(p: spec_fn(Seq<u8>) -> bool, a: Assembly, node: NodeView)
    requires
        assembly_all(p, a),
        node_all(p, node),
    ensures
        assembly_all(p, a.accepted(node)),
{
    match node {
        NodeView::ElementEnd(name) => {
            lemma_depth_of_bounds(a.stack, name);
        },
        _ => {},
    }
}

/// What is kept by cuts holds of all the text of the state behind reading
/// `s`, where it holds of `s` and of all the text of the state before.
pub proof fn lemma_assemble_keeps(p: spec_fn(Seq<u8>) -> bool, s: Seq<u8>, a: Assembly)
    requires
        kept_by_cuts(p),
        p(s),
        assembly_all(p, a),
    ensures
        assembly_all(p, spec_assemble(s, a)),
    decreases s.len(),
{
    if s.len() > 0 {
        lemma_next_node_rest(s);
        lemma_next_node_keeps(p, s);
        let step = spec_next_node(s);
        let noted = a.noted(step.problem);
        match step.node {
            Some(node) => {
                lemma_accepted_keeps(p, noted, node);
            },
            None => {},
        }
        lemma_assemble_keeps(p, step.rest, a.stepped(s));
    }
}

/// What is kept by cuts and holds of a buffer holds of every tag name,
/// attribute, declaration, end tag, piece of content and diagnostic of the
/// document that is read from the buffer.
pub proof fn lemma_analyze_keeps(p: spec_fn(Seq<u8>) -> bool, s: Seq<u8>)
    requires
        kept_by_cuts(p),
        p(s),
    ensures
        document_all(p, spec_analyze(s)),
{
    lemma_assemble_keeps(p, s, Assembly::empty());
}

/// Being valid UTF-8, as a property of sequences of bytes.
pub open spec fn is_utf8() -> spec_fn(Seq<u8>) -> bool {
    |s: Seq<u8>| valid_utf8(s)
}

/// Being a part of `whole`: the bytes between two places in it.
pub open spec fn is_part_of(whole: Seq<u8>) -> spec_fn(Seq<u8>) -> bool {
    |s: Seq<u8>| exists|from: int, to: int| part_at(s, whole, from, to)
}

/// Whether `s` holds the bytes of `whole` from `from` up to `to`.
pub open spec fn part_at(s: Seq<u8>, whole: Seq<u8>, from: int, to: int) -> bool {
    0 <= from <= to <= whole.len() && s == whole.subrange(from, to)
}

/// Valid UTF-8 that is cut before a byte of ASCII, or at its end, is valid
/// UTF-8 on both sides of the cut.
pub proof fn lemma_cut_before_ascii(s: Seq<u8>, n: int)
    requires
        valid_utf8(s),
        0 <= n <= s.len(),
        n < s.len() ==> ascii_byte(s[n]),
    ensures
        valid_utf8(s.take(n)),
        valid_utf8(s.skip(n)),
{
    if n < s.len() {
        is_char_boundary_iff_not_is_continuation_byte(s, n);
        valid_utf8_split(s, n);
    } else {
        assert(s.take(n) =~= s);
    }
}

/// Valid UTF-8 that is cut behind a byte of ASCII, or at its start, is valid
/// UTF-8 on both sides of the cut.
pub proof fn lemma_cut_behind_ascii(s: Seq<u8>, n: int)
    requires
        valid_utf8(s),
        0 <= n <= s.len(),
        0 < n ==> ascii_byte(s[n - 1]),
    ensures
        valid_utf8(s.take(n)),
        valid_utf8(s.skip(n)),
{
    if n > 0 {
        lemma_cut_before_ascii(s, n - 1);
        let head = s.take(n - 1);
        let tail = s.skip(n - 1);
        assert(pop_first_scalar(tail) =~= s.skip(n));
        let one = tail.take(1);
        assert(valid_utf8(one)) by {
            reveal_with_fuel(valid_utf8, 2);
        }
        valid_utf8_concat(head, one);
        assert(head + one =~= s.take(n));
    } else {
        assert(s.skip(0) =~= s);
    }
}

/// Being valid UTF-8 is kept by cuts.
pub proof fn lemma_utf8_kept_by_cuts()
    ensures
        kept_by_cuts(is_utf8()),
{
    let p = is_utf8();
    assert forall|s: Seq<u8>, n: int|
        #![trigger s.take(n)]
        #![trigger s.skip(n)]
        p(s) && cut_point(s, n) implies p(s.take(n)) && p(s.skip(n)) by {
        if n == 0 || ascii_byte(s[n - 1]) {
            lemma_cut_behind_ascii(s, n);
        } else {
            lemma_cut_before_ascii(s, n);
        }
    }
}

/// Being a part of `whole` is kept by cuts.
pub proof fn lemma_part_kept_by_cuts(whole: Seq<u8>)
    ensures
        kept_by_cuts(is_part_of(whole)),
{
    let p = is_part_of(whole);
    assert forall|s: Seq<u8>, n: int|
        #![trigger s.take(n)]
        #![trigger s.skip(n)]
        p(s) && cut_point(s, n) implies p(s.take(n)) && p(s.skip(n)) by {
        let (from, to) = choose|from: int, to: int| part_at(s, whole, from, to);
        assert(part_at(s.take(n), whole, from, from + n)) by {
            assert(s.take(n) =~= whole.subrange(from, from + n));
        }
        assert(part_at(s.skip(n), whole, from + n, to)) by {
            assert(s.skip(n) =~= whole.subrange(from + n, to));
        }
    }
}

/// Valid UTF-8 with a space in the place of each line feed is valid UTF-8.
pub proof fn lemma_normalized_utf8(s: Seq<u8>)
    requires
        valid_utf8(s),
    ensures
        valid_utf8(normalized(s)),
    decreases s.len(),
{
    if s.len() > 0 {
        let t = normalized(s);
        assert(pop_first_scalar(t) =~= normalized(pop_first_scalar(s)));
        lemma_normalized_utf8(pop_first_scalar(s));
    }
}

/// The document read from a buffer that is valid UTF-8 holds valid UTF-8 in
/// every tag name, attribute, declaration, end tag, piece of content and
/// diagnostic.
pub proof fn lemma_analyze_utf8(s: Seq<u8>)
    requires
        valid_utf8(s),
    ensures
        valid_utf8(normalized(s)),
        document_all(is_utf8(), spec_analyze(normalized(s))),
{
    lemma_normalized_utf8(s);
    lemma_utf8_kept_by_cuts();
    lemma_analyze_keeps(is_utf8(), normalized(s));
}

/// Every tag name, attribute, declaration, end tag, piece of content and
/// diagnostic of a document is a part of the buffer that it was read from.
pub proof fn lemma_analyze_parts(s: Seq<u8>)
    ensures
        document_all(is_part_of(s), spec_analyze(s)),
{
    lemma_part_kept_by_cuts(s);
    assert(part_at(s, s, 0, s.len() as int)) by {
        assert(s =~= s.subrange(0, s.len() as int));
    }
    lemma_analyze_keeps(is_part_of(s), s);
}

} // verus!
