//! Attributes: a name, and a value where one is given.

use vstd::prelude::*;
use crate::error::ParseError;
use crate::scanner::{
    lemma_name_len_bounds, lemma_space_len_bounds, name_len, skip_space, space_len,
    spec_skip_space, spec_while_element1, while_element1,
};
use crate::value::{lemma_attr_value_rest, parser_attr_value, spec_parser_attr_value};

verus! {

/// A name and the value given with it, both cut from the input.
pub type Attr<'a> = (&'a [u8], Option<&'a [u8]>);

/// What an [`Attr`] holds, as sequences of bytes.
pub type AttrView = (Seq<u8>, Option<Seq<u8>>);

/// The bytes of a piece of text that may be absent.
pub open spec fn text_view(t: Option<&[u8]>) -> Option<Seq<u8>> {
    match t {
        Some(text) => Some(text@),
        None => None,
    }
}

/// The bytes of a name and of its value.
pub open spec fn attr_view(a: Attr) -> AttrView {
    (a.0@, text_view(a.1))
}

/// The bytes of each attribute of a list, in the list's order.
pub open spec fn attrs_view(v: Seq<Attr>) -> Seq<AttrView> {
    Seq::new(v.len(), |i: int| attr_view(v[i]))
}

/// The view of what [`parser_attr`] returns.
pub open spec fn attr_result_view(r: Result<(&[u8], Attr), ParseError>) -> Result<
    (Seq<u8>, AttrView),
    ParseError,
> {
    match r {
        Ok((rest, a)) => Ok((rest@, attr_view(a))),
        Err(e) => Err(e),
    }
}

/// What [`parser_attr`] returns on `s`.
///
/// An attribute is whitespace, a name, and a value where one parses behind the
/// name; where none does, the attribute ends with its name.
pub open spec fn spec_parser_attr(s: Seq<u8>) -> Result<(Seq<u8>, AttrView), ParseError> {
    if space_len(s) == 0 {
        Err(ParseError::MalformedTag)
    } else {
        match spec_while_element1(spec_skip_space(s)) {
            None => Err(ParseError::MalformedTag),
            Some((rest, key)) => match spec_parser_attr_value(rest) {
                Ok((behind, value)) => Ok((behind, (key, Some(value)))),
                Err(_) => Ok((rest, (key, None))),
            },
        }
    }
}

/// An attribute takes at least two bytes, and what is left behind it is the
/// end of the input.
pub proof fn lemma_attr_rest(s: Seq<u8>)
    ensures
        match spec_parser_attr(s) {
            Ok((rest, a)) => rest.len() + 2 <= s.len() && rest == s.skip(s.len() - rest.len()),
            Err(_) => true,
        },
{
    lemma_space_len_bounds(s);
    let t = spec_skip_space(s);
    lemma_name_len_bounds(t);
    lemma_attr_value_rest(t.skip(name_len(t) as int));
}

/// Parses one attribute: at least one byte of whitespace, a name, and the
/// value where one parses behind the name. Returns what follows the
/// attribute, and the attribute; fails with `MalformedTag` where `input` does
/// not begin with whitespace and a name.
pub fn parser_attr<'a>(input: &'a [u8]) -> (r: Result<(&'a [u8], Attr<'a>), ParseError>)
    ensures
        attr_result_view(r) == spec_parser_attr(input@),
        r matches Ok((rest, _)) ==> rest@.len() < input@.len() && rest@ == input@.skip(
            input@.len() - rest@.len(),
        ),
{
    proof {
        lemma_attr_rest(input@);
    }
    let named = skip_space(input);
    if named.len() == input.len() {
        return Err(ParseError::MalformedTag);
    }
    match while_element1(named) {
        None => Err(ParseError::MalformedTag),
        Some((rest, key)) => match parser_attr_value(rest) {
            Ok((behind, value)) => Ok((behind, (key, Some(value)))),
            Err(_) => Ok((rest, (key, None))),
        },
    }
}

} // verus!
