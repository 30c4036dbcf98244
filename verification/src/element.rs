//! Tags: a name, attributes, and the `>` or `/>` that ends the tag.

use vstd::prelude::*;
use crate::attr::{
    attrs_view, lemma_attr_rest, parser_attr, spec_parser_attr, text_view, Attr, AttrView,
};
use crate::error::ParseError;
use crate::scanner::{
    lemma_name_len_bounds, lemma_space_len_bounds, skip_space, spec_skip_space,
    spec_while_element1, while_element1, GREATER_THAN, LESS_THAN, SLASH,
};
use crate::style::{parser_style, spec_parser_style};

verus! {

/// What a [`DomElement`] holds, as sequences of bytes.
pub struct ElementView {
    /// The tag's name.
    pub tag: Seq<u8>,
    /// The attributes, in the order of the input.
    pub attr: Seq<AttrView>,
    /// The declarations of the `style` attributes, in the order of the input.
    pub style: Seq<AttrView>,
}

/// A tag: its name, its attributes in the order of the input, and the
/// declarations that its `style` attributes hold. A name may occur more than
/// once among the attributes.
#[derive(Debug, PartialEq, Eq)]
pub struct DomElement<'a> {
    /// The tag's name.
    pub tag: &'a [u8],
    /// The attributes, in the order of the input.
    pub attr: Vec<Attr<'a>>,
    /// The declarations of the `style` attributes, in the order of the input.
    pub style: Vec<Attr<'a>>,
}

impl<'a> View for DomElement<'a> {
    type V = ElementView;

    open spec fn view(&self) -> ElementView {
        ElementView {
            tag: self.tag@,
            attr: attrs_view(self.attr@),
            style: attrs_view(self.style@),
        }
    }
}

impl<'a> DomElement<'a> {
    /// A tag named `tag`, without attributes.
    pub fn new(tag: &'a [u8]) -> (r: Self)
        ensures
            r@ == (ElementView { tag: tag@, attr: Seq::empty(), style: Seq::empty() }),
    {
        let r = DomElement { tag, attr: Vec::new(), style: Vec::new() };
        assert(r@.style =~= Seq::empty());
        r
    }

    /// Adds the attribute `k`, with the value `v`, behind those that the tag
    /// has.
    pub fn push_attr(&mut self, k: &'a [u8], v: Option<&'a [u8]>)
        ensures
            final(self)@ == (ElementView {
                attr: old(self)@.attr.push((k@, text_view(v))),
                ..old(self)@
            }),
    {
        self.attr.push((k, v));
        assert(self@.attr =~= old(self)@.attr.push((k@, text_view(v))));
    }

    /// Adds the declaration of the property `k`, with the value `v`, behind
    /// those that the tag has.
    pub fn push_style(&mut self, k: &'a [u8], v: Option<&'a [u8]>)
        ensures
            final(self)@ == (ElementView {
                style: old(self)@.style.push((k@, text_view(v))),
                ..old(self)@
            }),
    {
        self.style.push((k, v));
        assert(self@.style =~= old(self)@.style.push((k@, text_view(v))));
    }

    /// Adds the declarations that `value`, the value of a `style` attribute,
    /// holds, behind those that the tag has.
    pub fn push_style_value(&mut self, value: &'a [u8])
        ensures
            final(self)@ == (ElementView {
                style: old(self)@.style + spec_parser_style(value@),
                ..old(self)@
            }),
    {
        let found = parser_style(value);
        let mut i: usize = 0;
        while i < found.len()
            invariant
                i <= found.len(),
                self@.tag == old(self)@.tag,
                self@.attr == old(self)@.attr,
                self@.style == old(self)@.style + attrs_view(found@).take(i as int),
            decreases found.len() - i,
        {
            let (k, v) = found[i];
            self.push_style(k, v);
            i = i + 1;
        }
        assert(attrs_view(found@).take(i as int) =~= attrs_view(found@));
    }
}

/// The name `style`.
pub open spec fn style_key() -> Seq<u8> {
    seq![0x73u8, 0x74u8, 0x79u8, 0x6cu8, 0x65u8]
}

/// The declarations that one attribute holds: those of its value, where its
/// name is `style` and it has a value; none otherwise.
pub open spec fn spec_attr_style(a: AttrView) -> Seq<AttrView> {
    match a.1 {
        Some(value) if a.0 == style_key() => spec_parser_style(value),
        _ => Seq::empty(),
    }
}

/// The declarations that the attributes of a tag hold, in their order.
pub open spec fn spec_styles(attr: Seq<AttrView>) -> Seq<AttrView>
    decreases attr.len(),
{
    if attr.len() == 0 {
        Seq::empty()
    } else {
        spec_styles(attr.drop_last()) + spec_attr_style(attr.last())
    }
}

/// What [`parser_attrs`] returns on `s`: the attributes that follow one
/// another from the start of `s`, and what is left where no further one
/// parses.
pub open spec fn spec_parser_attrs(s: Seq<u8>) -> (Seq<u8>, Seq<AttrView>)
    decreases s.len(),
{
    match spec_parser_attr(s) {
        Ok((rest, a)) => {
            proof {
                lemma_attr_rest(s);
            }
            let (end, more) = spec_parser_attrs(rest);
            (end, seq![a] + more)
        },
        Err(_) => (s, Seq::empty()),
    }
}

/// The view of what [`parser_element`] returns.
pub open spec fn element_result_view(
    r: Result<(&[u8], (DomElement, &[u8])), ParseError>,
) -> Result<(Seq<u8>, (ElementView, Seq<u8>)), ParseError> {
    match r {
        Ok((rest, (element, end))) => Ok((rest@, (element@, end@))),
        Err(e) => Err(e),
    }
}

/// What [`parser_element`] returns on `s`.
///
/// A tag is `<`, a name, any number of attributes, optional whitespace, and
/// `/>` or `>`.
pub open spec fn spec_parser_element(s: Seq<u8>) -> Result<
    (Seq<u8>, (ElementView, Seq<u8>)),
    ParseError,
> {
    if s.len() == 0 || s[0] != LESS_THAN {
        Err(ParseError::MalformedTag)
    } else {
        match spec_while_element1(s.skip(1)) {
            None => Err(ParseError::EmptyTagName),
            Some((named, tag)) => {
                let (listed, attr) = spec_parser_attrs(named);
                let element = ElementView { tag, attr, style: spec_styles(attr) };
                let end = spec_skip_space(listed);
                if end.len() >= 2 && end[0] == SLASH && end[1] == GREATER_THAN {
                    Ok((end.skip(2), (element, end.take(2))))
                } else if end.len() >= 1 && end[0] == GREATER_THAN {
                    Ok((end.skip(1), (element, end.take(1))))
                } else {
                    Err(ParseError::MalformedTag)
                }
            },
        }
    }
}

/// What is left behind a run of attributes is the end of the input.
pub proof fn lemma_attrs_rest(s: Seq<u8>)
    ensures
        spec_parser_attrs(s).0.len() <= s.len(),
        spec_parser_attrs(s).0 == s.skip(s.len() - spec_parser_attrs(s).0.len()),
    decreases s.len(),
{
    lemma_attr_rest(s);
    match spec_parser_attr(s) {
        Ok((rest, a)) => {
            lemma_attrs_rest(rest);
        },
        Err(_) => {},
    }
}

/// A tag takes at least three bytes, and what is left behind it is the end
/// of the input.
pub proof fn lemma_element_rest(s: Seq<u8>)
    ensures
        match spec_parser_element(s) {
            Ok((rest, found)) => rest.len() + 3 <= s.len() && rest == s.skip(s.len() - rest.len()),
            Err(_) => true,
        },
{
    if s.len() > 0 {
        lemma_name_len_bounds(s.skip(1));
        match spec_while_element1(s.skip(1)) {
            Some((named, tag)) => {
                lemma_attrs_rest(named);
                lemma_space_len_bounds(spec_parser_attrs(named).0);
            },
            None => {},
        }
    }
}

/// Tells whether `key` is the name `style`.
pub fn is_style_key(key: &[u8]) -> (r: bool)
    ensures
        r == (key@ == style_key()),
{
    let r = key.len() == 5 && key[0] == 0x73 && key[1] == 0x74 && key[2] == 0x79 && key[3] == 0x6c
        && key[4] == 0x65;
    assert(r == (key@ =~= style_key()));
    r
}

/// Parses the attributes that follow one another from the start of `input`.
/// Returns what is left where no further attribute parses, and the attributes
/// in their order.
pub fn parser_attrs<'a>(input: &'a [u8]) -> (r: (&'a [u8], Vec<Attr<'a>>))
    ensures
        (r.0@, attrs_view(r.1@)) == spec_parser_attrs(input@),
{
    let mut out: Vec<Attr<'a>> = Vec::new();
    let mut rest: &'a [u8] = input;
    loop
        invariant_except_break
            spec_parser_attrs(input@) == (
                spec_parser_attrs(rest@).0,
                attrs_view(out@) + spec_parser_attrs(rest@).1,
            ),
        ensures
            (rest@, attrs_view(out@)) == spec_parser_attrs(input@),
        decreases rest@.len(),
    {
        match parser_attr(rest) {
            Ok((behind, a)) => {
                out.push(a);
                rest = behind;
            },
            Err(_) => {
                break;
            },
        }
    }
    (rest, out)
}

/// The tag that holds the first `n` of the attributes `attr`.
pub open spec fn element_of(tag: Seq<u8>, attr: Seq<AttrView>, n: int) -> ElementView {
    ElementView { tag, attr: attr.take(n), style: spec_styles(attr.take(n)) }
}

/// Parses one tag: `<`, a name, any number of attributes, optional
/// whitespace, and `/>` or `>`. Returns what follows the tag, the tag, and
/// the `/>` or `>` that ended it.
///
/// The value of each attribute named `style` is also taken apart into the
/// tag's declarations.
///
/// Fails with `MalformedTag` where `input` does not begin with `<` or the tag
/// does not end in `/>` or `>`, and with `EmptyTagName` where no name follows
/// the `<`.
pub fn parser_element<'a>(input: &'a [u8]) -> (r: Result<
    (&'a [u8], (DomElement<'a>, &'a [u8])),
    ParseError,
>)
    ensures
        element_result_view(r) == spec_parser_element(input@),
        r matches Ok((rest, _)) ==> rest@.len() < input@.len() && rest@ == input@.skip(
            input@.len() - rest@.len(),
        ),
{
    proof {
        lemma_element_rest(input@);
    }
    if input.len() == 0 || input[0] != LESS_THAN {
        return Err(ParseError::MalformedTag);
    }
    let (named, tag) = match while_element1(&input[1..input.len()]) {
        Some(cut) => cut,
        None => {
            return Err(ParseError::EmptyTagName);
        },
    };
    let (listed, attrs) = parser_attrs(named);
    let end = skip_space(listed);
    let width: usize = if end.len() >= 2 && end[0] == SLASH && end[1] == GREATER_THAN {
        2
    } else if end.len() >= 1 && end[0] == GREATER_THAN {
        1
    } else {
        return Err(ParseError::MalformedTag);
    };
    let mut de = DomElement::new(tag);
    let ghost all = attrs_view(attrs@);
    let mut i: usize = 0;
    assert(all.take(0) =~= Seq::<AttrView>::empty());
    while i < attrs.len()
        invariant
            i <= attrs.len(),
            all == attrs_view(attrs@),
            de@ == element_of(tag@, all, i as int),
        decreases attrs.len() - i,
    {
        let (key, value) = attrs[i];
        de.push_attr(key, value);
        if is_style_key(key) {
            match value {
                Some(v) => {
                    de.push_style_value(v);
                },
                None => {},
            }
        }
        proof {
            assert(all.take(i + 1).drop_last() =~= all.take(i as int));
            assert(all.take(i + 1) =~= all.take(i as int).push(all[i as int]));
        }
        i = i + 1;
    }
    assert(all.take(i as int) =~= all);
    Ok((&end[width..end.len()], (de, &end[0..width])))
}

} // verus!
