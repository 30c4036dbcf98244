//! The declarations inside the value of a `style` attribute.

use vstd::prelude::*;
use crate::attr::{attr_view, attrs_view, Attr, AttrView};
use crate::scanner::{
    find_byte, index_of, is_space, lemma_space_len, space_byte, spec_skip_space,
};

verus! {

/// `;`
pub const SEMICOLON: u8 = 0x3b;
/// `:`
pub const COLON: u8 = 0x3a;

/// The number of whitespace bytes that `s` ends with.
pub open spec fn trailing_space_len(s: Seq<u8>) -> nat
    decreases s.len(),
{
    if s.len() > 0 && space_byte(s.last()) {
        1 + trailing_space_len(s.drop_last())
    } else {
        0
    }
}

/// `s` without the whitespace at its start and at its end.
pub open spec fn trimmed(s: Seq<u8>) -> Seq<u8> {
    let t = spec_skip_space(s);
    t.take(t.len() - trailing_space_len(t))
}

/// A declaration cut at its first `:` into a property and a value; one
/// without a `:` is a property alone.
pub open spec fn spec_declaration(s: Seq<u8>) -> AttrView {
    let n = index_of(s, COLON) as int;
    if n < s.len() {
        (s.take(n), Some(s.skip(n + 1)))
    } else {
        (s, None)
    }
}

/// What [`parser_style`] returns on `s`: `s` is cut at each `;`, each piece is
/// trimmed, and each piece that is not empty then gives one declaration.
pub open spec fn spec_parser_style(s: Seq<u8>) -> Seq<AttrView>
    decreases s.len(),
{
    let n = index_of(s, SEMICOLON) as int;
    let piece = trimmed(s.take(n));
    let first = if piece.len() == 0 {
        Seq::<AttrView>::empty()
    } else {
        seq![spec_declaration(piece)]
    };
    if n < s.len() {
        first + spec_parser_style(s.skip(n + 1))
    } else {
        first
    }
}

/// `trailing_space_len(s)` is the one length `n` for which the last `n` bytes
/// of `s` are whitespace and the byte before them, if any, is not.
pub proof fn lemma_trailing_space_len(s: Seq<u8>, n: int)
    requires
        0 <= n <= s.len(),
        forall|i: int| s.len() - n <= i < s.len() ==> space_byte(#[trigger] s[i]),
        n < s.len() ==> !space_byte(s[s.len() - n - 1]),
    ensures
        trailing_space_len(s) == n,
    decreases n,
{
    if n > 0 {
        lemma_trailing_space_len(s.drop_last(), n - 1);
    }
}

/// The last `trailing_space_len(s)` bytes of `s` are whitespace.
pub proof fn lemma_trailing_space_len_bounds(s: Seq<u8>)
    ensures
        trailing_space_len(s) <= s.len(),
        forall|i: int|
            s.len() - trailing_space_len(s) <= i < s.len() ==> space_byte(
                #[trigger] s[i],
            ),
    decreases s.len(),
{
    if s.len() > 0 && space_byte(s.last()) {
        lemma_trailing_space_len_bounds(s.drop_last());
        assert forall|i: int|
            s.len() - trailing_space_len(s) <= i < s.len() implies space_byte(
            #[trigger] s[i],
        ) by {
            if i < s.len() - 1 {
                assert(s[i] == s.drop_last()[i]);
            }
        }
    }
}

/// Cuts the whitespace off both ends of `input`.
pub fn trim<'a>(input: &'a [u8]) -> (r: &'a [u8])
    ensures
        r@ == trimmed(input@),
{
    let n: usize = input.len();
    let mut i: usize = 0;
    while i < n && is_space(input[i])
        invariant
            n == input@.len(),
            i <= n,
            forall|k: int| 0 <= k < i ==> space_byte(#[trigger] input@[k]),
        decreases n - i,
    {
        i = i + 1;
    }
    let mut j: usize = n;
    while j > i && is_space(input[j - 1])
        invariant
            n == input@.len(),
            i <= j <= n,
            forall|k: int| j <= k < n ==> space_byte(#[trigger] input@[k]),
        decreases j,
    {
        j = j - 1;
    }
    proof {
        lemma_space_len(input@, i as int);
        lemma_trailing_space_len(input@.skip(i as int), n - j);
    }
    &input[i..j]
}

/// Cuts one declaration at its first `:`.
pub fn declaration<'a>(input: &'a [u8]) -> (r: Attr<'a>)
    ensures
        attr_view(r) == spec_declaration(input@),
{
    let n: usize = find_byte(input, COLON);
    if n < input.len() {
        (&input[0..n], Some(&input[n + 1..input.len()]))
    } else {
        (input, None)
    }
}

/// Takes the value of a `style` attribute apart: the value is cut at each
/// `;`, each piece is trimmed, and each piece that is not empty is cut at its
/// first `:` into a property and its value. The declarations come in the
/// order in which the value holds them.
pub fn parser_style<'a>(input: &'a [u8]) -> (r: Vec<Attr<'a>>)
    ensures
        attrs_view(r@) == spec_parser_style(input@),
{
    let mut out: Vec<Attr<'a>> = Vec::new();
    let mut rest: &'a [u8] = input;
    loop
        invariant_except_break
            spec_parser_style(input@) == attrs_view(out@) + spec_parser_style(rest@),
        ensures
            attrs_view(out@) == spec_parser_style(input@),
        decreases rest@.len(),
    {
        let n: usize = find_byte(rest, SEMICOLON);
        let piece = trim(&rest[0..n]);
        let ghost before = out@;
        if piece.len() > 0 {
            out.push(declaration(piece));
        }
        if n < rest.len() {
            rest = &rest[n + 1..rest.len()];
        } else {
            break;
        }
    }
    out
}

} // verus!
