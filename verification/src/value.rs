//! The value of an attribute: what follows its name, from `=` on.

use vstd::prelude::*;
use crate::error::ParseError;
use crate::scanner::{
    cut_view, lemma_name_len_bounds, lemma_space_len_bounds, skip_space, spec_skip_space,
    spec_while_element1, while_element1, EQUALS,
};

verus! {

/// `'`
pub const SINGLE_QUOTE: u8 = 0x27;
/// `"`
pub const DOUBLE_QUOTE: u8 = 0x22;
/// `\`
pub const BACKSLASH: u8 = 0x5c;

/// Whether `b` opens a quoted value.
pub open spec fn quote_byte(b: u8) -> bool {
    b == SINGLE_QUOTE || b == DOUBLE_QUOTE
}

/// `n + k`, where `o` holds an `n`.
pub open spec fn shifted(o: Option<nat>, k: nat) -> Option<nat> {
    match o {
        Some(n) => Some(n + k),
        None => None,
    }
}

/// For `s` that follows an opening quote `q`: the number of bytes before the
/// quote that closes the value. A backslash escapes the byte behind it, which
/// must be `q` or a backslash; `None` where `s` ends before an unescaped `q`
/// or a backslash is followed by anything else.
pub open spec fn quoted_len(s: Seq<u8>, q: u8) -> Option<nat>
    decreases s.len(),
{
    if s.len() == 0 {
        None
    } else if s[0] == q {
        Some(0)
    } else if s[0] != BACKSLASH {
        shifted(quoted_len(s.skip(1), q), 1)
    } else if s.len() >= 2 && (s[1] == q || s[1] == BACKSLASH) {
        shifted(quoted_len(s.skip(2), q), 2)
    } else {
        None
    }
}

/// What [`take_quoted`] returns on `s` and `q`: what follows the closing quote,
/// and the bytes before it with their escapes as they stand.
pub open spec fn spec_take_quoted(s: Seq<u8>, q: u8) -> Option<(Seq<u8>, Seq<u8>)> {
    match quoted_len(s, q) {
        Some(n) => Some((s.skip(n as int + 1), s.take(n as int))),
        None => None,
    }
}

/// The view of a parser's result that holds a rest and a piece of text.
pub open spec fn cut_result_view(r: Result<(&[u8], &[u8]), ParseError>) -> Result<
    (Seq<u8>, Seq<u8>),
    ParseError,
> {
    match r {
        Ok((rest, text)) => Ok((rest@, text@)),
        Err(e) => Err(e),
    }
}

/// What [`parser_attr_value`] returns on `s`.
///
/// Behind optional whitespace an `=` is required, and behind more optional
/// whitespace a value: one in quotes, where a quote follows, else a name.
pub open spec fn spec_parser_attr_value(s: Seq<u8>) -> Result<(Seq<u8>, Seq<u8>), ParseError> {
    let a = spec_skip_space(s);
    if a.len() == 0 || a[0] != EQUALS {
        Err(ParseError::MalformedTag)
    } else {
        let b = spec_skip_space(a.skip(1));
        if b.len() == 0 {
            Err(ParseError::MalformedTag)
        } else if quote_byte(b[0]) {
            match spec_take_quoted(b.skip(1), b[0]) {
                Some(cut) => Ok(cut),
                None => Err(ParseError::UnterminatedQuotedValue),
            }
        } else {
            match spec_while_element1(b) {
                Some(cut) => Ok(cut),
                None => Err(ParseError::MalformedTag),
            }
        }
    }
}

/// A closing quote lies inside the input.
pub proof fn lemma_quoted_len_bounds(s: Seq<u8>, q: u8)
    ensures
        match quoted_len(s, q) {
            Some(n) => n < s.len() && s[n as int] == q,
            None => true,
        },
    decreases s.len(),
{
    if s.len() > 0 && s[0] != q {
        if s[0] != BACKSLASH {
            lemma_quoted_len_bounds(s.skip(1), q);
        } else if s.len() >= 2 && (s[1] == q || s[1] == BACKSLASH) {
            lemma_quoted_len_bounds(s.skip(2), q);
        }
    }
}

/// A value takes at least two bytes, and what is left behind it is the end of
/// the input.
pub proof fn lemma_attr_value_rest(s: Seq<u8>)
    ensures
        match spec_parser_attr_value(s) {
            Ok((rest, value)) => rest.len() + 2 <= s.len() && rest == s.skip(
                s.len() - rest.len(),
            ),
            Err(_) => true,
        },
{
    lemma_space_len_bounds(s);
    let a = spec_skip_space(s);
    if a.len() > 0 && a[0] == EQUALS {
        let b = spec_skip_space(a.skip(1));
        lemma_space_len_bounds(a.skip(1));
        if b.len() > 0 {
            if quote_byte(b[0]) {
                lemma_quoted_len_bounds(b.skip(1), b[0]);
            } else {
                lemma_name_len_bounds(b);
            }
        }
    }
}

/// Takes a quoted value from `input`, which follows the opening quote `q`.
/// Returns what follows the closing quote, and the value; `None` where the
/// value is not closed.
pub fn take_quoted<'a>(input: &'a [u8], q: u8) -> (r: Option<(&'a [u8], &'a [u8])>)
    ensures
        cut_view(r) == spec_take_quoted(input@, q),
{
    let n: usize = input.len();
    let mut i: usize = 0;
    assert(input@.skip(0) =~= input@);
    while i < n && input[i] != q
        invariant
            n == input@.len(),
            i <= n,
            quoted_len(input@, q) == shifted(quoted_len(input@.skip(i as int), q), i as nat),
        decreases n - i,
    {
        let ghost here = input@.skip(i as int);
        if input[i] != BACKSLASH {
            assert(here.skip(1) =~= input@.skip(i + 1));
            i = i + 1;
        } else if n - i >= 2 && (input[i + 1] == q || input[i + 1] == BACKSLASH) {
            assert(here.skip(2) =~= input@.skip(i + 2));
            i = i + 2;
        } else {
            return None;
        }
    }
    if i == n {
        None
    } else {
        Some((&input[i + 1..n], &input[0..i]))
    }
}

/// Parses the value of an attribute: `=` and a value, with optional
/// whitespace before each. A value that begins with `'` or `"` runs to the
/// next such quote that no backslash escapes, and is returned without its
/// quotes and with its escapes unresolved; any other value is a name.
/// Returns what follows the value, and the value.
pub fn parser_attr_value<'a>(input: &'a [u8]) -> (r: Result<(&'a [u8], &'a [u8]), ParseError>)
    ensures
        cut_result_view(r) == spec_parser_attr_value(input@),
        r matches Ok((rest, _)) ==> rest@.len() < input@.len() && rest@ == input@.skip(
            input@.len() - rest@.len(),
        ),
{
    proof {
        lemma_attr_value_rest(input@);
    }
    let a = skip_space(input);
    if a.len() == 0 || a[0] != EQUALS {
        return Err(ParseError::MalformedTag);
    }
    let b = skip_space(&a[1..a.len()]);
    if b.len() == 0 {
        return Err(ParseError::MalformedTag);
    }
    let q: u8 = b[0];
    if q == SINGLE_QUOTE || q == DOUBLE_QUOTE {
        match take_quoted(&b[1..b.len()], q) {
            Some(cut) => Ok(cut),
            None => Err(ParseError::UnterminatedQuotedValue),
        }
    } else {
        match while_element1(b) {
            Some(cut) => Ok(cut),
            None => Err(ParseError::MalformedTag),
        }
    }
}

} // verus!
