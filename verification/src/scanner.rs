//! Byte classes and the runs of bytes that the grammar is built from.

use vstd::prelude::*;

verus! {

/// The space character.
pub const SPACE: u8 = 0x20;
/// The horizontal tab.
pub const TAB: u8 = 0x09;
/// The line feed.
pub const LINE_FEED: u8 = 0x0a;
/// The form feed.
pub const FORM_FEED: u8 = 0x0c;
/// The carriage return.
pub const CARRIAGE_RETURN: u8 = 0x0d;
/// `<`
pub const LESS_THAN: u8 = 0x3c;
/// `>`
pub const GREATER_THAN: u8 = 0x3e;
/// `=`
pub const EQUALS: u8 = 0x3d;
/// `/`
pub const SLASH: u8 = 0x2f;

/// Whether `b` is ASCII whitespace: space, tab, line feed, form feed or
/// carriage return.
pub open spec fn space_byte(b: u8) -> bool {
    b == SPACE || b == TAB || b == LINE_FEED || b == FORM_FEED || b == CARRIAGE_RETURN
}

/// Whether `b` ends a name: whitespace, `>`, `=` or `/`.
pub open spec fn element_byte(b: u8) -> bool {
    space_byte(b) || b == GREATER_THAN || b == EQUALS || b == SLASH
}

/// Tells whether `chr` is ASCII whitespace.
pub fn is_space(chr: u8) -> (r: bool)
    ensures
        r == space_byte(chr),
{
    chr == SPACE || chr == TAB || chr == LINE_FEED || chr == FORM_FEED || chr == CARRIAGE_RETURN
}

/// Tells whether `chr` ends a name.
pub fn is_element_char(chr: u8) -> (r: bool)
    ensures
        r == element_byte(chr),
{
    is_space(chr) || chr == GREATER_THAN || chr == EQUALS || chr == SLASH
}

/// The number of whitespace bytes that `s` begins with.
pub open spec fn space_len(s: Seq<u8>) -> nat
    decreases s.len(),
{
    if s.len() > 0 && space_byte(s[0]) {
        1 + space_len(s.skip(1))
    } else {
        0
    }
}

/// The number of bytes at the start of `s` before the first that ends a name.
pub open spec fn name_len(s: Seq<u8>) -> nat
    decreases s.len(),
{
    if s.len() > 0 && !element_byte(s[0]) {
        1 + name_len(s.skip(1))
    } else {
        0
    }
}

/// The number of bytes of `s` before the first occurrence of `b`; the length
/// of `s` where `b` does not occur.
pub open spec fn index_of(s: Seq<u8>, b: u8) -> nat
    decreases s.len(),
{
    if s.len() > 0 && s[0] != b {
        1 + index_of(s.skip(1), b)
    } else {
        0
    }
}

/// `space_len(s)` is the one length `n` for which the first `n` bytes of `s`
/// are whitespace and the byte after them, if any, is not.
pub proof fn lemma_space_len(s: Seq<u8>, n: int)
    requires
        0 <= n <= s.len(),
        forall|i: int| 0 <= i < n ==> space_byte(#[trigger] s[i]),
        n < s.len() ==> !space_byte(s[n]),
    ensures
        space_len(s) == n,
    decreases n,
{
    if n > 0 {
        lemma_space_len(s.skip(1), n - 1);
    }
}

/// The first `space_len(s)` bytes of `s` are whitespace, and the byte after
/// them, if any, is not.
pub proof fn lemma_space_len_bounds(s: Seq<u8>)
    ensures
        space_len(s) <= s.len(),
        forall|i: int| 0 <= i < space_len(s) ==> space_byte(#[trigger] s[i]),
        space_len(s) < s.len() ==> !space_byte(s[space_len(s) as int]),
    decreases s.len(),
{
    if s.len() > 0 && space_byte(s[0]) {
        let t = s.skip(1);
        lemma_space_len_bounds(t);
        assert forall|i: int| 0 <= i < space_len(s) implies space_byte(#[trigger] s[i]) by {
            if i > 0 {
                assert(s[i] == t[i - 1]);
            }
        }
    }
}

/// `name_len(s)` is the one length `n` for which none of the first `n` bytes
/// of `s` ends a name and the byte after them, if any, does.
pub proof fn lemma_name_len(s: Seq<u8>, n: int)
    requires
        0 <= n <= s.len(),
        forall|i: int| 0 <= i < n ==> !element_byte(#[trigger] s[i]),
        n < s.len() ==> element_byte(s[n]),
    ensures
        name_len(s) == n,
    decreases n,
{
    if n > 0 {
        lemma_name_len(s.skip(1), n - 1);
    }
}

/// None of the first `name_len(s)` bytes of `s` ends a name, and the byte
/// after them, if any, does.
pub proof fn lemma_name_len_bounds(s: Seq<u8>)
    ensures
        name_len(s) <= s.len(),
        forall|i: int| 0 <= i < name_len(s) ==> !element_byte(#[trigger] s[i]),
        name_len(s) < s.len() ==> element_byte(s[name_len(s) as int]),
    decreases s.len(),
{
    if s.len() > 0 && !element_byte(s[0]) {
        let t = s.skip(1);
        lemma_name_len_bounds(t);
        assert forall|i: int| 0 <= i < name_len(s) implies !element_byte(#[trigger] s[i]) by {
            if i > 0 {
                assert(s[i] == t[i - 1]);
            }
        }
    }
}

/// `index_of(s, b)` is the one length `n` for which `b` is none of the first
/// `n` bytes of `s` and is the byte after them, if there is one.
pub proof fn lemma_index_of(s: Seq<u8>, b: u8, n: int)
    requires
        0 <= n <= s.len(),
        forall|i: int| 0 <= i < n ==> #[trigger] s[i] != b,
        n < s.len() ==> s[n] == b,
    ensures
        index_of(s, b) == n,
    decreases n,
{
    if n > 0 {
        lemma_index_of(s.skip(1), b, n - 1);
    }
}

/// `b` is none of the first `index_of(s, b)` bytes of `s`, and is the byte
/// after them, if there is one.
pub proof fn lemma_index_of_bounds(s: Seq<u8>, b: u8)
    ensures
        index_of(s, b) <= s.len(),
        forall|i: int| 0 <= i < index_of(s, b) ==> #[trigger] s[i] != b,
        index_of(s, b) < s.len() ==> s[index_of(s, b) as int] == b,
    decreases s.len(),
{
    if s.len() > 0 && s[0] != b {
        let t = s.skip(1);
        lemma_index_of_bounds(t, b);
        assert forall|i: int| 0 <= i < index_of(s, b) implies #[trigger] s[i] != b by {
            if i > 0 {
                assert(s[i] == t[i - 1]);
            }
        }
    }
}

/// What [`skip_space`] returns on `s`: what is left of `s` behind its leading
/// whitespace.
pub open spec fn spec_skip_space(s: Seq<u8>) -> Seq<u8> {
    s.skip(space_len(s) as int)
}

/// What [`while_element1`] returns on `s`: the rest and the name, where `s`
/// begins with a name; `None` where it does not.
pub open spec fn spec_while_element1(s: Seq<u8>) -> Option<(Seq<u8>, Seq<u8>)> {
    let n = name_len(s) as int;
    if n == 0 {
        None
    } else {
        Some((s.skip(n), s.take(n)))
    }
}

/// The views of a rest and a piece of text cut from one input.
pub open spec fn cut_view(r: Option<(&[u8], &[u8])>) -> Option<(Seq<u8>, Seq<u8>)> {
    match r {
        Some((rest, text)) => Some((rest@, text@)),
        None => None,
    }
}

/// Drops the whitespace that `input` begins with: what is returned is the
/// end of `input`, every byte before it is whitespace, and its first byte, if
/// it has one, is not.
pub fn skip_space<'a>(input: &'a [u8]) -> (rest: &'a [u8])
    ensures
        rest@ == spec_skip_space(input@),
        rest@.len() <= input@.len(),
        rest@ == input@.skip(input@.len() - rest@.len()),
        forall|i: int| 0 <= i < input@.len() - rest@.len() ==> space_byte(#[trigger] input@[i]),
        rest@.len() > 0 ==> !space_byte(rest@[0]),
{
    let n: usize = input.len();
    let mut i: usize = 0;
    while i < n && is_space(input[i])
        invariant
            n == input@.len(),
            i <= n,
            forall|j: int| 0 <= j < i ==> space_byte(#[trigger] input@[j]),
        decreases n - i,
    {
        i = i + 1;
    }
    proof {
        lemma_space_len(input@, i as int);
    }
    &input[i..n]
}

/// Takes the name that `input` begins with: the longest run of bytes none of
/// which is whitespace, `>`, `=` or `/`. Returns what follows the name, and the
/// name; `None` where the run is empty.
pub fn while_element1<'a>(input: &'a [u8]) -> (r: Option<(&'a [u8], &'a [u8])>)
    ensures
        cut_view(r) == spec_while_element1(input@),
        match r {
            Some((rest, name)) => {
                &&& name@.len() > 0
                &&& name@ + rest@ == input@
                &&& forall|i: int| 0 <= i < name@.len() ==> !element_byte(#[trigger] name@[i])
                &&& rest@.len() > 0 ==> element_byte(rest@[0])
            },
            None => input@.len() == 0 || element_byte(input@[0]),
        },
{
    let n: usize = input.len();
    let mut i: usize = 0;
    while i < n && !is_element_char(input[i])
        invariant
            n == input@.len(),
            i <= n,
            forall|j: int| 0 <= j < i ==> !element_byte(#[trigger] input@[j]),
        decreases n - i,
    {
        i = i + 1;
    }
    proof {
        lemma_name_len(input@, i as int);
    }
    if i == 0 {
        None
    } else {
        Some((&input[i..n], &input[0..i]))
    }
}

/// The number of bytes of `input` before the first `b`; the length of
/// `input` where it holds no `b`.
pub fn find_byte(input: &[u8], b: u8) -> (n: usize)
    ensures
        n == index_of(input@, b),
        n <= input@.len(),
        forall|i: int| 0 <= i < n ==> #[trigger] input@[i] != b,
        n < input@.len() ==> input@[n as int] == b,
{
    let len: usize = input.len();
    let mut i: usize = 0;
    while i < len && input[i] != b
        invariant
            len == input@.len(),
            i <= len,
            forall|k: int| 0 <= k < i ==> #[trigger] input@[k] != b,
        decreases len - i,
    {
        i = i + 1;
    }
    proof {
        lemma_index_of(input@, b, i as int);
    }
    i
}

/// Tells whether `a` and `b` hold the same bytes.
pub fn same_bytes(a: &[u8], b: &[u8]) -> (r: bool)
    ensures
        r == (a@ == b@),
{
    if a.len() != b.len() {
        return false;
    }
    let n: usize = a.len();
    let mut i: usize = 0;
    while i < n
        invariant
            n == a@.len(),
            n == b@.len(),
            i <= n,
            forall|k: int| 0 <= k < i ==> a@[k] == b@[k],
        decreases n - i,
    {
        if a[i] != b[i] {
            return false;
        }
        i = i + 1;
    }
    assert(a@ =~= b@);
    true
}

} // verus!
