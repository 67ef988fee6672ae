//! Conversions between strings and sequences of glyphs.

use itertools::Itertools;
use vstd::prelude::*;

verus! {

/// The glyphs of `text`, in reading order.
pub(crate) fn glyphs_of(text: &str) -> (glyphs: Vec<char>)
    ensures
        glyphs@ == text@,
{
    let mut glyphs: Vec<char> = Vec::new();
    for glyph in it: text.chars()
        invariant
            glyphs@ == it.seq().take(it.index()),
            it.seq() == text@,
    {
        glyphs.push(glyph);
    }
    glyphs
}

/// The elements of `items` in the opposite order.
pub(crate) fn reversed(items: &Vec<char>) -> (out: Vec<char>)
    ensures
        out@ == items@.reverse(),
{
    let mut out: Vec<char> = Vec::new();
    let mut rest: usize = items.len();
    while rest > 0
        invariant
            rest <= items@.len(),
            out@.len() == items@.len() - rest,
            forall|i: int| 0 <= i < out@.len() ==> out@[i] == items@[items@.len() - 1 - i],
        decreases rest,
    {
        rest = rest - 1;
        out.push(items[rest]);
    }
    out
}

/// The glyphs of `items` written one after the other with `sep` between
/// each two neighbours.
pub open spec fn joined(items: Seq<char>, sep: Seq<char>) -> Seq<char>
    decreases items.len(),
{
    if items.len() == 0 {
        Seq::empty()
    } else if items.len() == 1 {
        seq![items[0]]
    } else {
        joined(items.drop_last(), sep) + sep + seq![items.last()]
    }
}

/// With nothing between them, the joined glyphs are the glyphs themselves.
pub proof fn lemma_joined_without_separator(items: Seq<char>)
    ensures
        joined(items, Seq::empty()) == items,
    decreases items.len(),
{
    if items.len() >= 2 {
        lemma_joined_without_separator(items.drop_last());
    }
}

/// Calls `Itertools::join` on the glyphs of `items`.
///
/// `join` writes the first element with its `Display` form and then, for
/// every further element, the separator followed by that element; a `char`
/// displays as itself. The contract states exactly that text. The bound in
/// `requires` keeps the capacity that `join` computes up front, the byte
/// length of `sep` times the number of remaining elements, within what a
/// `String` may reserve.
#[verifier::external_body]
pub(crate) fn join_glyphs(items: &Vec<char>, sep: &str) -> (out: String)
    requires
        4 * sep@.len() * items@.len() <= isize::MAX,
    ensures
        out@ == joined(items@, sep@),
{
    items.iter().join(sep)
}

/// The string that holds exactly the glyphs of `items`.
pub(crate) fn string_of(items: &Vec<char>) -> (out: String)
    ensures
        out@ == items@,
{
    let sep = "";
    proof {
        reveal_strlit("");
        assert(sep@ =~= Seq::<char>::empty());
        lemma_joined_without_separator(items@);
        assert(4 * sep@.len() * items@.len() == 0) by (nonlinear_arith)
            requires
                sep@.len() == 0,
        ;
    }
    join_glyphs(items, sep)
}

} // verus!
