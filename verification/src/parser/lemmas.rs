//! What holds of every numeral read in the financial style.

use crate::parser::financial::{
    advance, all_digit_glyphs, digit_glyph, digit_text, digit_values_in_range, empty_layout,
    financial_digits, is_digit_text, last_step, parts_read_apart, powers_within, scan, zeros,
    Layout, Step,
};
use vstd::prelude::*;

verus! {

/// Reading a run of digit glyphs places their digits, the last glyph's
/// first, on top of what was placed before.
pub proof fn lemma_scan_digit_run(
    glyphs: Seq<char>,
    digits: Map<char, u8>,
    markers: Map<Seq<char>, usize>,
    layout: Layout,
)
    requires
        all_digit_glyphs(glyphs, digits),
    ensures
        scan(glyphs, digits, markers, layout).placed == layout.placed + digit_text(
            glyphs,
            digits,
        ).reverse(),
        scan(glyphs, digits, markers, layout).ended_on_digit == (glyphs.len() > 0
            || layout.ended_on_digit),
    decreases glyphs.len(),
{
    if glyphs.len() > 0 {
        let step = last_step(glyphs, digits, markers);
        lemma_scan_digit_run(glyphs.drop_last(), digits, markers, advance(layout, step));
    }
}

/// A numeral written with digit glyphs alone reads as those digits, in the
/// order in which they are written, and gets no leading `1`.
pub proof fn lemma_digits_only(
    glyphs: Seq<char>,
    digits: Map<char, u8>,
    markers: Map<Seq<char>, usize>,
)
    requires
        glyphs.len() > 0,
        all_digit_glyphs(glyphs, digits),
    ensures
        financial_digits(glyphs, digits, markers) == digit_text(glyphs, digits),
{
    lemma_scan_digit_run(glyphs, digits, markers, empty_layout());
}

/// A scan that ends on a glyph which is no digit glyph does not end on a
/// digit; nor does one that reads nothing and did not start on one.
pub proof fn lemma_scan_ends_off_digit(
    unread: Seq<char>,
    digits: Map<char, u8>,
    markers: Map<Seq<char>, usize>,
    layout: Layout,
)
    requires
        unread.len() == 0 ==> !layout.ended_on_digit,
        unread.len() > 0 ==> !digits.contains_key(unread[0]),
    ensures
        !scan(unread, digits, markers, layout).ended_on_digit,
    decreases unread.len(),
{
    if unread.len() > 0 {
        let step = last_step(unread, digits, markers);
        let rest = unread.take(unread.len() - step.width());
        lemma_scan_ends_off_digit(rest, digits, markers, advance(layout, step));
    }
}

/// A numeral whose first glyph is not a digit glyph, be it a place marker or
/// not, reads with `1` as its most significant digit; so does the empty
/// numeral.
pub proof fn lemma_implied_leading_one(
    glyphs: Seq<char>,
    digits: Map<char, u8>,
    markers: Map<Seq<char>, usize>,
)
    requires
        glyphs.len() > 0 ==> !digits.contains_key(glyphs[0]),
    ensures
        financial_digits(glyphs, digits, markers).len() > 0,
        financial_digits(glyphs, digits, markers)[0] == '1',
{
    lemma_scan_ends_off_digit(glyphs, digits, markers, empty_layout());
}

/// A numeral whose first glyph is a digit glyph, and is not taken together
/// with the second glyph as a marker of two glyphs, reads with that digit as
/// its most significant one, above everything the rest of the numeral
/// places: no `1` is implied.
pub proof fn lemma_leading_digit(
    glyphs: Seq<char>,
    digits: Map<char, u8>,
    markers: Map<Seq<char>, usize>,
)
    requires
        glyphs.len() > 0,
        digits.contains_key(glyphs[0]),
        parts_read_apart(glyphs.take(1), glyphs.skip(1), digits, markers),
    ensures
        financial_digits(glyphs, digits, markers) == seq![digit_glyph(digits[glyphs[0]])] + scan(
            glyphs.skip(1),
            digits,
            markers,
            empty_layout(),
        ).placed.reverse(),
{
    let first = glyphs.take(1);
    let rest = glyphs.skip(1);
    let low = scan(rest, digits, markers, empty_layout());
    assert(first + rest =~= glyphs);
    lemma_scan_concat(first, rest, digits, markers, empty_layout());
    lemma_scan_digit_run(first, digits, markers, low);
}

/// Reading two parts written one after the other is reading the lower part
/// and then, from the layout it leaves, the upper part, as long as the two
/// are read apart.
pub proof fn lemma_scan_concat(
    upper: Seq<char>,
    lower: Seq<char>,
    digits: Map<char, u8>,
    markers: Map<Seq<char>, usize>,
    layout: Layout,
)
    requires
        parts_read_apart(upper, lower, digits, markers),
    ensures
        scan(upper + lower, digits, markers, layout) == scan(
            upper,
            digits,
            markers,
            scan(lower, digits, markers, layout),
        ),
    decreases lower.len(),
{
    let whole = upper + lower;
    if lower.len() > 0 && upper.len() > 0 {
        // The step at the end of the whole text is the step at the end of
        // its lower part.
        let step = last_step(lower, digits, markers);
        let rest = lower.take(lower.len() - step.width());
        assert(whole.take(whole.len() - step.width()) =~= upper + rest);
        lemma_scan_concat(upper, rest, digits, markers, advance(layout, step));
    }
}

/// A place marker that grows the layout keeps every digit placed before it
/// and puts its zeros above them; what is written before the marker comes
/// to stand above those zeros. So a numeral made of digit glyphs, a marker
/// of one glyph and a lower part reads as the digits (or the implied `1`
/// where there are none), the zeros that fill the lower part up to the
/// marker's power, and the lower part's digits unchanged.
pub proof fn lemma_marker_fill(
    upper: Seq<char>,
    marker: char,
    lower: Seq<char>,
    digits: Map<char, u8>,
    markers: Map<Seq<char>, usize>,
)
    requires
        all_digit_glyphs(upper, digits),
        !digits.contains_key(marker),
        markers.contains_key(seq![marker]),
        parts_read_apart(upper, seq![marker], digits, markers),
        parts_read_apart(seq![marker], lower, digits, markers),
        scan(lower, digits, markers, empty_layout()).placed.len() <= markers[seq![marker]],
    ensures
        financial_digits(upper + seq![marker] + lower, digits, markers) == (if upper.len() == 0 {
            seq!['1']
        } else {
            digit_text(upper, digits)
        }) + zeros(
            (markers[seq![marker]] - scan(lower, digits, markers, empty_layout()).placed.len()) as nat,
        ) + scan(lower, digits, markers, empty_layout()).placed.reverse(),
        all_digit_glyphs(lower, digits) ==> scan(
            lower,
            digits,
            markers,
            empty_layout(),
        ).placed.reverse() == digit_text(lower, digits),
{
    if all_digit_glyphs(lower, digits) {
        lemma_scan_digit_run(lower, digits, markers, empty_layout());
    }
    let power = markers[seq![marker]];
    let low = scan(lower, digits, markers, empty_layout());
    let middle = seq![marker];
    let step = Step::Marker(power);
    let grown = Layout {
        placed: low.placed + zeros((power - low.placed.len()) as nat),
        ended_on_digit: false,
    };

    // The lower part is read first, then the marker, then the digits above.
    lemma_scan_concat(upper + middle, lower, digits, markers, empty_layout());
    lemma_scan_concat(upper, middle, digits, markers, low);
    assert(scan(middle.take(0), digits, markers, advance(low, step)) == advance(low, step));
    assert(advance(low, step).placed =~= grown.placed);
    lemma_scan_digit_run(upper, digits, markers, grown);
}

/// The scan places at most one digit for each glyph it reads on top of the
/// longer of what it started with and the largest power.
pub proof fn lemma_scan_length(
    unread: Seq<char>,
    digits: Map<char, u8>,
    markers: Map<Seq<char>, usize>,
    layout: Layout,
    bound: nat,
)
    requires
        powers_within(markers, bound),
    ensures
        scan(unread, digits, markers, layout).placed.len() <= (if layout.placed.len() <= bound {
            bound
        } else {
            layout.placed.len()
        }) + unread.len(),
    decreases unread.len(),
{
    if unread.len() > 0 {
        let step = last_step(unread, digits, markers);
        let rest = unread.take(unread.len() - step.width());
        lemma_scan_length(rest, digits, markers, advance(layout, step), bound);
    }
}

/// However long a numeral is, its reading is no longer than the largest
/// power of a place marker, one digit for each glyph, and the implied `1`.
pub proof fn lemma_length_bound(
    glyphs: Seq<char>,
    digits: Map<char, u8>,
    markers: Map<Seq<char>, usize>,
    bound: nat,
)
    requires
        powers_within(markers, bound),
    ensures
        financial_digits(glyphs, digits, markers).len() <= bound + glyphs.len() + 1,
{
    lemma_scan_length(glyphs, digits, markers, empty_layout(), bound);
}

/// Reading on from a layout of ASCII digits leaves a layout of ASCII digits.
pub proof fn lemma_scan_places_digits(
    unread: Seq<char>,
    digits: Map<char, u8>,
    markers: Map<Seq<char>, usize>,
    layout: Layout,
)
    requires
        digit_values_in_range(digits),
        is_digit_text(layout.placed),
    ensures
        is_digit_text(scan(unread, digits, markers, layout).placed),
    decreases unread.len(),
{
    if unread.len() > 0 {
        let step = last_step(unread, digits, markers);
        let rest = unread.take(unread.len() - step.width());
        let next = advance(layout, step);
        assert(is_digit_text(next.placed));
        lemma_scan_places_digits(rest, digits, markers, next);
    }
}

/// Every numeral reads as a text that is not empty and holds ASCII digits
/// only.
pub proof fn lemma_reads_as_digits(
    glyphs: Seq<char>,
    digits: Map<char, u8>,
    markers: Map<Seq<char>, usize>,
)
    requires
        digit_values_in_range(digits),
    ensures
        financial_digits(glyphs, digits, markers).len() > 0,
        is_digit_text(financial_digits(glyphs, digits, markers)),
{
    lemma_scan_places_digits(glyphs, digits, markers, empty_layout());
    lemma_scan_grows_on_digit(glyphs, digits, markers, empty_layout());
}

/// A scan that ends on a digit has placed at least that digit.
pub proof fn lemma_scan_grows_on_digit(
    unread: Seq<char>,
    digits: Map<char, u8>,
    markers: Map<Seq<char>, usize>,
    layout: Layout,
)
    requires
        layout.ended_on_digit ==> layout.placed.len() > 0,
    ensures
        scan(unread, digits, markers, layout).ended_on_digit ==> scan(
            unread,
            digits,
            markers,
            layout,
        ).placed.len() > 0,
    decreases unread.len(),
{
    if unread.len() > 0 {
        let step = last_step(unread, digits, markers);
        let rest = unread.take(unread.len() - step.width());
        lemma_scan_grows_on_digit(rest, digits, markers, advance(layout, step));
    }
}

} // verus!
