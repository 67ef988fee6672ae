//! The financial numeral style: digit glyphs interleaved with place markers
//! of one or two glyphs.

use crate::number_parts::{DigitTable, PlaceMarkerTable, MAX_DIGIT};
use crate::parser::lemmas::{lemma_digits_only, lemma_implied_leading_one, lemma_length_bound};
use crate::text::{glyphs_of, reversed, string_of};
use vstd::prelude::*;

verus! {

/// The ASCII digit that writes `value`.
pub open spec fn digit_glyph(value: u8) -> char {
    (value + 48) as char
}

/// Whether `glyph` is one of the ASCII digits `0` to `9`.
pub open spec fn is_ascii_digit(glyph: char) -> bool {
    48 <= glyph as int <= 57
}

/// The ASCII digit that writes `value`.
fn digit_glyph_of(value: u8) -> (glyph: char)
    requires
        value <= MAX_DIGIT,
    ensures
        glyph == digit_glyph(value),
        is_ascii_digit(glyph),
{
    (value + 48) as char
}

/// What the scan finds at the end of the glyphs it has not read yet.
pub enum Step {
    /// A digit glyph, with the value it stands for.
    Digit(u8),
    /// A place marker written with the last two glyphs, with its power.
    WideMarker(usize),
    /// A place marker written with the last glyph alone, with its power.
    Marker(usize),
    /// A glyph that is neither a digit nor part of a place marker.
    Unrecognized,
}

impl Step {
    /// The number of glyphs that the step takes from the end of the text.
    pub open spec fn width(self) -> nat {
        match self {
            Step::WideMarker(_) => 2,
            _ => 1,
        }
    }
}

/// What the scan has laid out so far.
pub struct Layout {
    /// The digits placed so far, the least significant first.
    pub placed: Seq<char>,
    /// Whether the glyph read last was a digit glyph.
    pub ended_on_digit: bool,
}

/// The layout before any glyph is read.
pub open spec fn empty_layout() -> Layout {
    Layout { placed: Seq::empty(), ended_on_digit: false }
}

/// `placed` set to the length `len`: cut off above `len`, or filled up to it
/// with zeros.
pub open spec fn resized(placed: Seq<char>, len: nat) -> Seq<char> {
    if len <= placed.len() {
        placed.take(len as int)
    } else {
        placed + Seq::new((len - placed.len()) as nat, |i: int| '0')
    }
}

/// The step at the end of the non-empty text `unread`. A digit glyph is a
/// digit whatever the markers say; a marker of two glyphs, the one before
/// the last and the last, goes before a marker of the last glyph alone.
pub open spec fn last_step(
    unread: Seq<char>,
    digits: Map<char, u8>,
    markers: Map<Seq<char>, usize>,
) -> Step
    recommends
        unread.len() > 0,
{
    let glyph = unread.last();
    if digits.contains_key(glyph) {
        Step::Digit(digits[glyph])
    } else if unread.len() >= 2 && markers.contains_key(seq![unread[unread.len() - 2], glyph]) {
        Step::WideMarker(markers[seq![unread[unread.len() - 2], glyph]])
    } else if markers.contains_key(seq![glyph]) {
        Step::Marker(markers[seq![glyph]])
    } else {
        Step::Unrecognized
    }
}

/// The layout after `step`: a digit goes on top of the placed ones, a marker
/// sets their number to its power, an unrecognized glyph leaves them alone.
pub open spec fn advance(layout: Layout, step: Step) -> Layout {
    match step {
        Step::Digit(value) => Layout {
            placed: layout.placed.push(digit_glyph(value)),
            ended_on_digit: true,
        },
        Step::WideMarker(power) => Layout {
            placed: resized(layout.placed, power as nat),
            ended_on_digit: false,
        },
        Step::Marker(power) => Layout {
            placed: resized(layout.placed, power as nat),
            ended_on_digit: false,
        },
        Step::Unrecognized => Layout { placed: layout.placed, ended_on_digit: false },
    }
}

/// The layout reached from `layout` by reading all of `unread`, step by
/// step from its end.
pub open spec fn scan(
    unread: Seq<char>,
    digits: Map<char, u8>,
    markers: Map<Seq<char>, usize>,
    layout: Layout,
) -> Layout
    decreases unread.len(),
{
    if unread.len() == 0 {
        layout
    } else {
        let step = last_step(unread, digits, markers);
        scan(
            unread.take(unread.len() - step.width()),
            digits,
            markers,
            advance(layout, step),
        )
    }
}

/// The digits, most significant first, that the numeral `glyphs` writes: what
/// the scan has placed, with a leading `1` where the numeral does not begin
/// with a digit of its own.
pub open spec fn financial_digits(
    glyphs: Seq<char>,
    digits: Map<char, u8>,
    markers: Map<Seq<char>, usize>,
) -> Seq<char> {
    let end = scan(glyphs, digits, markers, empty_layout());
    if end.ended_on_digit {
        end.placed.reverse()
    } else {
        end.placed.push('1').reverse()
    }
}

/// Whether every glyph of `glyphs` is a digit glyph.
pub open spec fn all_digit_glyphs(glyphs: Seq<char>, digits: Map<char, u8>) -> bool {
    forall|i: int| 0 <= i < glyphs.len() ==> digits.contains_key(#[trigger] glyphs[i])
}

/// The ASCII digits of the digit glyphs `glyphs`, one for one and in the
/// same order.
pub open spec fn digit_text(glyphs: Seq<char>, digits: Map<char, u8>) -> Seq<char> {
    Seq::new(glyphs.len(), |i: int| digit_glyph(digits[glyphs[i]]))
}

/// `count` zeros.
pub open spec fn zeros(count: nat) -> Seq<char> {
    Seq::new(count, |i: int| '0')
}

/// Whether every digit glyph stands for a value from `0` to `9`.
pub open spec fn digit_values_in_range(digits: Map<char, u8>) -> bool {
    forall|glyph: char| digits.contains_key(glyph) ==> #[trigger] digits[glyph] <= MAX_DIGIT
}

/// Whether no place marker has a power above `bound`.
pub open spec fn powers_within(markers: Map<Seq<char>, usize>, bound: nat) -> bool {
    forall|key: Seq<char>| markers.contains_key(key) ==> #[trigger] markers[key] <= bound
}

/// Whether reading `upper + lower` from its end comes to a stop exactly
/// between the two parts: the first glyph of `lower` is not taken together
/// with the last glyph of `upper` as a marker of two glyphs.
pub open spec fn parts_read_apart(
    upper: Seq<char>,
    lower: Seq<char>,
    digits: Map<char, u8>,
    markers: Map<Seq<char>, usize>,
) -> bool {
    upper.len() > 0 && lower.len() > 0 ==> digits.contains_key(lower[0]) || !markers.contains_key(
        seq![upper.last(), lower[0]],
    )
}

/// Whether `text` holds ASCII digits and nothing else.
pub open spec fn is_digit_text(text: Seq<char>) -> bool {
    forall|i: int| 0 <= i < text.len() ==> is_ascii_digit(#[trigger] text[i])
}

/// Finds the step at the end of the first `unread` glyphs.
fn step_before(
    glyphs: &Vec<char>,
    unread: usize,
    digits: &DigitTable,
    markers: &PlaceMarkerTable,
) -> (step: Step)
    requires
        0 < unread <= glyphs@.len(),
    ensures
        step == last_step(glyphs@.take(unread as int), digits@, markers@),
        step matches Step::Digit(value) ==> value <= MAX_DIGIT,
{
    let glyph = glyphs[unread - 1];
    if let Some(value) = digits.get(glyph) {
        return Step::Digit(value);
    }
    if unread >= 2 {
        if let Some(power) = markers.pair(glyphs[unread - 2], glyph) {
            return Step::WideMarker(power);
        }
    }
    match markers.single(glyph) {
        Some(power) => Step::Marker(power),
        None => Step::Unrecognized,
    }
}

/// Carries out `step` on the digits placed so far.
fn place(placed: &mut Vec<char>, step: &Step)
    requires
        step matches Step::Digit(value) ==> value <= MAX_DIGIT,
    ensures
        final(placed)@ == advance(
            Layout { placed: old(placed)@, ended_on_digit: false },
            *step,
        ).placed,
        is_digit_text(old(placed)@) ==> is_digit_text(final(placed)@),
        step is Digit ==> final(placed)@.len() > 0,
{
    match step {
        Step::Digit(value) => {
            placed.push(digit_glyph_of(*value));
        },
        Step::WideMarker(power) => {
            placed.resize(*power, '0');
        },
        Step::Marker(power) => {
            placed.resize(*power, '0');
        },
        Step::Unrecognized => {},
    }
}

/// Reads the integer part `whole` of a numeral in the financial style and
/// returns its digits, most significant first.
///
/// The glyphs are read from the end of `whole`. A glyph of `digits` places
/// its digit above those placed before. A marker of `markers`, looked for
/// first together with the glyph before it and then alone, sets the number
/// of placed digits to its power: it fills up with zeros, or, where more
/// digits than that are placed already, drops the ones above. A numeral
/// that does not begin with a digit glyph gets a leading `1`.
///
/// Nothing is refused. A glyph that is neither a digit nor part of a marker
/// is passed over, and markers in an order that no number has still give a
/// reading; telling such texts apart is left to the caller.
pub fn parse_financial(
    whole: &str,
    digits: &DigitTable,
    markers: &PlaceMarkerTable,
) -> (out: String)
    ensures
        out@ == financial_digits(whole@, digits@, markers@),
        out@.len() > 0,
        is_digit_text(out@),
        whole@.len() > 0 && all_digit_glyphs(whole@, digits@) ==> out@ == digit_text(
            whole@,
            digits@,
        ),
        (whole@.len() > 0 ==> !digits@.contains_key(whole@[0])) ==> out@[0] == '1',
        forall|bound: nat| #[trigger]
            powers_within(markers@, bound) ==> out@.len() <= bound + whole@.len() + 1,
{
    let glyphs = glyphs_of(whole);
    let mut placed: Vec<char> = Vec::new();
    let mut ended_on_digit = false;
    let mut unread: usize = glyphs.len();
    proof {
        assert(glyphs@.take(unread as int) =~= glyphs@);
    }
    while unread > 0
        invariant
            unread <= glyphs@.len(),
            scan(
                glyphs@.take(unread as int),
                digits@,
                markers@,
                Layout { placed: placed@, ended_on_digit },
            ) == scan(glyphs@, digits@, markers@, empty_layout()),
            is_digit_text(placed@),
            ended_on_digit ==> placed@.len() > 0,
        decreases unread,
    {
        let step = step_before(&glyphs, unread, digits, markers);
        place(&mut placed, &step);
        let ghost before = glyphs@.take(unread as int);
        match step {
            Step::Digit(_) => {
                ended_on_digit = true;
                unread = unread - 1;
            },
            Step::WideMarker(_) => {
                ended_on_digit = false;
                unread = unread - 2;
            },
            _ => {
                ended_on_digit = false;
                unread = unread - 1;
            },
        }
        proof {
            assert(before.take(before.len() - step.width()) =~= glyphs@.take(unread as int));
        }
    }
    if !ended_on_digit {
        placed.push('1');
    }
    let ordered = reversed(&placed);
    proof {
        assert(is_digit_text(ordered@));
        if whole@.len() > 0 && all_digit_glyphs(whole@, digits@) {
            lemma_digits_only(whole@, digits@, markers@);
        }
        if whole@.len() > 0 ==> !digits@.contains_key(whole@[0]) {
            lemma_implied_leading_one(whole@, digits@, markers@);
        }
        assert forall|bound: nat| #[trigger] powers_within(markers@, bound) implies ordered@.len()
            <= bound + whole@.len() + 1 by {
            lemma_length_bound(whole@, digits@, markers@, bound);
        }
    }
    string_of(&ordered)
}

} // verus!
