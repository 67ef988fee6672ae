//! The two lookup tables a numeral is read with: digit glyphs and place
//! markers.

use crate::text::glyphs_of;
use vstd::prelude::*;

verus! {

/// The largest value a digit glyph can stand for.
pub const MAX_DIGIT: u8 = 9;

/// The mapping that a list of digit entries denotes: a later entry for a
/// glyph replaces an earlier one.
spec fn digit_map(entries: Seq<(char, u8)>) -> Map<char, u8>
    decreases entries.len(),
{
    if entries.len() == 0 {
        Map::empty()
    } else {
        digit_map(entries.drop_last()).insert(entries.last().0, entries.last().1)
    }
}

/// Entries past `upto` that do not mention `glyph` do not change what the
/// list says about it.
proof fn lemma_digit_map_tail(entries: Seq<(char, u8)>, upto: int, glyph: char)
    requires
        0 <= upto <= entries.len(),
        forall|i: int| upto <= i < entries.len() ==> entries[i].0 != glyph,
    ensures
        digit_map(entries).contains_key(glyph) == digit_map(entries.take(upto)).contains_key(glyph),
        digit_map(entries).contains_key(glyph) ==> digit_map(entries)[glyph] == digit_map(
            entries.take(upto),
        )[glyph],
    decreases entries.len() - upto,
{
    if upto == entries.len() {
        assert(entries.take(upto) =~= entries);
    } else {
        let shorter = entries.drop_last();
        lemma_digit_map_tail(shorter, upto, glyph);
        assert(shorter.take(upto) =~= entries.take(upto));
    }
}

/// A table from digit glyphs to the values `0` to `9` they stand for.
pub struct DigitTable {
    entries: Vec<(char, u8)>,
}

impl DigitTable {
    #[verifier::type_invariant]
    spec fn values_in_range(self) -> bool {
        forall|i: int|
            0 <= i < self.entries@.len() ==> (#[trigger] self.entries@[i]).1 <= MAX_DIGIT
    }

    /// The mapping from glyph to digit value that the table holds.
    pub closed spec fn view(&self) -> Map<char, u8> {
        digit_map(self.entries@)
    }

    /// A table without entries.
    pub fn new() -> (table: Self)
        ensures
            table@ == Map::<char, u8>::empty(),
    {
        DigitTable { entries: Vec::new() }
    }

    /// Lets `glyph` stand for `value`, replacing what it stood for before.
    /// A value above `MAX_DIGIT` is not a digit: it is refused and the table
    /// stays as it was.
    pub fn insert(&mut self, glyph: char, value: u8) -> (stored: bool)
        ensures
            stored == (value <= MAX_DIGIT),
            stored ==> final(self)@ == old(self)@.insert(glyph, value),
            !stored ==> final(self)@ == old(self)@,
    {
        if value > MAX_DIGIT {
            return false;
        }
        proof {
            use_type_invariant(&*self);
        }
        let mut entries: Vec<(char, u8)> = Vec::new();
        std::mem::swap(&mut entries, &mut self.entries);
        entries.push((glyph, value));
        proof {
            assert(entries@.drop_last() =~= old(self).entries@);
        }
        self.entries = entries;
        true
    }

    /// The value that `glyph` stands for, if it is a digit glyph.
    pub fn get(&self, glyph: char) -> (value: Option<u8>)
        ensures
            value == (if self@.contains_key(glyph) {
                Some(self@[glyph])
            } else {
                None
            }),
            value matches Some(v) ==> v <= MAX_DIGIT,
    {
        let mut rest: usize = self.entries.len();
        while rest > 0
            invariant
                rest <= self.entries@.len(),
                forall|i: int| rest <= i < self.entries@.len() ==> self.entries@[i].0 != glyph,
            decreases rest,
        {
            rest = rest - 1;
            let entry = self.entries[rest];
            if entry.0 == glyph {
                proof {
                    use_type_invariant(self);
                    lemma_digit_map_tail(self.entries@, rest + 1, glyph);
                }
                return Some(entry.1);
            }
        }
        proof {
            lemma_digit_map_tail(self.entries@, 0, glyph);
        }
        None
    }
}

/// One place marker: the glyph that ends it, the glyph that must stand
/// before that one if the marker is written with two glyphs, and its power.
struct MarkerEntry {
    lead: Option<char>,
    glyph: char,
    power: usize,
}

/// The glyphs of a marker in reading order.
spec fn marker_key(lead: Option<char>, glyph: char) -> Seq<char> {
    match lead {
        Some(first) => seq![first, glyph],
        None => seq![glyph],
    }
}

/// The mapping that a list of marker entries denotes: a later entry for a
/// marker replaces an earlier one.
spec fn marker_map(entries: Seq<MarkerEntry>) -> Map<Seq<char>, usize>
    decreases entries.len(),
{
    if entries.len() == 0 {
        Map::empty()
    } else {
        marker_map(entries.drop_last()).insert(
            marker_key(entries.last().lead, entries.last().glyph),
            entries.last().power,
        )
    }
}

/// Two markers have the same glyphs only if they agree in both parts.
proof fn lemma_marker_key_injective(
    lead: Option<char>,
    glyph: char,
    other_lead: Option<char>,
    other_glyph: char,
)
    ensures
        marker_key(lead, glyph) == marker_key(other_lead, other_glyph) <==> lead == other_lead
            && glyph == other_glyph,
{
    let a = marker_key(lead, glyph);
    let b = marker_key(other_lead, other_glyph);
    if a == b {
        assert(a.len() == b.len());
        assert(a[0] == b[0]);
        assert(a.last() == b.last());
    }
}

/// Entries past `upto` that are not the marker `key` do not change what the
/// list says about it.
proof fn lemma_marker_map_tail(entries: Seq<MarkerEntry>, upto: int, key: Seq<char>)
    requires
        0 <= upto <= entries.len(),
        forall|i: int|
            upto <= i < entries.len() ==> marker_key(entries[i].lead, entries[i].glyph) != key,
    ensures
        marker_map(entries).contains_key(key) == marker_map(entries.take(upto)).contains_key(key),
        marker_map(entries).contains_key(key) ==> marker_map(entries)[key] == marker_map(
            entries.take(upto),
        )[key],
    decreases entries.len() - upto,
{
    if upto == entries.len() {
        assert(entries.take(upto) =~= entries);
    } else {
        let shorter = entries.drop_last();
        lemma_marker_map_tail(shorter, upto, key);
        assert(shorter.take(upto) =~= entries.take(upto));
    }
}

/// Every marker of a list is written with one glyph or with two.
proof fn lemma_marker_map_keys(entries: Seq<MarkerEntry>)
    ensures
        forall|key: Seq<char>| #[trigger]
            marker_map(entries).contains_key(key) ==> key.len() == 1 || key.len() == 2,
    decreases entries.len(),
{
    if entries.len() > 0 {
        lemma_marker_map_keys(entries.drop_last());
        let last = entries.last();
        assert forall|key: Seq<char>| #[trigger]
            marker_map(entries).contains_key(key) implies key.len() == 1 || key.len() == 2 by {
            if key != marker_key(last.lead, last.glyph) {
                assert(marker_map(entries.drop_last()).contains_key(key));
            }
        }
    }
}

/// A table from place markers, each written with one glyph or with two, to
/// their powers: the number of digits that stand below the marker's place.
pub struct PlaceMarkerTable {
    entries: Vec<MarkerEntry>,
}

impl PlaceMarkerTable {
    /// The mapping from a marker's glyphs to its power that the table holds.
    pub closed spec fn view(&self) -> Map<Seq<char>, usize> {
        marker_map(self.entries@)
    }

    /// Every marker in the table is written with one glyph or with two.
    pub proof fn lemma_marker_lengths(&self)
        ensures
            forall|key: Seq<char>| #[trigger]
                self@.contains_key(key) ==> key.len() == 1 || key.len() == 2,
    {
        lemma_marker_map_keys(self.entries@);
    }

    /// A table without entries.
    pub fn new() -> (table: Self)
        ensures
            table@ == Map::<Seq<char>, usize>::empty(),
    {
        PlaceMarkerTable { entries: Vec::new() }
    }

    /// Gives the marker written `marker` the power `power`, replacing the
    /// power it had before. A marker has one glyph or two: any other text is
    /// refused and the table stays as it was.
    pub fn insert(&mut self, marker: &str, power: usize) -> (stored: bool)
        ensures
            stored == (marker@.len() == 1 || marker@.len() == 2),
            stored ==> final(self)@ == old(self)@.insert(marker@, power),
            !stored ==> final(self)@ == old(self)@,
    {
        let glyphs = glyphs_of(marker);
        if glyphs.len() == 1 {
            proof {
                assert(marker@ =~= marker_key(None, glyphs@[0]));
            }
            self.put(None, glyphs[0], power);
            true
        } else if glyphs.len() == 2 {
            proof {
                assert(marker@ =~= marker_key(Some(glyphs@[0]), glyphs@[1]));
            }
            self.put(Some(glyphs[0]), glyphs[1], power);
            true
        } else {
            false
        }
    }

    /// Appends an entry for the marker with these two parts.
    fn put(&mut self, lead: Option<char>, glyph: char, power: usize)
        ensures
            final(self)@ == old(self)@.insert(marker_key(lead, glyph), power),
    {
        self.entries.push(MarkerEntry { lead, glyph, power });
        proof {
            assert(self.entries@.drop_last() =~= old(self).entries@);
        }
    }

    /// The power of the marker written `marker`, if the table holds it.
    pub fn get(&self, marker: &str) -> (power: Option<usize>)
        ensures
            power == (if self@.contains_key(marker@) {
                Some(self@[marker@])
            } else {
                None
            }),
    {
        let glyphs = glyphs_of(marker);
        if glyphs.len() == 1 {
            proof {
                assert(marker@ =~= seq![glyphs@[0]]);
            }
            self.single(glyphs[0])
        } else if glyphs.len() == 2 {
            proof {
                assert(marker@ =~= seq![glyphs@[0], glyphs@[1]]);
            }
            self.pair(glyphs[0], glyphs[1])
        } else {
            proof {
                lemma_marker_map_keys(self.entries@);
            }
            None
        }
    }

    /// The power of the marker written with the one glyph `glyph`, if the
    /// table holds it.
    pub fn single(&self, glyph: char) -> (power: Option<usize>)
        ensures
            power == (if self@.contains_key(seq![glyph]) {
                Some(self@[seq![glyph]])
            } else {
                None
            }),
    {
        self.find(None, glyph)
    }

    /// The power of the marker written with `first` followed by `second`, if
    /// the table holds it.
    pub fn pair(&self, first: char, second: char) -> (power: Option<usize>)
        ensures
            power == (if self@.contains_key(seq![first, second]) {
                Some(self@[seq![first, second]])
            } else {
                None
            }),
    {
        self.find(Some(first), second)
    }

    /// The power of the last entry with these two parts.
    fn find(&self, lead: Option<char>, glyph: char) -> (power: Option<usize>)
        ensures
            power == (if self@.contains_key(marker_key(lead, glyph)) {
                Some(self@[marker_key(lead, glyph)])
            } else {
                None
            }),
    {
        let ghost key = marker_key(lead, glyph);
        let mut rest: usize = self.entries.len();
        while rest > 0
            invariant
                rest <= self.entries@.len(),
                key == marker_key(lead, glyph),
                forall|i: int|
                    rest <= i < self.entries@.len() ==> marker_key(
                        self.entries@[i].lead,
                        self.entries@[i].glyph,
                    ) != key,
            decreases rest,
        {
            rest = rest - 1;
            let entry = &self.entries[rest];
            let same_lead = match (entry.lead, lead) {
                (Some(a), Some(b)) => a == b,
                (None, None) => true,
                _ => false,
            };
            proof {
                lemma_marker_key_injective(entry.lead, entry.glyph, lead, glyph);
            }
            if same_lead && entry.glyph == glyph {
                proof {
                    lemma_marker_map_tail(self.entries@, rest + 1, key);
                }
                return Some(entry.power);
            }
        }
        proof {
            lemma_marker_map_tail(self.entries@, 0, key);
        }
        None
    }
}

} // verus!
