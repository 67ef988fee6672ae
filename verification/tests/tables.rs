use japanese_number_parser::number_parts::{DigitTable, PlaceMarkerTable, MAX_DIGIT};

#[test]
fn largest_digit_is_nine() {
    assert_eq!(MAX_DIGIT, 9);
}

#[test]
fn new_digit_table_holds_nothing() {
    let digits = DigitTable::new();
    assert_eq!(digits.get('壱'), None);
    assert_eq!(digits.get('0'), None);
}

#[test]
fn digit_table_returns_what_was_inserted() {
    let mut digits = DigitTable::new();
    assert!(digits.insert('零', 0));
    assert!(digits.insert('玖', 9));
    assert_eq!(digits.get('零'), Some(0));
    assert_eq!(digits.get('玖'), Some(9));
    assert_eq!(digits.get('壱'), None);
}

#[test]
fn digit_table_refuses_values_above_nine() {
    let mut digits = DigitTable::new();
    assert!(!digits.insert('拾', 10));
    assert!(!digits.insert('拾', 255));
    assert_eq!(digits.get('拾'), None);
}

#[test]
fn refused_digit_leaves_the_earlier_entry() {
    let mut digits = DigitTable::new();
    assert!(digits.insert('伍', 5));
    assert!(!digits.insert('伍', 50));
    assert_eq!(digits.get('伍'), Some(5));
}

#[test]
fn later_digit_entry_replaces_the_earlier_one() {
    let mut digits = DigitTable::new();
    assert!(digits.insert('弐', 3));
    assert!(digits.insert('参', 3));
    assert!(digits.insert('弐', 2));
    assert_eq!(digits.get('弐'), Some(2));
    assert_eq!(digits.get('参'), Some(3));
}

#[test]
fn new_marker_table_holds_nothing() {
    let markers = PlaceMarkerTable::new();
    assert_eq!(markers.get("百"), None);
    assert_eq!(markers.single('百'), None);
    assert_eq!(markers.pair('拾', '万'), None);
    assert_eq!(markers.get(""), None);
}

#[test]
fn marker_table_returns_what_was_inserted() {
    let mut markers = PlaceMarkerTable::new();
    assert!(markers.insert("百", 2));
    assert!(markers.insert("拾万", 5));
    assert_eq!(markers.get("百"), Some(2));
    assert_eq!(markers.get("拾万"), Some(5));
    assert_eq!(markers.single('百'), Some(2));
    assert_eq!(markers.pair('拾', '万'), Some(5));
}

#[test]
fn one_glyph_and_two_glyph_markers_are_kept_apart() {
    let mut markers = PlaceMarkerTable::new();
    assert!(markers.insert("拾万", 5));
    assert_eq!(markers.single('万'), None);
    assert_eq!(markers.single('拾'), None);
    assert_eq!(markers.pair('万', '拾'), None);
    assert_eq!(markers.get("万"), None);
    assert!(markers.insert("万", 4));
    assert_eq!(markers.pair('拾', '万'), Some(5));
    assert_eq!(markers.single('万'), Some(4));
    assert_eq!(markers.pair('万', '万'), None);
}

#[test]
fn marker_table_refuses_other_lengths() {
    let mut markers = PlaceMarkerTable::new();
    assert!(!markers.insert("", 1));
    assert!(!markers.insert("壱拾万", 5));
    assert_eq!(markers.get(""), None);
    assert_eq!(markers.get("壱拾万"), None);
    assert_eq!(markers.pair('拾', '万'), None);
    assert_eq!(markers.pair('壱', '拾'), None);
}

#[test]
fn marker_length_counts_glyphs_not_bytes() {
    let mut markers = PlaceMarkerTable::new();
    assert!(markers.insert("x", 1));
    assert!(markers.insert("億", 8));
    assert!(markers.insert("xy", 2));
    assert!(!markers.insert("xyz", 3));
    assert_eq!(markers.get("億"), Some(8));
    assert_eq!(markers.get("xy"), Some(2));
}

#[test]
fn later_marker_entry_replaces_the_earlier_one() {
    let mut markers = PlaceMarkerTable::new();
    assert!(markers.insert("千", 4));
    assert!(markers.insert("百", 2));
    assert!(markers.insert("千", 3));
    assert_eq!(markers.get("千"), Some(3));
    assert_eq!(markers.get("百"), Some(2));
}

#[test]
fn marker_power_may_be_any_length() {
    let mut markers = PlaceMarkerTable::new();
    assert!(markers.insert("無", 0));
    assert!(markers.insert("大", usize::MAX));
    assert_eq!(markers.get("無"), Some(0));
    assert_eq!(markers.get("大"), Some(usize::MAX));
}
