use japanese_number_parser::number_parts::{DigitTable, PlaceMarkerTable};
use japanese_number_parser::parser::financial::parse_financial;

fn digit_table() -> DigitTable {
    let mut digits = DigitTable::new();
    let entries = [
        ('零', 0u8),
        ('壱', 1),
        ('弐', 2),
        ('参', 3),
        ('肆', 4),
        ('伍', 5),
        ('陸', 6),
        ('漆', 7),
        ('捌', 8),
        ('玖', 9),
    ];
    for (glyph, value) in entries {
        assert!(digits.insert(glyph, value));
    }
    digits
}

fn marker_table() -> PlaceMarkerTable {
    let mut markers = PlaceMarkerTable::new();
    let entries = [
        ("拾", 1usize),
        ("百", 2),
        ("千", 3),
        ("万", 4),
        ("拾万", 5),
        ("百万", 6),
        ("千万", 7),
        ("億", 8),
    ];
    for (marker, power) in entries {
        assert!(markers.insert(marker, power));
    }
    markers
}

fn read(whole: &str) -> String {
    parse_financial(whole, &digit_table(), &marker_table())
}

#[test]
fn bare_hundred_marker_reads_as_one_hundred() {
    assert_eq!(read("百"), "100");
}

#[test]
fn two_hundred_three() {
    assert_eq!(read("弐百参"), "203");
}

#[test]
fn bare_ten_marker_reads_as_ten() {
    assert_eq!(read("拾"), "10");
}

#[test]
fn digits_without_markers_read_in_written_order() {
    assert_eq!(read("伍弐"), "52");
}

#[test]
fn every_digit_glyph_reads_as_its_own_digit() {
    assert_eq!(read("零壱弐参肆伍陸漆捌玖"), "0123456789");
}

#[test]
fn leading_zero_digits_are_kept() {
    assert_eq!(read("零零漆"), "007");
}

#[test]
fn single_digit() {
    assert_eq!(read("玖"), "9");
}

#[test]
fn empty_numeral_reads_as_one() {
    assert_eq!(read(""), "1");
}

#[test]
fn bare_markers_get_a_leading_one() {
    assert_eq!(read("千"), "1000");
    assert_eq!(read("万"), "10000");
    assert_eq!(read("億"), "100000000");
}

#[test]
fn marker_after_marker_still_gets_a_leading_one() {
    assert_eq!(read("千百"), "1000");
}

#[test]
fn leading_digit_suppresses_the_implied_one() {
    assert_eq!(read("弐千百"), "2000");
    assert_eq!(read("壱百"), "100");
}

#[test]
fn unrecognized_first_glyph_counts_as_no_digit() {
    assert_eq!(read("x参"), "13");
    assert_eq!(read("Д"), "1");
}

#[test]
fn unrecognized_glyphs_are_passed_over() {
    assert_eq!(read("弐x百"), "200");
    assert_eq!(read("弐 百 参"), "203");
}

#[test]
fn marker_zero_fills_above_the_lower_digits() {
    assert_eq!(read("参千弐拾"), "3020");
    assert_eq!(read("玖千玖百玖拾玖"), "9999");
    assert_eq!(read("壱万伍"), "10005");
    assert_eq!(read("伍億参"), "500000003");
}

#[test]
fn lower_digits_keep_their_places_under_a_marker() {
    assert_eq!(read("漆百参弐"), "732");
    assert_eq!(read("漆千参弐"), "7032");
}

#[test]
fn several_digits_above_a_marker() {
    assert_eq!(read("壱弐百"), "1200");
}

#[test]
fn two_glyph_marker_is_taken_whole() {
    assert_eq!(read("弐拾万"), "200000");
    assert_eq!(read("拾万"), "100000");
    assert_eq!(read("参百万伍千"), "3005000");
    assert_eq!(read("捌千万"), "80000000");
}

#[test]
fn two_glyph_marker_goes_before_its_last_glyph_alone() {
    let digits = digit_table();
    let mut markers = PlaceMarkerTable::new();
    assert!(markers.insert("万", 4));
    assert!(markers.insert("拾", 1));
    assert_eq!(parse_financial("弐拾万", &digits, &markers), "20");
    assert!(markers.insert("拾万", 5));
    assert_eq!(parse_financial("弐拾万", &digits, &markers), "200000");
}

#[test]
fn digit_glyph_is_a_digit_even_where_it_is_a_marker_too() {
    let mut digits = digit_table();
    assert!(digits.insert('百', 7));
    assert_eq!(parse_financial("弐百参", &digits, &marker_table()), "273");
}

#[test]
fn digit_glyph_is_not_taken_as_the_end_of_a_two_glyph_marker() {
    let mut digits = digit_table();
    assert!(digits.insert('万', 4));
    assert_eq!(parse_financial("弐拾万", &digits, &marker_table()), "24");
}

#[test]
fn two_glyph_marker_may_take_a_digit_glyph_as_its_first_glyph() {
    let digits = digit_table();
    let mut markers = marker_table();
    assert!(markers.insert("弐拾", 3));
    assert_eq!(parse_financial("弐拾", &digits, &markers), "1000");
    assert_eq!(parse_financial("参弐拾", &digits, &markers), "3000");
}

#[test]
fn smaller_power_cuts_off_placed_digits() {
    assert_eq!(read("参拾弐百"), "30");
    assert_eq!(read("拾百"), "10");
    assert_eq!(read("弐拾参肆伍"), "25");
}

#[test]
fn power_equal_to_the_placed_length_changes_nothing() {
    assert_eq!(read("弐百参肆"), "234");
}

#[test]
fn power_zero_clears_the_placed_digits() {
    let digits = digit_table();
    let mut markers = PlaceMarkerTable::new();
    assert!(markers.insert("点", 0));
    assert_eq!(parse_financial("弐点参肆", &digits, &markers), "2");
    assert_eq!(parse_financial("点参肆", &digits, &markers), "1");
}

#[test]
fn without_tables_every_numeral_reads_as_one() {
    let digits = DigitTable::new();
    let markers = PlaceMarkerTable::new();
    assert_eq!(parse_financial("弐百参", &digits, &markers), "1");
    assert_eq!(parse_financial("", &digits, &markers), "1");
}

#[test]
fn malformed_numerals_still_read_as_something() {
    let mut digits = digit_table();
    assert!(digits.insert('0', 0));
    let mut markers = marker_table();
    assert!(markers.insert("分", 1));
    assert_eq!(parse_financial(" 億0", &digits, &markers), "100000000");
    assert_eq!(parse_financial("0分0分", &digits, &markers), "00");
    assert_eq!(parse_financial("四割", &digits, &markers), "1");
}

#[test]
fn reading_is_never_empty_and_holds_ascii_digits_only() {
    for whole in ["", "百", "弐百参", "x", "拾万", "参拾弐百", "零"] {
        let out = read(whole);
        assert!(!out.is_empty());
        assert!(out.chars().all(|glyph| glyph.is_ascii_digit()));
    }
}

#[test]
fn reading_is_no_longer_than_largest_power_and_glyphs_and_one() {
    let largest_power: usize = 8;
    let numerals = ["", "百", "億", "弐億", "玖玖玖玖玖玖玖玖玖玖玖玖", "億玖玖玖", "参拾弐百"];
    for whole in numerals {
        let out = read(whole);
        assert!(out.chars().count() <= largest_power + whole.chars().count() + 1);
    }
    assert_eq!(read("億").chars().count(), 9);
    assert_eq!(read("玖億").chars().count(), 9);
}

#[test]
fn large_power_fills_with_that_many_zeros() {
    let digits = digit_table();
    let mut markers = PlaceMarkerTable::new();
    assert!(markers.insert("巨", 100_000));
    let out = parse_financial("参巨漆", &digits, &markers);
    assert_eq!(out.len(), 100_001);
    assert!(out.starts_with("30"));
    assert!(out.ends_with("07"));
    assert_eq!(out.chars().filter(|glyph| *glyph == '0').count(), 99_999);
}

#[test]
fn long_numeral_of_digits() {
    let whole: String = std::iter::repeat('玖').take(5000).collect();
    let out = read(&whole);
    assert_eq!(out.len(), 5000);
    assert!(out.chars().all(|glyph| glyph == '9'));
}

#[test]
fn parts_read_apart_compose() {
    // digits, a marker of one glyph, and a lower part: the digits, the zeros
    // up to the marker's power, the lower part's reading unchanged
    assert_eq!(read("参弐"), "32");
    assert_eq!(read("漆千参弐"), format!("{}{}{}", "7", "0", read("参弐")));
    assert_eq!(read("千参弐"), format!("{}{}{}", "1", "0", read("参弐")));
    assert_eq!(read("陸伍万参弐"), format!("{}{}{}", "65", "00", read("参弐")));
}
