use stembundle::design::Design;
use stembundle::size::{Size, SizeMap};
use stembundle::species::{char_to_stem_index, stem_index_to_char};
use stembundle::warehouse::Warehouse;

#[test]
fn design_line_fields_are_read_and_tightened() {
    let d = Design::from_str("BS2a3b5").expect("a well-formed line");
    assert_eq!(d.name, 'B');
    assert_eq!(d.size, Size::Small);
    assert_eq!(d.total, 5);
    assert_eq!(d.max_stems.get(0), 2);
    assert_eq!(d.max_stems.get(1), 3);
    assert_eq!(d.min_stems.get(0), 1);
    assert_eq!(d.min_stems.get(1), 1);
    assert_eq!(d.min_stems.get(2), 0);
    assert_eq!(d.max_stems.get(2), 0);
}

#[test]
fn single_species_cap_and_minimum_match_the_formulas() {
    // Cap: 1 + 3 - 1 = 3 (unchanged); minimum: max(1, 3 - 0) = 3.
    let d = Design::from_str("CS3a3").expect("a well-formed line");
    assert_eq!(d.max_stems.get(0), 3);
    assert_eq!(d.min_stems.get(0), 3);
}

#[test]
fn oversized_maximum_is_capped_to_the_total() {
    // "5a" can never contribute more than 1 + 3 - 1 = 3 stems.
    let capped = Design::from_str("AS5a3").expect("a well-formed line");
    let plain = Design::from_str("AS3a3").expect("a well-formed line");
    assert_eq!(capped.max_stems.get(0), 3);
    assert_eq!(capped.max_stems.get(0), plain.max_stems.get(0));
    assert_eq!(capped.min_stems.get(0), plain.min_stems.get(0));
    assert_eq!(capped.total, plain.total);
}

#[test]
fn junk_between_pairs_is_ignored() {
    let messy = Design::from_str("AS 2a xx3b 5").expect("a well-formed line");
    let clean = Design::from_str("AS2a3b5").expect("a well-formed line");
    assert_eq!(messy.total, clean.total);
    for s in 0..26 {
        assert_eq!(messy.min_stems.get(s), clean.min_stems.get(s));
        assert_eq!(messy.max_stems.get(s), clean.max_stems.get(s));
    }
}

#[test]
fn multi_digit_counts_and_totals_parse() {
    let d = Design::from_str("AL12a10").expect("a well-formed line");
    assert_eq!(d.size, Size::Large);
    assert_eq!(d.total, 10);
    // Raw maximum 12 is capped at 1 + 10 - 1 = 10.
    assert_eq!(d.max_stems.get(0), 10);
}

#[test]
fn later_pair_for_the_same_species_wins() {
    let d = Design::from_str("AS2a3a9").expect("a well-formed line");
    assert_eq!(d.max_stems.get(0), 3);
}

#[test]
fn malformed_design_lines_are_rejected() {
    assert!(Design::from_str("").is_none());
    assert!(Design::from_str("AS").is_none());
    assert!(Design::from_str("aS3a3").is_none());
    assert!(Design::from_str("AX3a3").is_none());
    assert!(Design::from_str("AS3a").is_none());
    assert!(Design::from_str("AS70000").is_none());
    assert!(Design::from_str("AS70000a5").is_none());
}

#[test]
fn warehouse_surfaces_malformed_design_lines() {
    let mut w = Warehouse::new();
    assert_eq!(w.add_design("notadesign"), None);
    assert_eq!(w.add_design("AS3a3"), Some(true));
}

#[test]
fn malformed_stem_lines_are_rejected() {
    let mut w = Warehouse::new();
    assert_eq!(w.add_design("AS3a3"), Some(true));
    w.preprocess();
    assert!(w.add_stem("").is_none());
    assert!(w.add_stem("a").is_none());
    assert!(w.add_stem("ax").is_none());
    assert!(w.add_stem("AS").is_none());
    assert!(w.add_stem("1S").is_none());
    // A well-formed line with trailing characters is accepted.
    assert!(w.add_stem("aS extra").is_some());
}

#[test]
fn species_letters_map_to_indices_and_back() {
    assert_eq!(char_to_stem_index('a'), 0);
    assert_eq!(char_to_stem_index('z'), 25);
    assert_eq!(stem_index_to_char(0), 'a');
    assert_eq!(stem_index_to_char(25), 'z');
    for i in 0..26 {
        assert_eq!(char_to_stem_index(stem_index_to_char(i)), i);
    }
}

#[test]
fn size_markers_round_trip() {
    assert_eq!(Size::from_marker('S'), Some(Size::Small));
    assert_eq!(Size::from_marker('L'), Some(Size::Large));
    assert_eq!(Size::from_marker('x'), None);
    assert_eq!(Size::Small.marker(), 'S');
    assert_eq!(Size::Large.marker(), 'L');
}

#[test]
fn size_map_picks_the_matching_slot() {
    let mut m = SizeMap::new(1u32, 2u32);
    assert_eq!(*m.get_mut(&Size::Small), 1);
    assert_eq!(*m.get_mut(&Size::Large), 2);
    *m.get_mut(&Size::Small) = 10;
    assert_eq!(m.small, 10);
    assert_eq!(m.large, 2);
}
