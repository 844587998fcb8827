use stembundle::size::Size;
use stembundle::warehouse::Warehouse;

/// Feeds one stem line and returns the emitted bundle, if any, as
/// (name, size, pairs).
fn feed(w: &mut Warehouse, line: &str) -> Option<(char, Size, Vec<(u16, usize)>)> {
    match w.add_stem(line) {
        None => panic!("malformed stem line: {line}"),
        Some(None) => None,
        Some(Some(b)) => Some((b.name, b.size, b.stems)),
    }
}

fn register(w: &mut Warehouse, line: &str) -> bool {
    w.add_design(line).expect("malformed design line")
}

#[test]
fn single_species_design_emits_after_third_arrival() {
    let mut w = Warehouse::new();
    assert!(register(&mut w, "AS3a3"));
    w.preprocess();
    assert_eq!(feed(&mut w, "aS"), None);
    assert_eq!(feed(&mut w, "aS"), None);
    let bundle = feed(&mut w, "aS").expect("a bundle after the third stem");
    assert_eq!(bundle.0, 'A');
    assert_eq!(bundle.1, Size::Small);
    assert_eq!(bundle.2, vec![(3u16, 0usize)]);
    assert_eq!(w.stem_count(Size::Small, 0), 0);
}

#[test]
fn two_species_design_uses_full_maxima_when_exact() {
    let mut w = Warehouse::new();
    assert!(register(&mut w, "BS2a3b5"));
    w.preprocess();
    assert_eq!(feed(&mut w, "aS"), None);
    assert_eq!(feed(&mut w, "aS"), None);
    assert_eq!(feed(&mut w, "bS"), None);
    assert_eq!(feed(&mut w, "bS"), None);
    let bundle = feed(&mut w, "bS").expect("a bundle on the fifth arrival");
    assert_eq!(bundle.0, 'B');
    assert_eq!(bundle.1, Size::Small);
    assert_eq!(bundle.2, vec![(2u16, 0usize), (3u16, 1usize)]);
    assert_eq!(w.stem_count(Size::Small, 0), 0);
    assert_eq!(w.stem_count(Size::Small, 1), 0);
}

#[test]
fn tightened_minimum_forbids_smaller_bundles() {
    let mut w = Warehouse::new();
    assert!(register(&mut w, "CS3a3"));
    w.preprocess();
    // The one named species must carry the whole total: min is tightened
    // to three, so two stems on hand are never withdrawn.
    assert_eq!(feed(&mut w, "aS"), None);
    assert_eq!(feed(&mut w, "aS"), None);
    assert_eq!(w.stem_count(Size::Small, 0), 2);
    let bundle = feed(&mut w, "aS").expect("only a full bundle of three");
    assert_eq!(bundle.2, vec![(3u16, 0usize)]);
}

#[test]
fn excess_returns_from_lowest_species_first() {
    let mut w = Warehouse::new();
    // Three species capped at two each, total four.
    assert!(register(&mut w, "MS2a2b2c4"));
    w.preprocess();
    assert_eq!(feed(&mut w, "aS"), None);
    assert_eq!(feed(&mut w, "aS"), None);
    assert_eq!(feed(&mut w, "bS"), None);
    // Stock (2, 2, 0) already sums past the total, but species c is missing.
    assert_eq!(feed(&mut w, "bS"), None);
    let bundle = feed(&mut w, "cS").expect("the c stem completes the design");
    // Grabbed (2, 2, 1) has one stem too many; the surplus goes back to
    // species a, the lowest index with room above its minimum.
    assert_eq!(bundle.2, vec![(1u16, 0usize), (2u16, 1usize), (1u16, 2usize)]);
    // Conservation: the bundle holds exactly the required total.
    let total: u16 = bundle.2.iter().map(|p| p.0).sum();
    assert_eq!(total, 4);
    // The returned stem is still on hand.
    assert_eq!(w.stem_count(Size::Small, 0), 1);
    assert_eq!(w.stem_count(Size::Small, 1), 0);
    assert_eq!(w.stem_count(Size::Small, 2), 0);
}

#[test]
fn smaller_total_wins_priority() {
    let mut w = Warehouse::new();
    assert!(register(&mut w, "XS3a3"));
    assert!(register(&mut w, "YS2a2"));
    w.preprocess();
    assert_eq!(feed(&mut w, "aS"), None);
    let bundle = feed(&mut w, "aS").expect("the smaller design matches first");
    assert_eq!(bundle.0, 'Y');
    assert_eq!(bundle.2, vec![(2u16, 0usize)]);
}

#[test]
fn equal_totals_fall_back_to_registration_order() {
    let mut w = Warehouse::new();
    assert!(register(&mut w, "PS2a2"));
    assert!(register(&mut w, "QS2a2"));
    w.preprocess();
    assert_eq!(feed(&mut w, "aS"), None);
    let bundle = feed(&mut w, "aS").expect("one of the twins matches");
    assert_eq!(bundle.0, 'P');
}

#[test]
fn size_classes_do_not_share_inventory() {
    let mut w = Warehouse::new();
    assert!(register(&mut w, "AS2a2"));
    assert!(register(&mut w, "AL2a2"));
    w.preprocess();
    assert_eq!(feed(&mut w, "aS"), None);
    assert_eq!(feed(&mut w, "aL"), None);
    // One stem in each class: neither inventory has two.
    assert_eq!(w.stem_count(Size::Small, 0), 1);
    assert_eq!(w.stem_count(Size::Large, 0), 1);
    let bundle = feed(&mut w, "aL").expect("the large line completes first");
    assert_eq!(bundle.1, Size::Large);
    assert_eq!(w.stem_count(Size::Small, 0), 1);
    assert_eq!(w.stem_count(Size::Large, 0), 0);
}

#[test]
fn unsatisfiable_minima_are_dropped_at_registration() {
    let mut w = Warehouse::new();
    // Two named species force a minimum of one each, but the total is one.
    assert_eq!(w.add_design("AS3a3b1"), Some(false));
    w.preprocess();
    for _ in 0..5 {
        assert_eq!(feed(&mut w, "aS"), None);
        assert_eq!(feed(&mut w, "bS"), None);
    }
}

#[test]
fn accepted_design_may_still_never_match() {
    let mut w = Warehouse::new();
    // One species, maximum one, total nine: registrable, never satisfiable.
    assert_eq!(w.add_design("AS1a9"), Some(true));
    w.preprocess();
    for _ in 0..20 {
        assert_eq!(feed(&mut w, "aS"), None);
    }
    assert_eq!(w.stem_count(Size::Small, 0), 20);
}

#[test]
fn a_design_can_match_repeatedly() {
    let mut w = Warehouse::new();
    assert!(register(&mut w, "AS2a2"));
    w.preprocess();
    for _ in 0..3 {
        assert_eq!(feed(&mut w, "aS"), None);
        let bundle = feed(&mut w, "aS").expect("every second stem completes");
        assert_eq!(bundle.2, vec![(2u16, 0usize)]);
    }
    assert_eq!(w.stem_count(Size::Small, 0), 0);
}

#[test]
fn replaying_a_stream_yields_identical_bundles() {
    let designs = ["ZS2a3b5", "YS2a2", "XL4c4", "WS1d3e4"];
    let stems = [
        "aS", "bS", "aS", "bS", "bS", "cL", "cL", "dS", "eS", "eS", "cL", "cL", "aS", "aS", "eS",
        "dS", "bS", "bS", "bS", "aS",
    ];
    let run = || {
        let mut w = Warehouse::new();
        for d in designs {
            w.add_design(d).expect("design line");
        }
        w.preprocess();
        let mut emitted: Vec<(char, char, Vec<(u16, usize)>)> = Vec::new();
        for s in stems {
            if let Some(b) = feed(&mut w, s) {
                let marker = b.1.marker();
                emitted.push((b.0, marker, b.2));
            }
        }
        emitted
    };
    assert_eq!(run(), run());
}

#[test]
fn no_bundle_before_enough_stems_accumulate() {
    let mut w = Warehouse::new();
    assert!(register(&mut w, "AS2a3b5"));
    w.preprocess();
    assert_eq!(feed(&mut w, "aS"), None);
    assert_eq!(feed(&mut w, "bS"), None);
    assert_eq!(feed(&mut w, "bS"), None);
    assert_eq!(feed(&mut w, "aS"), None);
    // Four stems on hand, total five: still waiting.
    assert_eq!(w.stem_count(Size::Small, 0), 2);
    assert_eq!(w.stem_count(Size::Small, 1), 2);
    let bundle = feed(&mut w, "bS").expect("the fifth stem completes");
    assert_eq!(bundle.2, vec![(2u16, 0usize), (3u16, 1usize)]);
}
