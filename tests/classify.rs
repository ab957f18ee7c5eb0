use tile_influence::tile::Tile;

#[test]
fn two_markers_make_a_tier_two_city() {
    let t = Tile::from_string("XX").unwrap();
    assert_eq!(t, Tile::City(2));
    assert_eq!(t.habitability_tenths(), 40);
}

#[test]
fn single_letter_codes() {
    assert_eq!(Tile::from_string("").unwrap(), Tile::Empty);
    assert_eq!(Tile::from_string("U").unwrap(), Tile::Mountain);
    assert_eq!(Tile::from_string("N").unwrap(), Tile::Swamp);
    assert_eq!(Tile::from_string("J").unwrap(), Tile::River);
    assert_eq!(Tile::from_string("T").unwrap(), Tile::Road);
}

#[test]
fn markers_among_other_characters() {
    assert_eq!(Tile::from_string("XTX").unwrap(), Tile::City(2));
    assert_eq!(Tile::from_string("Paris X").unwrap(), Tile::City(1));
    assert_eq!(Tile::from_string("UX").unwrap(), Tile::City(1));
    assert_eq!(Tile::from_string("éXÖX").unwrap(), Tile::City(2));
}

#[test]
fn unknown_codes_are_refused() {
    let e = Tile::from_string("Q").unwrap_err();
    assert_eq!(e.code, "Q");
    let e = Tile::from_string("UU").unwrap_err();
    assert_eq!(e.code, "UU");
    let e = Tile::from_string("x").unwrap_err();
    assert_eq!(e.code, "x");
}

#[test]
fn habitability_table() {
    assert_eq!(Tile::Empty.habitability_tenths(), 10);
    assert_eq!(Tile::Mountain.habitability_tenths(), 0);
    assert_eq!(Tile::Swamp.habitability_tenths(), 3);
    assert_eq!(Tile::River.habitability_tenths(), 0);
    assert_eq!(Tile::Road.habitability_tenths(), 13);
    assert_eq!(Tile::City(3).habitability_tenths(), 60);
    assert_eq!(
        Tile::City(usize::MAX).habitability_tenths(),
        20 * (usize::MAX as u128)
    );
}
