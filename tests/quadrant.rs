use gravsim::quadrant::Quadrant;

#[test]
fn quadrant_index_bits() {
    assert_eq!(Quadrant::NorthWest.index(), 0);
    assert_eq!(Quadrant::NorthEast.index(), 1);
    assert_eq!(Quadrant::SouthWest.index(), 2);
    assert_eq!(Quadrant::SouthEast.index(), 3);
}

#[test]
fn quadrant_from_index_round_trip() {
    for bits in 0u8..4 {
        assert_eq!(Quadrant::from_index(bits).index(), bits);
    }
}

#[test]
fn quadrant_offsets() {
    assert_eq!(Quadrant::NorthWest.offset(), (0, 0));
    assert_eq!(Quadrant::NorthEast.offset(), (1, 0));
    assert_eq!(Quadrant::SouthWest.offset(), (0, 1));
    assert_eq!(Quadrant::SouthEast.offset(), (1, 1));
}

#[test]
fn quadrant_from_offset_halves() {
    assert_eq!(Quadrant::from_offset(1, 1, 10), Quadrant::NorthWest);
    assert_eq!(Quadrant::from_offset(6, 1, 10), Quadrant::NorthEast);
    assert_eq!(Quadrant::from_offset(1, 6, 10), Quadrant::SouthWest);
    assert_eq!(Quadrant::from_offset(9, 9, 10), Quadrant::SouthEast);
}

#[test]
fn quadrant_from_offset_tie_goes_low() {
    assert_eq!(Quadrant::from_offset(5, 5, 10), Quadrant::NorthWest);
    assert_eq!(Quadrant::from_offset(5, 6, 10), Quadrant::SouthWest);
    assert_eq!(Quadrant::from_offset(-3, 20, 10), Quadrant::SouthWest);
}
