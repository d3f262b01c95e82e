use grid_flow::addressing::{neighbour, uses_direction, Connectivity, PointerScheme, PointerTable};

#[test]
fn native_codes_map_to_directions() {
    let t = PointerTable::new(PointerScheme::Native);
    let expected = [(1, 0), (2, 1), (4, 2), (8, 3), (16, 4), (32, 5), (64, 6), (128, 7)];
    for (code, dir) in expected {
        assert_eq!(t.direction(code), Some(dir));
    }
}

#[test]
fn alternate_codes_map_to_directions() {
    let t = PointerTable::new(PointerScheme::Alternate);
    let expected = [(1, 1), (2, 2), (4, 3), (8, 4), (16, 5), (32, 6), (64, 7), (128, 0)];
    for (code, dir) in expected {
        assert_eq!(t.direction(code), Some(dir));
    }
}

#[test]
fn unmapped_codes_name_no_direction() {
    for scheme in [PointerScheme::Native, PointerScheme::Alternate] {
        let t = PointerTable::new(scheme);
        for code in [0, -1, 3, 5, 127, 129, 255, 256, 1000, i64::MIN, i64::MAX] {
            assert_eq!(t.direction(code), None);
        }
    }
}

#[test]
fn single_bit_codes_are_a_bijection() {
    for scheme in [PointerScheme::Native, PointerScheme::Alternate] {
        let t = PointerTable::new(scheme);
        let mut seen = [false; 8];
        for k in 0..8 {
            let d = t.direction(1i64 << k).unwrap();
            assert!(d < 8);
            assert!(!seen[d]);
            seen[d] = true;
        }
        assert!(seen.iter().all(|b| *b));
    }
}

#[test]
fn neighbours_respect_the_grid_edge() {
    // From the top-left corner only E, SE and S lie in the grid.
    let found: Vec<Option<(usize, usize)>> = (0..8).map(|d| neighbour(3, 3, 0, 0, d)).collect();
    assert_eq!(
        found,
        vec![None, Some((0, 1)), Some((1, 1)), Some((1, 0)), None, None, None, None]
    );
    // From the centre all eight do, clockwise from north-east.
    let found: Vec<Option<(usize, usize)>> = (0..8).map(|d| neighbour(3, 3, 1, 1, d)).collect();
    assert_eq!(
        found,
        vec![
            Some((0, 2)),
            Some((1, 2)),
            Some((2, 2)),
            Some((2, 1)),
            Some((2, 0)),
            Some((1, 0)),
            Some((0, 0)),
            Some((0, 1)),
        ]
    );
    assert_eq!(neighbour(3, 3, 2, 2, 2), None);
}

#[test]
fn four_connectivity_keeps_cardinal_directions() {
    let four: Vec<bool> = (0..8).map(|d| uses_direction(Connectivity::Four, d)).collect();
    assert_eq!(four, vec![false, true, false, true, false, true, false, true]);
    assert!((0..8).all(|d| uses_direction(Connectivity::Eight, d)));
}
