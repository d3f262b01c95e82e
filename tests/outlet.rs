use grid_flow::addressing::PointerScheme;
use grid_flow::outlet::{delineate_basins, BasinLabel};
use grid_flow::surface::Surface;

fn surface(rows: usize, columns: usize, cells: Vec<Option<i64>>) -> Surface {
    Surface::new(rows, columns, cells).unwrap()
}

#[test]
fn two_cell_cycle_terminates_and_is_reported() {
    // Native codes: 2 points east, 32 points west.
    let s = surface(1, 2, vec![Some(2), Some(32)]);
    let m = delineate_basins(&s, PointerScheme::Native);
    assert!(m.cycle_found);
    assert_eq!(m.labels, vec![BasinLabel::NoData, BasinLabel::NoData]);
}

#[test]
fn chain_takes_the_label_of_its_outlet() {
    let s = surface(1, 3, vec![Some(2), Some(2), Some(0)]);
    let m = delineate_basins(&s, PointerScheme::Native);
    assert!(!m.cycle_found);
    assert_eq!(m.labels, vec![BasinLabel::Basin(1); 3]);
}

#[test]
fn outlets_are_numbered_in_row_major_order() {
    // Row 0 drains west to (0,0); row 1 drains east to (1,2).
    let s = surface(
        2,
        3,
        vec![Some(0), Some(32), Some(32), Some(2), Some(2), Some(-1)],
    );
    let m = delineate_basins(&s, PointerScheme::Native);
    assert_eq!(
        m.labels,
        vec![
            BasinLabel::Basin(1),
            BasinLabel::Basin(1),
            BasinLabel::Basin(1),
            BasinLabel::Basin(2),
            BasinLabel::Basin(2),
            BasinLabel::Basin(2),
        ]
    );
}

#[test]
fn alternate_scheme_reads_codes_its_own_way() {
    // Alternate: 1 points east, 16 points west.
    let s = surface(1, 3, vec![Some(1), Some(0), Some(16)]);
    let m = delineate_basins(&s, PointerScheme::Alternate);
    assert_eq!(m.labels, vec![BasinLabel::Basin(1); 3]);
    // Read as native, 1 points north-east and 16 south-west: both off the
    // grid.
    let m = delineate_basins(&s, PointerScheme::Native);
    assert_eq!(
        m.labels,
        vec![BasinLabel::NoData, BasinLabel::Basin(1), BasinLabel::NoData]
    );
}

#[test]
fn no_data_and_unnamed_codes_end_a_chain_without_a_basin() {
    // (0,0) drains into a cell without data; (0,2) holds a code naming no
    // direction, and (0,3) drains into it.
    let s = surface(1, 4, vec![Some(2), None, Some(3), Some(32)]);
    let m = delineate_basins(&s, PointerScheme::Native);
    assert!(!m.cycle_found);
    assert_eq!(m.labels, vec![BasinLabel::NoData; 4]);
}

#[test]
fn chain_into_a_cycle_is_unresolved() {
    // (0,0) drains east into a two-cell cycle; (0,3) is an outlet.
    let s = surface(1, 4, vec![Some(2), Some(2), Some(32), Some(0)]);
    let m = delineate_basins(&s, PointerScheme::Native);
    assert!(m.cycle_found);
    assert_eq!(
        m.labels,
        vec![BasinLabel::NoData, BasinLabel::NoData, BasinLabel::NoData, BasinLabel::Basin(1)]
    );
}
