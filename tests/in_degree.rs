use grid_flow::in_degree::{estimate_in_degree, in_degree_row};
use grid_flow::surface::Surface;

fn surface(rows: usize, columns: usize, cells: Vec<Option<i64>>) -> Surface {
    Surface::new(rows, columns, cells).unwrap()
}

#[test]
fn interior_pit_is_flagged() {
    let s = surface(
        3,
        3,
        vec![Some(5), Some(5), Some(5), Some(5), Some(1), Some(5), Some(5), Some(5), Some(5)],
    );
    let g = estimate_in_degree(&s);
    assert!(g.interior_pit);
    assert_eq!(g.counts[4], Some(8));
    assert_eq!(g.counts[0], Some(0));
}

#[test]
fn counts_only_strictly_higher_neighbours_with_data() {
    let s = surface(
        2,
        3,
        vec![Some(3), Some(9), None, Some(3), Some(2), Some(3)],
    );
    let g = estimate_in_degree(&s);
    // (0,0): higher are (0,1); (1,0) is equal.
    assert_eq!(g.counts[0], Some(1));
    // (0,1) is the highest cell.
    assert_eq!(g.counts[1], Some(0));
    assert_eq!(g.counts[2], None);
    // (1,1): every neighbour with data is higher.
    assert_eq!(g.counts[4], Some(4));
    assert!(!g.interior_pit);
}

#[test]
fn a_row_is_computed_on_its_own() {
    let s = surface(2, 2, vec![Some(1), Some(2), Some(3), None]);
    let row = in_degree_row(&s, 1);
    assert_eq!(row.counts, vec![Some(0), None]);
    assert!(!row.interior_pit);
    let row = in_degree_row(&s, 0);
    assert_eq!(row.counts, vec![Some(2), Some(1)]);
}

#[test]
fn shape_mismatch_is_refused() {
    assert!(Surface::new(2, 2, vec![Some(1); 3]).is_none());
    assert!(Surface::new(0, 5, vec![]).is_some());
    assert!(Surface::new(usize::MAX, 2, vec![]).is_none());
}
