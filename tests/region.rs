use grid_flow::addressing::Connectivity;
use grid_flow::region::{label_regions, labels_as_surface, RegionLabel};
use grid_flow::surface::Surface;

fn surface(rows: usize, columns: usize, cells: Vec<Option<i64>>) -> Surface {
    Surface::new(rows, columns, cells).unwrap()
}

#[test]
fn flat_surface_is_one_region() {
    let s = surface(3, 3, vec![Some(7); 9]);
    let g = label_regions(&s, Connectivity::Eight, false);
    assert_eq!(g.labels, vec![RegionLabel::Region(1); 9]);
    assert_eq!(g.seeds, vec![(0, 0)]);
}

#[test]
fn diagonals_join_only_under_eight_connectivity() {
    let s = surface(2, 2, vec![Some(1), Some(2), Some(2), Some(1)]);
    let g = label_regions(&s, Connectivity::Four, false);
    assert_eq!(
        g.labels,
        vec![
            RegionLabel::Region(1),
            RegionLabel::Region(2),
            RegionLabel::Region(3),
            RegionLabel::Region(4),
        ]
    );
    let g = label_regions(&s, Connectivity::Eight, false);
    assert_eq!(
        g.labels,
        vec![
            RegionLabel::Region(1),
            RegionLabel::Region(2),
            RegionLabel::Region(2),
            RegionLabel::Region(1),
        ]
    );
    assert_eq!(g.seeds, vec![(0, 0), (0, 1)]);
}

#[test]
fn zero_is_background_only_when_asked() {
    let s = surface(1, 4, vec![Some(0), Some(1), Some(0), Some(1)]);
    let g = label_regions(&s, Connectivity::Eight, true);
    assert_eq!(
        g.labels,
        vec![
            RegionLabel::Background,
            RegionLabel::Region(1),
            RegionLabel::Background,
            RegionLabel::Region(2),
        ]
    );
    let g = label_regions(&s, Connectivity::Eight, false);
    assert_eq!(
        g.labels,
        vec![
            RegionLabel::Region(1),
            RegionLabel::Region(2),
            RegionLabel::Region(3),
            RegionLabel::Region(4),
        ]
    );
}

#[test]
fn cells_without_data_are_never_labelled() {
    let s = surface(1, 3, vec![None, Some(4), Some(4)]);
    let g = label_regions(&s, Connectivity::Four, false);
    assert_eq!(
        g.labels,
        vec![RegionLabel::NoData, RegionLabel::Region(1), RegionLabel::Region(1)]
    );
}

#[test]
fn region_wraps_around_an_obstacle() {
    // A U of 5s around a 9: one region reached through the bottom row.
    let s = surface(
        3,
        3,
        vec![Some(5), Some(9), Some(5), Some(5), Some(9), Some(5), Some(5), Some(5), Some(5)],
    );
    let g = label_regions(&s, Connectivity::Four, false);
    let r1 = RegionLabel::Region(1);
    let r2 = RegionLabel::Region(2);
    assert_eq!(g.labels, vec![r1, r2, r1, r1, r2, r1, r1, r1, r1]);
}

#[test]
fn relabelling_the_output_keeps_the_partition() {
    let s = surface(
        3,
        4,
        vec![
            Some(1), Some(1), Some(2), None,
            Some(3), Some(1), Some(2), Some(2),
            Some(3), Some(3), None, Some(1),
        ],
    );
    for conn in [Connectivity::Four, Connectivity::Eight] {
        let first = label_regions(&s, conn, false);
        let back = labels_as_surface(3, 4, &first.labels);
        let second = label_regions(&back, conn, false);
        assert_eq!(second.labels, first.labels);
    }
}

#[test]
fn labels_read_back_as_values() {
    let labels = vec![RegionLabel::NoData, RegionLabel::Background, RegionLabel::Region(3)];
    let t = labels_as_surface(1, 3, &labels);
    assert_eq!(t.cells, vec![None, Some(0), Some(3)]);
}
