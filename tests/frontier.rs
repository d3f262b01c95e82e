use grid_flow::frontier::{lower_neighbours, propagation_order};
use grid_flow::surface::Surface;

fn surface(rows: usize, columns: usize, cells: Vec<Option<i64>>) -> Surface {
    Surface::new(rows, columns, cells).unwrap()
}

#[test]
fn ramp_resolves_from_the_top_and_accumulates_one_per_cell() {
    let s = surface(1, 5, vec![Some(50), Some(40), Some(30), Some(20), Some(10)]);
    let sch = propagation_order(&s);
    assert_eq!(sch.order, vec![(0, 0), (0, 1), (0, 2), (0, 3), (0, 4)]);
    // Each cell hands everything to its single lower neighbour.
    let mut acc = vec![1.0f64; 5];
    for (_, c) in sch.order.iter() {
        if *c + 1 < 5 {
            acc[*c + 1] += acc[*c];
        }
    }
    assert_eq!(acc, vec![1.0, 2.0, 3.0, 4.0, 5.0]);
}

#[test]
fn interior_pit_still_completes() {
    let s = surface(
        3,
        3,
        vec![Some(5), Some(5), Some(5), Some(5), Some(1), Some(5), Some(5), Some(5), Some(5)],
    );
    let sch = propagation_order(&s);
    assert!(sch.interior_pit);
    assert_eq!(sch.order.len(), 9);
    assert_eq!(sch.order[8], (1, 1));
}

#[test]
fn every_cell_with_data_resolves_once_after_its_upslope() {
    let cells = vec![
        Some(9), Some(8), None, Some(4),
        Some(7), Some(7), Some(3), Some(2),
        None, Some(6), Some(1), Some(0),
    ];
    let s = surface(3, 4, cells.clone());
    let sch = propagation_order(&s);
    let valid = cells.iter().filter(|v| v.is_some()).count();
    assert_eq!(sch.order.len(), valid);
    let mut position = vec![usize::MAX; 12];
    for (i, (r, c)) in sch.order.iter().enumerate() {
        assert!(cells[r * 4 + c].is_some());
        assert_eq!(position[r * 4 + c], usize::MAX);
        position[r * 4 + c] = i;
    }
    for r in 0..3i64 {
        for c in 0..4i64 {
            let Some(z) = cells[(r * 4 + c) as usize] else { continue };
            for dr in -1..=1i64 {
                for dc in -1..=1i64 {
                    let (nr, nc) = (r + dr, c + dc);
                    if (dr, dc) == (0, 0) || nr < 0 || nc < 0 || nr >= 3 || nc >= 4 {
                        continue;
                    }
                    if let Some(zn) = cells[(nr * 4 + nc) as usize] {
                        if zn > z {
                            assert!(position[(nr * 4 + nc) as usize] < position[(r * 4 + c) as usize]);
                        }
                    }
                }
            }
        }
    }
}

#[test]
fn flat_surface_resolves_every_cell() {
    let s = surface(3, 3, vec![Some(4); 9]);
    let sch = propagation_order(&s);
    assert_eq!(sch.order.len(), 9);
    assert!(!sch.interior_pit);
}

#[test]
fn surface_without_data_resolves_nothing() {
    let s = surface(2, 2, vec![None; 4]);
    assert!(propagation_order(&s).order.is_empty());
    let s = surface(0, 0, vec![]);
    assert!(propagation_order(&s).order.is_empty());
}

#[test]
fn lower_neighbours_lists_directions_downhill() {
    let s = surface(
        3,
        3,
        vec![Some(1), Some(9), Some(2), Some(6), Some(5), None, Some(5), Some(4), Some(3)],
    );
    // From the centre NE, SE, S and NW hold lower values; E holds no data.
    assert_eq!(lower_neighbours(&s, 1, 1), vec![0, 2, 3, 6]);
    assert_eq!(lower_neighbours(&s, 0, 0), Vec::<usize>::new());
}
