use vstd::prelude::*;
use crate::addressing::{neighbour, step, NUM_DIRECTIONS};
use crate::surface::{flat, Surface};

verus! {

/// The neighbour of `(r, c)` in direction `d` holds data and lies strictly
/// higher than `(r, c)`, which holds data too.
pub open spec fn higher_neighbour(s: Surface, r: int, c: int, d: int) -> bool {
    match step(s.rows as int, s.columns as int, r, c, d) {
        Some(n) => match (s.at(r, c), s.at(n.0, n.1)) {
            (Some(z), Some(zn)) => zn > z,
            _ => false,
        },
        None => false,
    }
}

/// Number of directions below `k` that lead to a higher neighbour.
pub open spec fn higher_count(s: Surface, r: int, c: int, k: int) -> nat
    decreases k,
{
    if k <= 0 {
        0
    } else {
        higher_count(s, r, c, k - 1) + if higher_neighbour(s, r, c, k - 1) {
            1nat
        } else {
            0nat
        }
    }
}

/// The in-degree of a cell: how many of its eight neighbours drain into it
/// by strict descent. `None` for a cell without data.
pub open spec fn in_degree_of(s: Surface, r: int, c: int) -> Option<nat> {
    if s.at(r, c) is Some {
        Some(higher_count(s, r, c, 8))
    } else {
        None
    }
}

/// A cell with data whose eight neighbours all lie strictly higher.
pub open spec fn is_interior_pit(s: Surface, r: int, c: int) -> bool {
    s.valid(r, c) && higher_count(s, r, c, 8) == 8
}

pub proof fn lemma_higher_count_bound(s: Surface, r: int, c: int, k: int)
    requires
        0 <= k,
    ensures
        higher_count(s, r, c, k) <= k,
    decreases k,
{
    if k > 0 {
        lemma_higher_count_bound(s, r, c, k - 1);
    }
}

/// Counts of one row, and whether the row holds an interior pit.
pub struct RowInDegree {
    pub counts: Vec<Option<u8>>,
    pub interior_pit: bool,
}

/// The in-degree of every cell of a surface, in row-major order, and
/// whether any cell is an interior pit.
pub struct InDegree {
    pub counts: Vec<Option<u8>>,
    pub interior_pit: bool,
}

/// Number of higher neighbours of a cell that holds data.
fn count_higher(s: &Surface, r: usize, c: usize, z: i64) -> (n: u8)
    requires
        s.wf(),
        s.in_grid(r as int, c as int),
        s.at(r as int, c as int) == Some(z),
    ensures
        n as nat == higher_count(*s, r as int, c as int, 8),
{
    let mut n: u8 = 0;
    let mut d: usize = 0;
    while d < NUM_DIRECTIONS
        invariant
            s.wf(),
            s.in_grid(r as int, c as int),
            s.at(r as int, c as int) == Some(z),
            d <= NUM_DIRECTIONS,
            n as nat == higher_count(*s, r as int, c as int, d as int),
        decreases NUM_DIRECTIONS - d,
    {
        proof {
            lemma_higher_count_bound(*s, r as int, c as int, d as int);
        }
        match neighbour(s.rows, s.columns, r, c, d) {
            Some((nr, nc)) => {
                match s.get(nr, nc) {
                    Some(zn) => {
                        if zn > z {
                            n = n + 1;
                        }
                    },
                    None => {},
                }
            },
            None => {},
        }
        d = d + 1;
    }
    n
}

/// In-degrees of row `r`. Reads the surface only, so rows may be computed
/// independently of one another.
pub fn in_degree_row(s: &Surface, r: usize) -> (row: RowInDegree)
    requires
        s.wf(),
        r < s.rows,
    ensures
        row.counts@.len() == s.columns,
        forall|c: int|
            0 <= c < s.columns ==> match in_degree_of(*s, r as int, c) {
                Some(k) => #[trigger] row.counts@[c] == Some(k as u8),
                None => row.counts@[c] is None,
            },
        row.interior_pit <==> exists|c: int|
            0 <= c < s.columns && #[trigger] is_interior_pit(*s, r as int, c),
{
    let mut counts: Vec<Option<u8>> = Vec::new();
    let mut pit = false;
    let mut c: usize = 0;
    while c < s.columns
        invariant
            s.wf(),
            r < s.rows,
            c <= s.columns,
            counts@.len() == c,
            forall|j: int|
                0 <= j < c ==> match in_degree_of(*s, r as int, j) {
                    Some(k) => #[trigger] counts@[j] == Some(k as u8),
                    None => counts@[j] is None,
                },
            pit <==> exists|j: int| 0 <= j < c && #[trigger] is_interior_pit(*s, r as int, j),
        decreases s.columns - c,
    {
        match s.get(r, c) {
            Some(z) => {
                let n = count_higher(s, r, c, z);
                counts.push(Some(n));
                if n == 8 {
                    pit = true;
                }
            },
            None => {
                counts.push(None);
            },
        }
        assert(pit <==> exists|j: int| 0 <= j < c + 1 && #[trigger] is_interior_pit(*s, r as int, j)) by {
            if is_interior_pit(*s, r as int, c as int) {
                assert(pit);
            }
        }
        c = c + 1;
    }
    RowInDegree { counts, interior_pit: pit }
}

/// In-degrees of the whole surface, assembled row by row.
pub fn estimate_in_degree(s: &Surface) -> (g: InDegree)
    requires
        s.wf(),
    ensures
        g.counts@.len() == s.cells@.len(),
        forall|r: int, c: int|
            s.in_grid(r, c) ==> match in_degree_of(*s, r, c) {
                Some(k) => #[trigger] g.counts@[flat(s.columns as int, r, c)] == Some(k as u8),
                None => g.counts@[flat(s.columns as int, r, c)] is None,
            },
        g.interior_pit <==> exists|r: int, c: int|
            s.in_grid(r, c) && #[trigger] is_interior_pit(*s, r, c),
{
    let mut counts: Vec<Option<u8>> = Vec::new();
    let mut pit = false;
    let mut r: usize = 0;
    while r < s.rows
        invariant
            s.wf(),
            r <= s.rows,
            counts@.len() == r * s.columns,
            forall|i: int, c: int|
                0 <= i < r && 0 <= c < s.columns ==> match in_degree_of(*s, i, c) {
                    Some(k) => #[trigger] counts@[flat(s.columns as int, i, c)] == Some(k as u8),
                    None => counts@[flat(s.columns as int, i, c)] is None,
                },
            pit <==> exists|i: int, c: int|
                0 <= i < r && 0 <= c < s.columns && #[trigger] is_interior_pit(*s, i, c),
        decreases s.rows - r,
    {
        let row = in_degree_row(s, r);
        let ghost before = counts@;
        let mut c: usize = 0;
        while c < s.columns
            invariant
                s.wf(),
                r < s.rows,
                c <= s.columns,
                row.counts@.len() == s.columns,
                counts@.len() == r * s.columns + c,
                counts@.subrange(0, r * s.columns) == before,
                forall|j: int| 0 <= j < c ==> counts@[r * s.columns + j] == row.counts@[j],
            decreases s.columns - c,
        {
            counts.push(row.counts[c]);
            assert(counts@.subrange(0, r * s.columns) == before);
            c = c + 1;
        }
        proof {
            assert((r + 1) * s.columns == r * s.columns + s.columns) by (nonlinear_arith);
            assert forall|i: int, c: int|
                0 <= i < r + 1 && 0 <= c < s.columns implies match in_degree_of(*s, i, c) {
                Some(k) => #[trigger] counts@[flat(s.columns as int, i, c)] == Some(k as u8),
                None => counts@[flat(s.columns as int, i, c)] is None,
            } by {
                crate::surface::lemma_flat_bounds(r + 1, s.columns as int, i, c);
                if i < r {
                    crate::surface::lemma_flat_bounds(r as int, s.columns as int, i, c);
                    assert(counts@[flat(s.columns as int, i, c)] == before[flat(
                        s.columns as int,
                        i,
                        c,
                    )]);
                } else {
                    assert(counts@[flat(s.columns as int, i, c)] == row.counts@[c]);
                }
            }
            if row.interior_pit {
                let c = choose|c: int| 0 <= c < s.columns && #[trigger] is_interior_pit(*s, r as int, c);
                assert(is_interior_pit(*s, r as int, c));
            }
        }
        pit = pit || row.interior_pit;
        r = r + 1;
    }
    assert(r == s.rows);
    InDegree { counts, interior_pit: pit }
}

} // verus!
