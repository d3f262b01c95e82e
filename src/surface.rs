use vstd::prelude::*;

verus! {

/// A raster surface held in row-major order. Each cell holds an integer
/// value, or `None` where the surface has no data.
///
/// Elevations are held as order-preserving integer keys, pointer rasters as
/// their integer codes, categorical rasters as their class values.
pub struct Surface {
    pub rows: usize,
    pub columns: usize,
    pub cells: Vec<Option<i64>>,
}

/// Position of cell `(r, c)` in row-major storage.
pub open spec fn flat(columns: int, r: int, c: int) -> int {
    r * columns + c
}

pub open spec fn in_grid(rows: int, columns: int, r: int, c: int) -> bool {
    0 <= r < rows && 0 <= c < columns
}

pub proof fn lemma_flat_bounds(rows: int, columns: int, r: int, c: int)
    requires
        in_grid(rows, columns, r, c),
    ensures
        0 <= flat(columns, r, c) < rows * columns,
{
    assert(0 <= r * columns) by (nonlinear_arith)
        requires
            0 <= r,
            0 <= columns,
    ;
    assert(r * columns + c < rows * columns) by (nonlinear_arith)
        requires
            0 <= r < rows,
            0 <= c < columns,
    ;
}

pub proof fn lemma_flat_injective(rows: int, columns: int, r1: int, c1: int, r2: int, c2: int)
    requires
        in_grid(rows, columns, r1, c1),
        in_grid(rows, columns, r2, c2),
        (r1, c1) != (r2, c2),
    ensures
        flat(columns, r1, c1) != flat(columns, r2, c2),
{
    if r1 < r2 {
        assert(r1 * columns + c1 < r2 * columns + c2) by (nonlinear_arith)
            requires
                r1 < r2,
                0 <= c1 < columns,
                0 <= c2,
        ;
    } else if r2 < r1 {
        assert(r2 * columns + c2 < r1 * columns + c1) by (nonlinear_arith)
            requires
                r2 < r1,
                0 <= c2 < columns,
                0 <= c1,
        ;
    }
}

impl Surface {
    /// Storage length agrees with the shape.
    pub open spec fn wf(&self) -> bool {
        self.cells@.len() == self.rows * self.columns
    }

    pub open spec fn in_grid(&self, r: int, c: int) -> bool {
        in_grid(self.rows as int, self.columns as int, r, c)
    }

    /// Value of cell `(r, c)`.
    pub open spec fn at(&self, r: int, c: int) -> Option<i64> {
        self.cells@[flat(self.columns as int, r, c)]
    }

    /// A cell that lies in the grid and holds data.
    pub open spec fn valid(&self, r: int, c: int) -> bool {
        self.in_grid(r, c) && self.at(r, c) is Some
    }

    /// Builds a surface from its shape and row-major cells; `None` when the
    /// number of cells does not match the shape.
    pub fn new(rows: usize, columns: usize, cells: Vec<Option<i64>>) -> (r: Option<Surface>)
        ensures
            r is Some <==> cells@.len() == rows * columns,
            r matches Some(s) ==> s.rows == rows && s.columns == columns && s.cells@
                == cells@ && s.wf(),
    {
        let len = cells.len();
        if columns == 0 {
            assert(rows * columns == 0);
            if len == 0 {
                return Some(Surface { rows, columns, cells });
            }
            return None;
        }
        if len % columns != 0 {
            assert(len != rows * columns) by (nonlinear_arith)
                requires
                    len % columns != 0,
                    columns > 0,
            ;
            return None;
        }
        if len / columns != rows {
            assert(len != rows * columns) by (nonlinear_arith)
                requires
                    len / columns != rows,
                    columns > 0,
            ;
            return None;
        }
        assert(len == rows * columns) by (nonlinear_arith)
            requires
                len % columns == 0,
                len / columns == rows,
                columns > 0,
        ;
        Some(Surface { rows, columns, cells })
    }

    /// Storage position of an in-grid cell.
    pub fn index(&self, r: usize, c: usize) -> (i: usize)
        requires
            self.wf(),
            self.in_grid(r as int, c as int),
        ensures
            i as int == flat(self.columns as int, r as int, c as int),
            i < self.cells@.len(),
    {
        proof {
            lemma_flat_bounds(self.rows as int, self.columns as int, r as int, c as int);
        }
        let len = self.cells.len();
        assert(r * self.columns + c < len);
        r * self.columns + c
    }

    /// Value of an in-grid cell.
    pub fn get(&self, r: usize, c: usize) -> (v: Option<i64>)
        requires
            self.wf(),
            self.in_grid(r as int, c as int),
        ensures
            v == self.at(r as int, c as int),
    {
        let i = self.index(r, c);
        self.cells[i]
    }
}

} // verus!
