use vstd::prelude::*;

verus! {

/// Which neighbours of a cell take part in connectivity.
#[derive(Clone, Copy, PartialEq, Eq, Structural, Debug)]
pub enum Connectivity {
    /// The four cardinal neighbours.
    Four,
    /// All eight neighbours.
    Eight,
}

/// How a single-flow-direction pointer code names a direction.
#[derive(Clone, Copy, PartialEq, Eq, Structural, Debug)]
pub enum PointerScheme {
    /// 1 = north-east, doubling clockwise up to 128 = north.
    Native,
    /// 1 = east, doubling clockwise up to 128 = north-east.
    Alternate,
}

/// Number of directions around a cell.
pub const NUM_DIRECTIONS: usize = 8;

/// Row step of direction `d`, clockwise from north-east:
/// NE, E, SE, S, SW, W, NW, N.
pub open spec fn row_delta(d: int) -> int {
    if d == 0 || d == 6 || d == 7 {
        -1
    } else if d == 1 || d == 5 {
        0
    } else {
        1
    }
}

/// Column step of direction `d`.
pub open spec fn col_delta(d: int) -> int {
    if d == 0 || d == 1 || d == 2 {
        1
    } else if d == 3 || d == 7 {
        0
    } else {
        -1
    }
}

/// The direction that points back: `(d + 4) % 8`.
pub open spec fn opposite(d: int) -> int {
    if d < 4 {
        d + 4
    } else {
        d - 4
    }
}

/// Whether direction `d` takes part under `conn`: all eight, or the
/// cardinal ones (E, S, W, N).
pub open spec fn participates(conn: Connectivity, d: int) -> bool {
    0 <= d < 8 && (conn == Connectivity::Eight || d % 2 == 1)
}

/// The cell one step from `(r, c)` in direction `d`, if it lies in the grid.
pub open spec fn step(rows: int, columns: int, r: int, c: int, d: int) -> Option<(int, int)> {
    let nr = r + row_delta(d);
    let nc = c + col_delta(d);
    if 0 <= nr < rows && 0 <= nc < columns {
        Some((nr, nc))
    } else {
        None
    }
}

/// Two cells are neighbours under `conn` when one participating step leads
/// from the first to the second.
pub open spec fn adjacent(conn: Connectivity, r1: int, c1: int, r2: int, c2: int) -> bool {
    exists|d: int|
        participates(conn, d) && r2 == r1 + row_delta(d) && c2 == c1 + col_delta(d)
}

/// Distinct directions lead to distinct cells.
pub proof fn lemma_directions_distinct(d1: int, d2: int)
    requires
        0 <= d1 < 8,
        0 <= d2 < 8,
        d1 != d2,
    ensures
        row_delta(d1) != row_delta(d2) || col_delta(d1) != col_delta(d2),
{
}

/// Stepping in the opposite direction leads back.
pub proof fn lemma_opposite(d: int)
    requires
        0 <= d < 8,
    ensures
        0 <= opposite(d) < 8,
        row_delta(opposite(d)) == -row_delta(d),
        col_delta(opposite(d)) == -col_delta(d),
        opposite(opposite(d)) == d,
        participates(Connectivity::Four, opposite(d)) == participates(Connectivity::Four, d),
{
}

/// The cell one step from `(r, c)` in direction `d`, or `None` at the edge
/// of the grid.
pub fn neighbour(rows: usize, columns: usize, r: usize, c: usize, d: usize) -> (n: Option<
    (usize, usize),
>)
    requires
        r < rows,
        c < columns,
        d < NUM_DIRECTIONS,
    ensures
        n matches Some(p) ==> step(rows as int, columns as int, r as int, c as int, d as int)
            == Some((p.0 as int, p.1 as int)),
        n is None ==> step(rows as int, columns as int, r as int, c as int, d as int) is None,
{
    let nr: usize;
    if d == 0 || d == 6 || d == 7 {
        if r == 0 {
            return None;
        }
        nr = r - 1;
    } else if d == 1 || d == 5 {
        nr = r;
    } else {
        if r + 1 >= rows {
            return None;
        }
        nr = r + 1;
    }
    let nc: usize;
    if d == 0 || d == 1 || d == 2 {
        if c + 1 >= columns {
            return None;
        }
        nc = c + 1;
    } else if d == 3 || d == 7 {
        nc = c;
    } else {
        if c == 0 {
            return None;
        }
        nc = c - 1;
    }
    Some((nr, nc))
}

/// Whether direction `d` takes part under `conn`.
pub fn uses_direction(conn: Connectivity, d: usize) -> (b: bool)
    requires
        d < NUM_DIRECTIONS,
    ensures
        b == participates(conn, d as int),
{
    match conn {
        Connectivity::Eight => true,
        Connectivity::Four => d % 2 == 1,
    }
}

/// The pointer code with bit `k` set, `2^k`.
pub open spec fn bit_code(k: int) -> int {
    if k == 0 {
        1
    } else if k == 1 {
        2
    } else if k == 2 {
        4
    } else if k == 3 {
        8
    } else if k == 4 {
        16
    } else if k == 5 {
        32
    } else if k == 6 {
        64
    } else {
        128
    }
}

/// The direction that `code` names under `scheme`; `None` for every code
/// that is not one of the eight single-bit codes (pits, outlets, no
/// direction).
pub open spec fn code_direction(scheme: PointerScheme, code: int) -> Option<int> {
    if exists|k: int| 0 <= k < 8 && bit_code(k) == code {
        let k = choose|k: int| 0 <= k < 8 && bit_code(k) == code;
        match scheme {
            PointerScheme::Native => Some(k),
            PointerScheme::Alternate => Some(if k == 7 {
                0
            } else {
                k + 1
            }),
        }
    } else {
        None
    }
}

/// Size of a pointer lookup table: slots for every code from 0 to 128.
pub const TABLE_SIZE: usize = 129;

/// A lookup table from pointer codes `0..=128` to directions, built once
/// per run for one scheme.
pub struct PointerTable {
    scheme: PointerScheme,
    slots: Vec<Option<u8>>,
}

impl PointerTable {
    pub closed spec fn scheme(&self) -> PointerScheme {
        self.scheme
    }

    pub closed spec fn wf(&self) -> bool {
        &&& self.slots@.len() == TABLE_SIZE
        &&& forall|i: int|
            0 <= i < TABLE_SIZE ==> match #[trigger] self.slots@[i] {
                Some(d) => code_direction(self.scheme, i) == Some(d as int),
                None => code_direction(self.scheme, i) is None,
            }
    }

    /// The table for `scheme`: every single-bit code maps to its direction,
    /// every other slot to `None`.
    pub fn new(scheme: PointerScheme) -> (t: PointerTable)
        ensures
            t.wf(),
            t.scheme() == scheme,
    {
        let mut slots: Vec<Option<u8>> = Vec::new();
        let mut i: usize = 0;
        while i < TABLE_SIZE
            invariant
                i <= TABLE_SIZE,
                slots@.len() == i,
                forall|j: int| 0 <= j < i ==> #[trigger] slots@[j] is None,
            decreases TABLE_SIZE - i,
        {
            slots.push(None);
            i = i + 1;
        }
        let mut k: usize = 0;
        let mut code: usize = 1;
        while k < NUM_DIRECTIONS
            invariant
                k <= NUM_DIRECTIONS,
                code as int == if k < 8 {
                    bit_code(k as int)
                } else {
                    256
                },
                slots@.len() == TABLE_SIZE,
                forall|j: int|
                    0 <= j < TABLE_SIZE ==> match #[trigger] slots@[j] {
                        Some(d) => exists|m: int|
                            0 <= m < k && bit_code(m) == j && d as int == (match scheme {
                                PointerScheme::Native => m,
                                PointerScheme::Alternate => if m == 7 {
                                    0
                                } else {
                                    m + 1
                                },
                            }),
                        None => forall|m: int| 0 <= m < k ==> bit_code(m) != j,
                    },
            decreases NUM_DIRECTIONS - k,
        {
            let d: u8 = match scheme {
                PointerScheme::Native => k as u8,
                PointerScheme::Alternate => if k == 7 {
                    0
                } else {
                    (k + 1) as u8
                },
            };
            slots.set(code, Some(d));
            k = k + 1;
            code = code * 2;
        }
        assert forall|j: int| 0 <= j < TABLE_SIZE implies match #[trigger] slots@[j] {
            Some(d) => code_direction(scheme, j) == Some(d as int),
            None => code_direction(scheme, j) is None,
        } by {
            if let Some(d) = slots@[j] {
                let m = choose|m: int| 0 <= m < 8 && bit_code(m) == j;
                let k2 = choose|k2: int| 0 <= k2 < 8 && bit_code(k2) == j;
                assert(m == k2);
            }
        }
        PointerTable { scheme, slots }
    }

    /// The direction that `code` names, or `None` for a code that names
    /// none. Codes outside the table are answered, not refused.
    pub fn direction(&self, code: i64) -> (d: Option<usize>)
        requires
            self.wf(),
        ensures
            d matches Some(x) ==> code_direction(self.scheme(), code as int) == Some(x as int),
            d is None ==> code_direction(self.scheme(), code as int) is None,
    {
        if code < 0 || code >= TABLE_SIZE as i64 {
            assert(forall|k: int| 0 <= k < 8 ==> bit_code(k) != code);
            return None;
        }
        match self.slots[code as usize] {
            Some(x) => Some(x as usize),
            None => None,
        }
    }
}

/// The direction that bit `k` names under `scheme`.
pub open spec fn bit_direction(scheme: PointerScheme, k: int) -> int {
    match scheme {
        PointerScheme::Native => k,
        PointerScheme::Alternate => if k == 7 {
            0
        } else {
            k + 1
        },
    }
}

/// The bit whose code names direction `d` under `scheme`.
pub open spec fn direction_bit(scheme: PointerScheme, d: int) -> int {
    match scheme {
        PointerScheme::Native => d,
        PointerScheme::Alternate => if d == 0 {
            7
        } else {
            d - 1
        },
    }
}

/// Under either scheme each of the eight single-bit codes names a
/// direction, no two of them name the same one, and every direction is
/// named by one of them.
pub proof fn lemma_pointer_bijection(scheme: PointerScheme)
    ensures
        forall|k: int|
            0 <= k < 8 ==> #[trigger] code_direction(scheme, bit_code(k)) == Some(
                bit_direction(scheme, k),
            ) && 0 <= bit_direction(scheme, k) < 8,
        forall|k1: int, k2: int|
            0 <= k1 < 8 && 0 <= k2 < 8 && k1 != k2 ==> #[trigger] bit_direction(scheme, k1)
                != #[trigger] bit_direction(scheme, k2),
        forall|d: int|
            0 <= d < 8 ==> 0 <= #[trigger] direction_bit(scheme, d) < 8 && bit_direction(
                scheme,
                direction_bit(scheme, d),
            ) == d,
{
    assert forall|k: int| 0 <= k < 8 implies #[trigger] code_direction(scheme, bit_code(k))
        == Some(bit_direction(scheme, k)) by {
        let m = choose|m: int| 0 <= m < 8 && bit_code(m) == bit_code(k);
        assert(m == k);
    }
}

} // verus!
