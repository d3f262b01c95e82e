use vstd::prelude::*;
use crate::addressing::{lemma_directions_distinct, lemma_opposite, neighbour, opposite, step, NUM_DIRECTIONS};
use crate::in_degree::{estimate_in_degree, higher_count, higher_neighbour, is_interior_pit};
use crate::surface::{flat, lemma_flat_bounds, lemma_flat_injective, Surface};

verus! {

/// The neighbour of `(r, c)` in direction `d` is higher and not yet resolved.
pub open spec fn pending_neighbour(s: Surface, done: Seq<bool>, r: int, c: int, d: int) -> bool {
    higher_neighbour(s, r, c, d) && match step(s.rows as int, s.columns as int, r, c, d) {
        Some(n) => !done[flat(s.columns as int, n.0, n.1)],
        None => false,
    }
}

/// Number of directions below `k` that lead to a higher, unresolved
/// neighbour.
pub open spec fn pending_count(s: Surface, done: Seq<bool>, r: int, c: int, k: int) -> nat
    decreases k,
{
    if k <= 0 {
        0
    } else {
        pending_count(s, done, r, c, k - 1) + if pending_neighbour(s, done, r, c, k - 1) {
            1nat
        } else {
            0nat
        }
    }
}

/// Some direction below `k` leads from `(mr, mc)` up to `(pr, pc)`.
pub open spec fn drains_from(s: Surface, mr: int, mc: int, pr: int, pc: int, k: int) -> bool {
    exists|e: int|
        0 <= e < k && step(s.rows as int, s.columns as int, mr, mc, e) == Some((pr, pc))
            && #[trigger] higher_neighbour(s, mr, mc, e)
}

/// Number of unresolved entries of `done` below `i`.
pub open spec fn unresolved(done: Seq<bool>, i: int) -> nat
    decreases i,
{
    if i <= 0 {
        0
    } else {
        unresolved(done, i - 1) + if done[i - 1] {
            0nat
        } else {
            1nat
        }
    }
}

proof fn lemma_unresolved_update(done: Seq<bool>, j: int, i: int)
    requires
        0 <= j < done.len(),
        !done[j],
        0 <= i <= done.len(),
    ensures
        unresolved(done.update(j, true), i) + (if j < i {
            1nat
        } else {
            0nat
        }) == unresolved(done, i),
    decreases i,
{
    if i > 0 {
        lemma_unresolved_update(done, j, i - 1);
    }
}

proof fn lemma_unresolved_positive(done: Seq<bool>, j: int, i: int)
    requires
        0 <= j < i <= done.len(),
        !done[j],
    ensures
        unresolved(done, i) > 0,
    decreases i,
{
    if j < i - 1 {
        lemma_unresolved_positive(done, j, i - 1);
    }
}

/// With nothing resolved, the pending count is the in-degree.
proof fn lemma_pending_initial(s: Surface, done: Seq<bool>, r: int, c: int, k: int)
    requires
        s.wf(),
        done.len() == s.cells@.len(),
        forall|i: int| 0 <= i < done.len() ==> !#[trigger] done[i],
        0 <= k <= 8,
    ensures
        pending_count(s, done, r, c, k) == higher_count(s, r, c, k),
    decreases k,
{
    if k > 0 {
        lemma_pending_initial(s, done, r, c, k - 1);
        if let Some(n) = step(s.rows as int, s.columns as int, r, c, k - 1) {
            lemma_flat_bounds(s.rows as int, s.columns as int, n.0, n.1);
        }
    }
}

/// A zero pending count means every higher neighbour is resolved.
proof fn lemma_pending_zero(s: Surface, done: Seq<bool>, r: int, c: int, k: int)
    requires
        pending_count(s, done, r, c, k) == 0,
        0 <= k,
    ensures
        forall|d: int|
            0 <= d < k && #[trigger] higher_neighbour(s, r, c, d) ==> match step(
                s.rows as int,
                s.columns as int,
                r,
                c,
                d,
            ) {
                Some(n) => done[flat(s.columns as int, n.0, n.1)],
                None => false,
            },
    decreases k,
{
    if k > 0 {
        lemma_pending_zero(s, done, r, c, k - 1);
    }
}

/// A positive pending count means some higher neighbour is unresolved.
proof fn lemma_pending_positive(s: Surface, done: Seq<bool>, r: int, c: int, k: int) -> (d: int)
    requires
        pending_count(s, done, r, c, k) > 0,
        0 <= k,
    ensures
        0 <= d < k,
        pending_neighbour(s, done, r, c, d),
    decreases k,
{
    if pending_neighbour(s, done, r, c, k - 1) {
        k - 1
    } else {
        lemma_pending_positive(s, done, r, c, k - 1)
    }
}

/// Resolving cell `p` lowers the pending count of each cell that it
/// drains into by one, and leaves every other count alone.
proof fn lemma_pending_update(
    s: Surface,
    done: Seq<bool>,
    pr: int,
    pc: int,
    mr: int,
    mc: int,
    k: int,
)
    requires
        s.wf(),
        done.len() == s.cells@.len(),
        s.in_grid(pr, pc),
        s.in_grid(mr, mc),
        !done[flat(s.columns as int, pr, pc)],
        0 <= k <= 8,
    ensures
        pending_count(s, done.update(flat(s.columns as int, pr, pc), true), mr, mc, k) + (if drains_from(s, mr, mc, pr, pc, k) {
            1nat
        } else {
            0nat
        }) == pending_count(s, done, mr, mc, k),
    decreases k,
{
    let done2 = done.update(flat(s.columns as int, pr, pc), true);
    lemma_flat_bounds(s.rows as int, s.columns as int, pr, pc);
    if k > 0 {
        lemma_pending_update(s, done, pr, pc, mr, mc, k - 1);
        let e = k - 1;
        match step(s.rows as int, s.columns as int, mr, mc, e) {
            Some(q) => {
                lemma_flat_bounds(s.rows as int, s.columns as int, q.0, q.1);
                if q == (pr, pc) {
                    if higher_neighbour(s, mr, mc, e) {
                        assert(drains_from(s, mr, mc, pr, pc, k));
                    }
                    assert(!drains_from(s, mr, mc, pr, pc, k - 1)) by {
                        if drains_from(s, mr, mc, pr, pc, k - 1) {
                            let e2 = choose|e2: int|
                                0 <= e2 < k - 1 && step(s.rows as int, s.columns as int, mr, mc, e2)
                                    == Some((pr, pc)) && #[trigger] higher_neighbour(s, mr, mc, e2);
                            lemma_directions_distinct(e, e2);
                        }
                    }
                    if !higher_neighbour(s, mr, mc, e) {
                        assert(drains_from(s, mr, mc, pr, pc, k) == drains_from(s, mr, mc, pr, pc, k - 1));
                    }
                } else {
                    lemma_flat_injective(s.rows as int, s.columns as int, q.0, q.1, pr, pc);
                    assert(done2[flat(s.columns as int, q.0, q.1)] == done[flat(s.columns as int, q.0, q.1)]);
                    assert(drains_from(s, mr, mc, pr, pc, k) == drains_from(s, mr, mc, pr, pc, k - 1)) by {
                        if drains_from(s, mr, mc, pr, pc, k) {
                            let e2 = choose|e2: int|
                                0 <= e2 < k && step(s.rows as int, s.columns as int, mr, mc, e2)
                                    == Some((pr, pc)) && #[trigger] higher_neighbour(s, mr, mc, e2);
                            assert(e2 < k - 1);
                        }
                    }
                }
            },
            None => {
                assert(drains_from(s, mr, mc, pr, pc, k) == drains_from(s, mr, mc, pr, pc, k - 1)) by {
                    if drains_from(s, mr, mc, pr, pc, k) {
                        let e2 = choose|e2: int|
                            0 <= e2 < k && step(s.rows as int, s.columns as int, mr, mc, e2)
                                == Some((pr, pc)) && #[trigger] higher_neighbour(s, mr, mc, e2);
                        assert(e2 < k - 1);
                    }
                }
            },
        }
    }
}

/// Every cell that holds data and is unresolved, while its pending count
/// is positive, has a strictly higher unresolved neighbour; since values
/// are bounded above this cannot go on, so no such cell lies at or above `t`.
proof fn lemma_no_cell_above(s: Surface, done: Seq<bool>, t: int)
    requires
        s.wf(),
        done.len() == s.cells@.len(),
        i64::MIN <= t <= i64::MAX + 1,
        forall|r: int, c: int|
            s.valid(r, c) && !done[flat(s.columns as int, r, c)] ==> #[trigger] pending_count(
                s,
                done,
                r,
                c,
                8,
            ) > 0,
    ensures
        forall|r: int, c: int|
            s.valid(r, c) && !done[flat(s.columns as int, r, c)] ==> (#[trigger] s.at(r, c)).unwrap()
                < t,
    decreases i64::MAX + 1 - t,
{
    if t <= i64::MAX {
        lemma_no_cell_above(s, done, t + 1);
        assert forall|r: int, c: int|
            s.valid(r, c) && !done[flat(s.columns as int, r, c)] implies (#[trigger] s.at(
            r,
            c,
        )).unwrap() < t by {
            if s.at(r, c).unwrap() >= t {
                let d = lemma_pending_positive(s, done, r, c, 8);
                let n = step(s.rows as int, s.columns as int, r, c, d).unwrap();
                assert(s.valid(n.0, n.1) && !done[flat(s.columns as int, n.0, n.1)]);
                assert(s.at(n.0, n.1).unwrap() < t + 1);
            }
        }
    }
}

/// The order in which the cells of a surface are resolved, each after every
/// neighbour that drains into it, and whether the surface has an interior
/// pit.
pub struct Schedule {
    pub order: Vec<(usize, usize)>,
    pub interior_pit: bool,
}

/// Resolves the cells of an elevation surface in dependency order: a cell
/// enters the frontier once all its strictly higher neighbours are
/// resolved, and the frontier is worked as a stack until it is empty.
///
/// Every cell with data is resolved exactly once; cells without data are
/// never resolved.
pub fn propagation_order(s: &Surface) -> (sch: Schedule)
    requires
        s.wf(),
    ensures
        forall|i: int|
            0 <= i < sch.order@.len() ==> s.valid(
                (#[trigger] sch.order@[i]).0 as int,
                sch.order@[i].1 as int,
            ),
        forall|i: int, j: int|
            0 <= i < j < sch.order@.len() ==> #[trigger] sch.order@[i] != #[trigger] sch.order@[j],
        forall|r: int, c: int|
            #[trigger] s.valid(r, c) ==> exists|i: int|
                0 <= i < sch.order@.len() && sch.order@[i] == (r as usize, c as usize),
        forall|i: int, d: int|
            0 <= i < sch.order@.len() && 0 <= d < 8 && #[trigger] higher_neighbour(
                *s,
                sch.order@[i].0 as int,
                sch.order@[i].1 as int,
                d,
            ) ==> exists|j: int|
                0 <= j < i && step(
                    s.rows as int,
                    s.columns as int,
                    sch.order@[i].0 as int,
                    sch.order@[i].1 as int,
                    d,
                ) == Some((sch.order@[j].0 as int, sch.order@[j].1 as int)),
        sch.interior_pit <==> exists|r: int, c: int|
            s.in_grid(r, c) && #[trigger] is_interior_pit(*s, r, c),
{
    let indeg = estimate_in_degree(s);
    let n = s.cells.len();
    let cols = s.columns;
    let mut done: Vec<bool> = Vec::new();
    let mut pending: Vec<u8> = Vec::new();
    let mut i: usize = 0;
    while i < n
        invariant
            n == s.cells@.len(),
            indeg.counts@.len() == n,
            i <= n,
            done@.len() == i,
            pending@.len() == i,
            forall|j: int| 0 <= j < i ==> !#[trigger] done@[j],
            forall|j: int|
                0 <= j < i ==> match indeg.counts@[j] {
                    Some(k) => #[trigger] pending@[j] == k,
                    None => pending@[j] == 0,
                },
        decreases n - i,
    {
        done.push(false);
        match indeg.counts[i] {
            Some(k) => pending.push(k),
            None => pending.push(0),
        }
        i = i + 1;
    }
    proof {
        assert forall|r: int, c: int|
            s.valid(r, c) && !done@[flat(cols as int, r, c)] implies pending@[flat(cols as int, r, c)]
            as nat == #[trigger] pending_count(*s, done@, r, c, 8) by {
            lemma_pending_initial(*s, done@, r, c, 8);
            lemma_flat_bounds(s.rows as int, cols as int, r, c);
            crate::in_degree::lemma_higher_count_bound(*s, r, c, 8);
        }
    }
    // Seed the frontier with every cell of in-degree zero.
    let mut stack: Vec<(usize, usize)> = Vec::new();
    let mut r: usize = 0;
    while r < s.rows
        invariant
            s.wf(),
            n == s.cells@.len(),
            cols == s.columns,
            done@.len() == n,
            pending@.len() == n,
            forall|j: int| 0 <= j < n ==> !#[trigger] done@[j],
            r <= s.rows,
            stack@.no_duplicates(),
            forall|k: int|
                0 <= k < stack@.len() ==> {
                    let m = #[trigger] stack@[k];
                    &&& s.valid(m.0 as int, m.1 as int)
                    &&& m.0 < r
                    &&& pending@[flat(cols as int, m.0 as int, m.1 as int)] == 0
                },
            forall|a: int, c: int|
                s.valid(a, c) && a < r && pending@[flat(cols as int, a, c)] == 0 ==> stack@.contains(
                    (a as usize, c as usize),
                ),
        decreases s.rows - r,
    {
        let mut c: usize = 0;
        while c < cols
            invariant
                s.wf(),
                n == s.cells@.len(),
                cols == s.columns,
                pending@.len() == n,
                r < s.rows,
                c <= cols,
                stack@.no_duplicates(),
                forall|k: int|
                    0 <= k < stack@.len() ==> {
                        let m = #[trigger] stack@[k];
                        &&& s.valid(m.0 as int, m.1 as int)
                        &&& (m.0 < r || (m.0 == r && m.1 < c))
                        &&& pending@[flat(cols as int, m.0 as int, m.1 as int)] == 0
                    },
                forall|a: int, b: int|
                    s.valid(a, b) && (a < r || (a == r && b < c)) && pending@[flat(
                        cols as int,
                        a,
                        b,
                    )] == 0 ==> stack@.contains((a as usize, b as usize)),
            decreases cols - c,
        {
            let f = s.index(r, c);
            if s.cells[f].is_some() && pending[f] == 0 {
                proof {
                    assert(!stack@.contains((r, c)));
                }
                let ghost before = stack@;
                stack.push((r, c));
                proof {
                    assert(stack@[stack@.len() - 1] == (r, c));
                    assert forall|a: int, b: int|
                        s.valid(a, b) && (a < r || (a == r && b < c + 1)) && pending@[flat(
                            cols as int,
                            a,
                            b,
                        )] == 0 implies stack@.contains((a as usize, b as usize)) by {
                        if (a, b) != (r as int, c as int) {
                            let k = choose|k: int| 0 <= k < before.len() && before[k] == (a as usize, b as usize);
                            assert(stack@[k] == (a as usize, b as usize));
                        }
                    }
                }
            }
            c = c + 1;
        }
        r = r + 1;
    }
    let mut order: Vec<(usize, usize)> = Vec::new();
    let ghost mut pos: Seq<int> = Seq::new(n as nat, |j: int| 0);
    proof {
        assert forall|a: int, b: int|
            s.in_grid(a, b) && #[trigger] done@[flat(cols as int, a, b)] implies false by {
            lemma_flat_bounds(s.rows as int, cols as int, a, b);
        }
    }
    while stack.len() > 0
        invariant
            s.wf(),
            n == s.cells@.len(),
            cols == s.columns,
            done@.len() == n,
            pending@.len() == n,
            pos.len() == n,
            forall|i: int|
                0 <= i < order@.len() ==> {
                    let m = #[trigger] order@[i];
                    &&& s.valid(m.0 as int, m.1 as int)
                    &&& done@[flat(cols as int, m.0 as int, m.1 as int)]
                    &&& pos[flat(cols as int, m.0 as int, m.1 as int)] == i
                },
            forall|a: int, b: int|
                s.in_grid(a, b) && #[trigger] done@[flat(cols as int, a, b)] ==> {
                    let j = pos[flat(cols as int, a, b)];
                    &&& 0 <= j < order@.len()
                    &&& order@[j] == (a as usize, b as usize)
                },
            forall|i: int, d: int|
                0 <= i < order@.len() && 0 <= d < 8 && #[trigger] higher_neighbour(
                    *s,
                    order@[i].0 as int,
                    order@[i].1 as int,
                    d,
                ) ==> {
                    let q = step(
                        s.rows as int,
                        s.columns as int,
                        order@[i].0 as int,
                        order@[i].1 as int,
                        d,
                    ).unwrap();
                    &&& done@[flat(cols as int, q.0, q.1)]
                    &&& pos[flat(cols as int, q.0, q.1)] < i
                },
            forall|a: int, b: int|
                s.valid(a, b) && !done@[flat(cols as int, a, b)] ==> pending@[flat(
                    cols as int,
                    a,
                    b,
                )] as nat == #[trigger] pending_count(*s, done@, a, b, 8),
            stack@.no_duplicates(),
            forall|k: int|
                0 <= k < stack@.len() ==> {
                    let m = #[trigger] stack@[k];
                    &&& s.valid(m.0 as int, m.1 as int)
                    &&& !done@[flat(cols as int, m.0 as int, m.1 as int)]
                    &&& pending@[flat(cols as int, m.0 as int, m.1 as int)] == 0
                },
            forall|a: int, b: int|
                s.valid(a, b) && !done@[flat(cols as int, a, b)] && pending@[flat(
                    cols as int,
                    a,
                    b,
                )] == 0 ==> stack@.contains((a as usize, b as usize)),
        decreases unresolved(done@, n as int),
    {
        proof {
            let m = stack@[stack@.len() - 1];
            lemma_flat_bounds(s.rows as int, cols as int, m.0 as int, m.1 as int);
            lemma_unresolved_positive(done@, flat(cols as int, m.0 as int, m.1 as int), n as int);
        }
        let ghost stack0 = stack@;
        let p = stack.pop().unwrap();
        let (pr, pc) = p;
        let fp = s.index(pr, pc);
        let z = s.cells[fp].unwrap();
        let ghost done0 = done@;
        let ghost order0 = order@;
        let ghost pos0 = pos;
        proof {
            assert forall|a: int, b: int, e: int|
                s.valid(a, b) && done0[flat(cols as int, a, b)] && 0 <= e < 8
                    && #[trigger] higher_neighbour(*s, a, b, e) implies {
                    let q = step(s.rows as int, s.columns as int, a, b, e).unwrap();
                    done0[flat(cols as int, q.0, q.1)]
                } by {
                let j = pos[flat(cols as int, a, b)];
                assert(order@[j] == (a as usize, b as usize));
                assert(higher_neighbour(*s, order@[j].0 as int, order@[j].1 as int, e));
            }
            assert(stack@.len() + 1 == stack0.len());
            assert(stack0[stack0.len() - 1] == p);
            lemma_unresolved_update(done0, fp as int, n as int);
            lemma_pending_zero(*s, done0, pr as int, pc as int, 8);
            pos = pos.update(fp as int, order@.len() as int);
        }
        done.set(fp, true);
        order.push(p);
        proof {
            assert forall|i: int|
                0 <= i < order@.len() implies {
                let m = #[trigger] order@[i];
                &&& s.valid(m.0 as int, m.1 as int)
                &&& done@[flat(cols as int, m.0 as int, m.1 as int)]
                &&& pos[flat(cols as int, m.0 as int, m.1 as int)] == i
            } by {
                let m = order@[i];
                lemma_flat_bounds(s.rows as int, cols as int, m.0 as int, m.1 as int);
                if i < order@.len() - 1 {
                    assert(order0[i] == m);
                    assert(done0[flat(cols as int, m.0 as int, m.1 as int)]);
                    assert(flat(cols as int, m.0 as int, m.1 as int) != fp);
                } else {
                    assert(m == p);
                }
            }
            assert forall|a: int, b: int|
                s.in_grid(a, b) && #[trigger] done@[flat(cols as int, a, b)] implies {
                let j = pos[flat(cols as int, a, b)];
                &&& 0 <= j < order@.len()
                &&& order@[j] == (a as usize, b as usize)
            } by {
                if (a, b) != (pr as int, pc as int) {
                    lemma_flat_injective(s.rows as int, cols as int, a, b, pr as int, pc as int);
                    lemma_flat_bounds(s.rows as int, cols as int, a, b);
                    assert(done0[flat(cols as int, a, b)]);
                    let j = pos0[flat(cols as int, a, b)];
                    assert(order0[j] == (a as usize, b as usize));
                }
            }
            assert forall|i: int, d: int|
                0 <= i < order@.len() && 0 <= d < 8 && #[trigger] higher_neighbour(
                    *s,
                    order@[i].0 as int,
                    order@[i].1 as int,
                    d,
                ) implies {
                let q = step(
                    s.rows as int,
                    s.columns as int,
                    order@[i].0 as int,
                    order@[i].1 as int,
                    d,
                ).unwrap();
                &&& done@[flat(cols as int, q.0, q.1)]
                &&& pos[flat(cols as int, q.0, q.1)] < i
            } by {
                let q = step(
                    s.rows as int,
                    s.columns as int,
                    order@[i].0 as int,
                    order@[i].1 as int,
                    d,
                ).unwrap();
                lemma_flat_bounds(s.rows as int, cols as int, q.0, q.1);
                if i == order@.len() - 1 {
                    assert(done0[flat(cols as int, q.0, q.1)]);
                    lemma_flat_injective(s.rows as int, cols as int, q.0, q.1, pr as int, pc as int);
                } else {
                    lemma_flat_injective(s.rows as int, cols as int, q.0, q.1, pr as int, pc as int);
                }
            }
        }
        // Hand the cell's flow to each lower neighbour.
        proof {
            assert forall|a: int, b: int|
                s.valid(a, b) && !done@[flat(cols as int, a, b)] implies pending@[flat(
                    cols as int,
                    a,
                    b,
                )] as nat == #[trigger] pending_count(*s, done@, a, b, 8) + if lower_pending(
                    *s,
                    pr as int,
                    pc as int,
                    a,
                    b,
                    0,
                ) {
                    1nat
                } else {
                    0nat
                } by {
                lemma_flat_bounds(s.rows as int, cols as int, a, b);
                if (a, b) != (pr as int, pc as int) {
                    lemma_flat_injective(s.rows as int, cols as int, a, b, pr as int, pc as int);
                }
                lemma_pending_update(*s, done0, pr as int, pc as int, a, b, 8);
                lemma_drains_lower(*s, pr as int, pc as int, a, b);
            }
            assert forall|k: int| 0 <= k < stack@.len() implies {
                let m = #[trigger] stack@[k];
                &&& s.valid(m.0 as int, m.1 as int)
                &&& !done@[flat(cols as int, m.0 as int, m.1 as int)]
                &&& pending@[flat(cols as int, m.0 as int, m.1 as int)] == 0
            } by {
                let m = stack@[k];
                assert(stack0[k] == m);
                assert(m != p);
                lemma_flat_injective(s.rows as int, cols as int, m.0 as int, m.1 as int, pr as int, pc as int);
            }
            assert forall|a: int, b: int|
                s.valid(a, b) && !done@[flat(cols as int, a, b)] && pending@[flat(
                    cols as int,
                    a,
                    b,
                )] == 0 implies stack@.contains((a as usize, b as usize)) by {
                if (a, b) != (pr as int, pc as int) {
                    lemma_flat_injective(s.rows as int, cols as int, a, b, pr as int, pc as int);
                }
                lemma_flat_bounds(s.rows as int, cols as int, a, b);
                assert(stack0.contains((a as usize, b as usize)));
                let k = choose|k: int| 0 <= k < stack0.len() && stack0[k] == (a as usize, b as usize);
                assert(k < stack@.len());
                assert(stack@[k] == (a as usize, b as usize));
            }
        }
        release_lower(s, &done, &mut pending, &mut stack, pr, pc, z, Ghost(done0));
    }
    proof {
        assert forall|a: int, b: int|
            s.valid(a, b) && !done@[flat(cols as int, a, b)] implies #[trigger] pending_count(
            *s,
            done@,
            a,
            b,
            8,
        ) > 0 by {
            if pending@[flat(cols as int, a, b)] == 0 {
                assert(stack@.contains((a as usize, b as usize)));
            }
        }
        lemma_no_cell_above(*s, done@, i64::MIN as int);
        assert forall|a: int, b: int| #[trigger] s.valid(a, b) implies exists|i: int|
            0 <= i < order@.len() && order@[i] == (a as usize, b as usize) by {
            lemma_flat_bounds(s.rows as int, cols as int, a, b);
            assert(s.at(a, b).unwrap() >= i64::MIN);
            assert(done@[flat(cols as int, a, b)]);
            let j = pos[flat(cols as int, a, b)];
            assert(order@[j] == (a as usize, b as usize));
        }
        assert forall|i: int, j: int|
            0 <= i < j < order@.len() implies #[trigger] order@[i] != #[trigger] order@[j] by {
            let m = order@[i];
            let m2 = order@[j];
            assert(pos[flat(cols as int, m.0 as int, m.1 as int)] == i);
            assert(pos[flat(cols as int, m2.0 as int, m2.1 as int)] == j);
        }
        assert forall|i: int, d: int|
            0 <= i < order@.len() && 0 <= d < 8 && #[trigger] higher_neighbour(
                *s,
                order@[i].0 as int,
                order@[i].1 as int,
                d,
            ) implies exists|j: int|
                0 <= j < i && step(
                    s.rows as int,
                    s.columns as int,
                    order@[i].0 as int,
                    order@[i].1 as int,
                    d,
                ) == Some((order@[j].0 as int, order@[j].1 as int)) by {
            let q = step(
                s.rows as int,
                s.columns as int,
                order@[i].0 as int,
                order@[i].1 as int,
                d,
            ).unwrap();
            let j = pos[flat(cols as int, q.0, q.1)];
            assert(order@[j] == (q.0 as usize, q.1 as usize));
        }
    }
    let ghost resolved = order@;
    let sch = Schedule { order, interior_pit: indeg.interior_pit };
    assert forall|r: int, c: int| #[trigger] s.valid(r, c) implies exists|i: int|
        0 <= i < sch.order@.len() && sch.order@[i] == (r as usize, c as usize) by {
        let i = choose|i: int| 0 <= i < resolved.len() && resolved[i] == (r as usize, c as usize);
        assert(sch.order@[i] == (r as usize, c as usize));
    }
    sch
}

/// `(a, b)` holds data, lies strictly lower than `(pr, pc)`, and is reached
/// from it by a direction at or after `d`.
pub open spec fn lower_pending(s: Surface, pr: int, pc: int, a: int, b: int, d: int) -> bool {
    exists|e: int|
        d <= e < 8 && #[trigger] step(s.rows as int, s.columns as int, pr, pc, e) == Some((a, b))
            && match (s.at(a, b), s.at(pr, pc)) {
            (Some(za), Some(zp)) => za < zp,
            _ => false,
        }
}

/// `(a, b)` drains up into `(pr, pc)` exactly when `(a, b)` is a lower
/// neighbour of `(pr, pc)`.
proof fn lemma_drains_lower(s: Surface, pr: int, pc: int, a: int, b: int)
    requires
        s.in_grid(pr, pc),
        s.in_grid(a, b),
    ensures
        drains_from(s, a, b, pr, pc, 8) == lower_pending(s, pr, pc, a, b, 0),
{
    if drains_from(s, a, b, pr, pc, 8) {
        let e = choose|e: int|
            0 <= e < 8 && step(s.rows as int, s.columns as int, a, b, e) == Some((pr, pc))
                && #[trigger] higher_neighbour(s, a, b, e);
        lemma_opposite(e);
        assert(step(s.rows as int, s.columns as int, pr, pc, opposite(e)) == Some((a, b)));
    }
    if lower_pending(s, pr, pc, a, b, 0) {
        let e = choose|e: int|
            0 <= e < 8 && #[trigger] step(s.rows as int, s.columns as int, pr, pc, e) == Some((a, b))
                && match (s.at(a, b), s.at(pr, pc)) {
                (Some(za), Some(zp)) => za < zp,
                _ => false,
            };
        lemma_opposite(e);
        assert(step(s.rows as int, s.columns as int, a, b, opposite(e)) == Some((pr, pc)));
        assert(higher_neighbour(s, a, b, opposite(e)));
    }
}

/// Retires the resolved cell `(pr, pc)` from the pending count of each
/// lower neighbour, and pushes those whose count reaches zero.
fn release_lower(
    s: &Surface,
    done: &Vec<bool>,
    pending: &mut Vec<u8>,
    stack: &mut Vec<(usize, usize)>,
    pr: usize,
    pc: usize,
    z: i64,
    Ghost(done0): Ghost<Seq<bool>>,
)
    requires
        s.wf(),
        done@.len() == s.cells@.len(),
        old(pending)@.len() == s.cells@.len(),
        s.in_grid(pr as int, pc as int),
        s.at(pr as int, pc as int) == Some(z),
        done@ == done0.update(flat(s.columns as int, pr as int, pc as int), true),
        !done0[flat(s.columns as int, pr as int, pc as int)],
        done0.len() == s.cells@.len(),
        forall|a: int, b: int|
            s.valid(a, b) && !done@[flat(s.columns as int, a, b)] ==> old(pending)@[flat(
                s.columns as int,
                a,
                b,
            )] as nat == #[trigger] pending_count(*s, done@, a, b, 8) + if lower_pending(
                *s,
                pr as int,
                pc as int,
                a,
                b,
                0,
            ) {
                1nat
            } else {
                0nat
            },
        forall|a: int, b: int, e: int|
            s.valid(a, b) && done0[flat(s.columns as int, a, b)] && 0 <= e < 8
                && #[trigger] higher_neighbour(*s, a, b, e) ==> {
                let q = step(s.rows as int, s.columns as int, a, b, e).unwrap();
                done0[flat(s.columns as int, q.0, q.1)]
            },
        old(stack)@.no_duplicates(),
        forall|k: int|
            0 <= k < old(stack)@.len() ==> {
                let m = #[trigger] old(stack)@[k];
                &&& s.valid(m.0 as int, m.1 as int)
                &&& !done@[flat(s.columns as int, m.0 as int, m.1 as int)]
                &&& old(pending)@[flat(s.columns as int, m.0 as int, m.1 as int)] == 0
            },
        forall|a: int, b: int|
            s.valid(a, b) && !done@[flat(s.columns as int, a, b)] && old(pending)@[flat(
                s.columns as int,
                a,
                b,
            )] == 0 ==> old(stack)@.contains((a as usize, b as usize)),
    ensures
        final(pending)@.len() == s.cells@.len(),
        forall|a: int, b: int|
            s.valid(a, b) && !done@[flat(s.columns as int, a, b)] ==> final(pending)@[flat(
                s.columns as int,
                a,
                b,
            )] as nat == #[trigger] pending_count(*s, done@, a, b, 8),
        final(stack)@.no_duplicates(),
        forall|k: int|
            0 <= k < final(stack)@.len() ==> {
                let m = #[trigger] final(stack)@[k];
                &&& s.valid(m.0 as int, m.1 as int)
                &&& !done@[flat(s.columns as int, m.0 as int, m.1 as int)]
                &&& final(pending)@[flat(s.columns as int, m.0 as int, m.1 as int)] == 0
            },
        forall|a: int, b: int|
            s.valid(a, b) && !done@[flat(s.columns as int, a, b)] && final(pending)@[flat(
                s.columns as int,
                a,
                b,
            )] == 0 ==> final(stack)@.contains((a as usize, b as usize)),
{
    let cols = s.columns;
    let ghost fp = flat(cols as int, pr as int, pc as int);
    proof {
        lemma_flat_bounds(s.rows as int, cols as int, pr as int, pc as int);
    }
    let mut d: usize = 0;
    while d < NUM_DIRECTIONS
        invariant
            s.wf(),
            cols == s.columns,
            done@.len() == s.cells@.len(),
            pending@.len() == s.cells@.len(),
            s.in_grid(pr as int, pc as int),
            fp == flat(cols as int, pr as int, pc as int),
            s.at(pr as int, pc as int) == Some(z),
            done@ == done0.update(fp, true),
            !done0[fp],
            done0.len() == s.cells@.len(),
            0 <= fp < done0.len(),
            d <= NUM_DIRECTIONS,
            forall|a: int, b: int|
                s.valid(a, b) && !done@[flat(cols as int, a, b)] ==> pending@[flat(
                    cols as int,
                    a,
                    b,
                )] as nat == #[trigger] pending_count(*s, done@, a, b, 8) + if lower_pending(
                    *s,
                    pr as int,
                    pc as int,
                    a,
                    b,
                    d as int,
                ) {
                    1nat
                } else {
                    0nat
                },
            forall|a: int, b: int, e: int|
                s.valid(a, b) && done0[flat(cols as int, a, b)] && 0 <= e < 8
                    && #[trigger] higher_neighbour(*s, a, b, e) ==> {
                    let q = step(s.rows as int, s.columns as int, a, b, e).unwrap();
                    done0[flat(cols as int, q.0, q.1)]
                },
            stack@.no_duplicates(),
            forall|k: int|
                0 <= k < stack@.len() ==> {
                    let m = #[trigger] stack@[k];
                    &&& s.valid(m.0 as int, m.1 as int)
                    &&& !done@[flat(cols as int, m.0 as int, m.1 as int)]
                    &&& pending@[flat(cols as int, m.0 as int, m.1 as int)] == 0
                },
            forall|a: int, b: int|
                s.valid(a, b) && !done@[flat(cols as int, a, b)] && pending@[flat(
                    cols as int,
                    a,
                    b,
                )] == 0 ==> stack@.contains((a as usize, b as usize)),
        decreases NUM_DIRECTIONS - d,
    {
        let mut lower: Option<(usize, usize)> = None;
        match neighbour(s.rows, cols, pr, pc, d) {
            Some((nr, nc)) => {
                match s.get(nr, nc) {
                    Some(zn) => {
                        if zn < z {
                            lower = Some((nr, nc));
                        }
                    },
                    None => {},
                }
            },
            None => {},
        }
        assert(lower matches Some(q) ==> step(s.rows as int, s.columns as int, pr as int, pc as int, d as int) == Some((q.0 as int, q.1 as int)) && s.in_grid(q.0 as int, q.1 as int));
        match lower {
            Some((nr, nc)) => {
                let fq = s.index(nr, nc);
                let ghost q = (nr as int, nc as int);
                proof {
                    lemma_opposite(d as int);
                    assert(step(s.rows as int, s.columns as int, nr as int, nc as int, opposite(d as int)) == Some((pr as int, pc as int)));
                    assert(higher_neighbour(*s, nr as int, nc as int, opposite(d as int)));
                    assert(s.at(nr as int, nc as int) matches Some(zn) && zn < z);
                    assert(!done0[flat(cols as int, nr as int, nc as int)]) by {
                        if done0[flat(cols as int, nr as int, nc as int)] {
                            assert(s.valid(nr as int, nc as int));
                            let q2 = step(s.rows as int, s.columns as int, nr as int, nc as int, opposite(d as int)).unwrap();
                            assert(q2 == (pr as int, pc as int));
                            assert(done0[flat(cols as int, q2.0, q2.1)]);
                        }
                    }
                    assert(q != (pr as int, pc as int));
                    lemma_flat_injective(s.rows as int, cols as int, nr as int, nc as int, pr as int, pc as int);
                    assert(fq as int != fp);
                    assert(done0.len() == done@.len());
                    assert(done@[fq as int] == done0[fq as int]);
                    assert(!done@[fq as int]);
                    assert(step(s.rows as int, s.columns as int, pr as int, pc as int, d as int) == Some((nr as int, nc as int)));
                    assert(lower_pending(*s, pr as int, pc as int, nr as int, nc as int, d as int));
                    assert(!lower_pending(*s, pr as int, pc as int, nr as int, nc as int, d + 1)) by {
                        if lower_pending(*s, pr as int, pc as int, nr as int, nc as int, d + 1) {
                            let e = choose|e: int|
                                d + 1 <= e < 8 && #[trigger] step(s.rows as int, s.columns as int, pr as int, pc as int, e) == Some((nr as int, nc as int))
                                    && match (s.at(nr as int, nc as int), s.at(pr as int, pc as int)) {
                                    (Some(za), Some(zp)) => za < zp,
                                    _ => false,
                                };
                            lemma_directions_distinct(d as int, e);
                        }
                    }
                    assert(s.valid(nr as int, nc as int));
                    assert(pending@[fq as int] as nat == pending_count(*s, done@, nr as int, nc as int, 8) + 1);
                    assert(stack@.contains((nr, nc)) ==> pending@[fq as int] == 0);
                }
                let k = pending[fq];
                let ghost pend0 = pending@;
                let ghost stack_before = stack@;
                pending.set(fq, k - 1);
                if k == 1 {
                    proof {
                        if stack@.contains((nr, nc)) {
                            let j = choose|j: int| 0 <= j < stack@.len() && stack@[j] == (nr, nc);
                            assert(pending@[fq as int] == 0);
                        }
                    }
                    let ghost before = stack@;
                    stack.push((nr, nc));
                    proof {
                        assert(stack@[stack@.len() - 1] == (nr, nc));
                        assert forall|m: (usize, usize)| before.contains(m) implies stack@.contains(m) by {
                            let j = choose|j: int| 0 <= j < before.len() && before[j] == m;
                            assert(stack@[j] == m);
                        }
                    }
                }
                proof {
                    assert forall|a: int, b: int|
                        s.valid(a, b) && !done@[flat(cols as int, a, b)] implies pending@[flat(
                            cols as int,
                            a,
                            b,
                        )] as nat == #[trigger] pending_count(*s, done@, a, b, 8) + if lower_pending(
                            *s,
                            pr as int,
                            pc as int,
                            a,
                            b,
                            d + 1,
                        ) {
                            1nat
                        } else {
                            0nat
                        } by {
                        lemma_flat_bounds(s.rows as int, cols as int, a, b);
                        if (a, b) != q {
                            lemma_flat_injective(s.rows as int, cols as int, a, b, nr as int, nc as int);
                            lemma_lower_pending_step(*s, pr as int, pc as int, a, b, d as int);
                            assert(pending@[flat(cols as int, a, b)] == pend0[flat(cols as int, a, b)]);
                        }
                    }
                    assert forall|k2: int| 0 <= k2 < stack@.len() implies {
                        let m = #[trigger] stack@[k2];
                        &&& s.valid(m.0 as int, m.1 as int)
                        &&& !done@[flat(cols as int, m.0 as int, m.1 as int)]
                        &&& pending@[flat(cols as int, m.0 as int, m.1 as int)] == 0
                    } by {
                        let m = stack@[k2];
                        lemma_flat_bounds(s.rows as int, cols as int, m.0 as int, m.1 as int);
                        if (m.0 as int, m.1 as int) != q {
                            lemma_flat_injective(s.rows as int, cols as int, m.0 as int, m.1 as int, nr as int, nc as int);
                            if k2 < stack_before.len() {
                                assert(stack_before[k2] == m);
                            }
                            assert(pending@[flat(cols as int, m.0 as int, m.1 as int)] == pend0[flat(cols as int, m.0 as int, m.1 as int)]);
                        } else if k2 < stack_before.len() {
                            assert(stack_before[k2] == m);
                            assert(pend0[fq as int] == 0);
                        }
                    }
                    assert forall|a: int, b: int|
                        s.valid(a, b) && !done@[flat(cols as int, a, b)] && pending@[flat(
                            cols as int,
                            a,
                            b,
                        )] == 0 implies stack@.contains((a as usize, b as usize)) by {
                        if (a, b) != q {
                            lemma_flat_injective(s.rows as int, cols as int, a, b, nr as int, nc as int);
                            lemma_flat_bounds(s.rows as int, cols as int, a, b);
                        }
                    }
                }
            },
            None => {
                proof {
                    assert forall|a: int, b: int|
                        s.valid(a, b) && !done@[flat(cols as int, a, b)] implies pending@[flat(
                            cols as int,
                            a,
                            b,
                        )] as nat == #[trigger] pending_count(*s, done@, a, b, 8) + if lower_pending(
                            *s,
                            pr as int,
                            pc as int,
                            a,
                            b,
                            d + 1,
                        ) {
                            1nat
                        } else {
                            0nat
                        } by {
                        lemma_lower_pending_step(*s, pr as int, pc as int, a, b, d as int);
                    }
                }
            },
        }
        d = d + 1;
    }
}

/// Passing direction `d` changes `lower_pending` only for the cell that `d`
/// leads to, and only where that cell is lower.
proof fn lemma_lower_pending_step(s: Surface, pr: int, pc: int, a: int, b: int, d: int)
    requires
        0 <= d < 8,
        step(s.rows as int, s.columns as int, pr, pc, d) != Some((a, b)) || !(match (s.at(a, b), s.at(pr, pc)) {
            (Some(za), Some(zp)) => za < zp,
            _ => false,
        }),
    ensures
        lower_pending(s, pr, pc, a, b, d + 1) == lower_pending(s, pr, pc, a, b, d),
{
    if lower_pending(s, pr, pc, a, b, d) {
        let e = choose|e: int|
            d <= e < 8 && #[trigger] step(s.rows as int, s.columns as int, pr, pc, e) == Some((a, b))
                && match (s.at(a, b), s.at(pr, pc)) {
                (Some(za), Some(zp)) => za < zp,
                _ => false,
            };
        assert(e != d);
    }
}

/// The neighbour of `(r, c)` in direction `d` holds data and lies strictly
/// lower: a cell that `(r, c)` hands flow to.
pub open spec fn lower_neighbour(s: Surface, r: int, c: int, d: int) -> bool {
    match step(s.rows as int, s.columns as int, r, c, d) {
        Some(n) => match (s.at(r, c), s.at(n.0, n.1)) {
            (Some(z), Some(zn)) => zn < z,
            _ => false,
        },
        None => false,
    }
}

/// The directions, in increasing order, in which `(r, c)` has a strictly
/// lower neighbour with data.
pub fn lower_neighbours(s: &Surface, r: usize, c: usize) -> (ds: Vec<usize>)
    requires
        s.wf(),
        s.in_grid(r as int, c as int),
    ensures
        forall|i: int| 0 <= i < ds@.len() ==> #[trigger] ds@[i] < NUM_DIRECTIONS,
        forall|i: int, j: int| 0 <= i < j < ds@.len() ==> #[trigger] ds@[i] < #[trigger] ds@[j],
        forall|d: int| 0 <= d < 8 ==> (ds@.contains(d as usize) <==> #[trigger] lower_neighbour(*s, r as int, c as int, d)),
{
    let mut ds: Vec<usize> = Vec::new();
    let here = s.get(r, c);
    let mut d: usize = 0;
    while d < NUM_DIRECTIONS
        invariant
            s.wf(),
            s.in_grid(r as int, c as int),
            here == s.at(r as int, c as int),
            d <= NUM_DIRECTIONS,
            forall|i: int| 0 <= i < ds@.len() ==> #[trigger] ds@[i] < d,
            forall|i: int, j: int| 0 <= i < j < ds@.len() ==> #[trigger] ds@[i] < #[trigger] ds@[j],
            forall|e: int| 0 <= e < d ==> (ds@.contains(e as usize) <==> #[trigger] lower_neighbour(*s, r as int, c as int, e)),
        decreases NUM_DIRECTIONS - d,
    {
        let mut lower = false;
        match (here, neighbour(s.rows, s.columns, r, c, d)) {
            (Some(z), Some((nr, nc))) => {
                match s.get(nr, nc) {
                    Some(zn) => {
                        lower = zn < z;
                    },
                    None => {},
                }
            },
            _ => {},
        }
        assert(lower == lower_neighbour(*s, r as int, c as int, d as int));
        let ghost before = ds@;
        if lower {
            ds.push(d);
        }
        proof {
            assert forall|e: int| 0 <= e < d + 1 implies (ds@.contains(e as usize) <==> #[trigger] lower_neighbour(
                *s,
                r as int,
                c as int,
                e,
            )) by {
                if e < d {
                    if ds@.contains(e as usize) {
                        let k = choose|k: int| 0 <= k < ds@.len() && ds@[k] == e as usize;
                        if lower && k == ds@.len() - 1 {
                        } else {
                            assert(before[k] == e as usize);
                        }
                    }
                    if before.contains(e as usize) {
                        let k = choose|k: int| 0 <= k < before.len() && before[k] == e as usize;
                        assert(ds@[k] == e as usize);
                    }
                } else {
                    if lower {
                        assert(ds@[ds@.len() - 1] == d);
                    } else if ds@.contains(e as usize) {
                        let k = choose|k: int| 0 <= k < ds@.len() && ds@[k] == e as usize;
                        assert(before[k] < d);
                    }
                }
            }
        }
        d = d + 1;
    }
    ds
}

} // verus!

