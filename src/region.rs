use vstd::prelude::*;
use crate::addressing::{
    adjacent, col_delta, neighbour, participates, row_delta, step, uses_direction, Connectivity,
    NUM_DIRECTIONS,
};
use crate::surface::{flat, lemma_flat_bounds, lemma_flat_injective, Surface};

verus! {

/// The label of a cell of a categorical raster.
#[derive(Clone, Copy, PartialEq, Eq, Structural, Debug)]
pub enum RegionLabel {
    /// The cell holds no data.
    NoData,
    /// The cell holds the background value.
    Background,
    /// The cell belongs to the region with this number, counted from 1.
    Region(u64),
}

/// `(a, b)` comes before `(r, c)` in row-major order.
pub open spec fn before(a: int, b: int, r: int, c: int) -> bool {
    a < r || (a == r && b < c)
}

/// A cell holding the background value, where zero is background.
pub open spec fn is_background(s: Surface, zero_background: bool, r: int, c: int) -> bool {
    zero_background && s.valid(r, c) && s.at(r, c) == Some(0i64)
}

/// A cell that belongs to some region: it holds data that is not background.
pub open spec fn seedable(s: Surface, zero_background: bool, r: int, c: int) -> bool {
    s.valid(r, c) && !is_background(s, zero_background, r, c)
}

/// The region number of a label, or 0 for a label that is not a region.
pub open spec fn region_of(l: RegionLabel) -> int {
    match l {
        RegionLabel::Region(k) => k as int,
        _ => 0,
    }
}

/// Direction `d` leads from `(r, c)` to a seedable cell of the same value.
pub open spec fn joins(s: Surface, zero_background: bool, r: int, c: int, d: int) -> bool {
    match step(s.rows as int, s.columns as int, r, c, d) {
        Some(q) => seedable(s, zero_background, q.0, q.1) && s.at(q.0, q.1) == s.at(r, c),
        None => false,
    }
}

/// The cell one step from `(r, c)` in direction `d`.
pub open spec fn target(s: Surface, r: int, c: int, d: int) -> (int, int) {
    step(s.rows as int, s.columns as int, r, c, d).unwrap()
}

/// The label of `(r, c)` is shared by every seedable neighbour, under
/// `conn`, that holds the same value.
pub open spec fn closed(
    s: Surface,
    conn: Connectivity,
    zero_background: bool,
    labels: Seq<RegionLabel>,
    r: int,
    c: int,
) -> bool {
    forall|d: int|
        participates(conn, d) && #[trigger] joins(s, zero_background, r, c, d) ==> labels[flat(
            s.columns as int,
            target(s, r, c, d).0,
            target(s, r, c, d).1,
        )] == labels[flat(s.columns as int, r, c)]
}

/// Each region cell other than its region's seed hangs, through `parent`,
/// from a neighbour of the same region that lies closer to the seed.
pub open spec fn region_forest(
    s: Surface,
    conn: Connectivity,
    labels: Seq<RegionLabel>,
    seeds: Seq<(usize, usize)>,
    parent: Seq<(int, int)>,
    depth: Seq<nat>,
) -> bool {
    forall|r: int, c: int|
        s.in_grid(r, c) && region_of(#[trigger] labels[flat(s.columns as int, r, c)]) > 0
            && (r as usize, c as usize) != seeds[region_of(labels[flat(s.columns as int, r, c)]) - 1] ==> {
            let p = parent[flat(s.columns as int, r, c)];
            &&& s.in_grid(p.0, p.1)
            &&& adjacent(conn, p.0, p.1, r, c)
            &&& labels[flat(s.columns as int, p.0, p.1)] == labels[flat(s.columns as int, r, c)]
            &&& depth[flat(s.columns as int, p.0, p.1)] < depth[flat(s.columns as int, r, c)]
        }
}

/// What a finished labelling states: cells without data are `NoData`,
/// background cells `Background`, every other cell carries the number of a
/// region; `seeds[k - 1]` is the first cell, in row-major order, of region
/// `k`; a region holds one value and every seedable neighbour of its cells
/// with that value; and it is connected.
pub open spec fn region_labelling(
    s: Surface,
    conn: Connectivity,
    zero_background: bool,
    labels: Seq<RegionLabel>,
    seeds: Seq<(usize, usize)>,
) -> bool {
    let cols = s.columns as int;
    &&& labels.len() == s.cells@.len()
    &&& forall|r: int, c: int|
        s.in_grid(r, c) && s.at(r, c) is None ==> #[trigger] labels[flat(cols, r, c)]
            == RegionLabel::NoData
    &&& forall|r: int, c: int|
        s.in_grid(r, c) && is_background(s, zero_background, r, c) ==> #[trigger] labels[flat(cols, r, c)]
            == RegionLabel::Background
    &&& forall|r: int, c: int|
        s.in_grid(r, c) && seedable(s, zero_background, r, c) ==> 1 <= region_of(
            #[trigger] labels[flat(cols, r, c)],
        ) <= seeds.len()
    &&& seeds_ok(s, labels, seeds)
    &&& forall|r: int, c: int|
        s.in_grid(r, c) && region_of(#[trigger] labels[flat(cols, r, c)]) > 0 ==> {
            let sd = seeds[region_of(labels[flat(cols, r, c)]) - 1];
            &&& !before(r, c, sd.0 as int, sd.1 as int)
            &&& s.at(r, c) == s.at(sd.0 as int, sd.1 as int)
        }
    &&& forall|r: int, c: int|
        s.in_grid(r, c) && region_of(#[trigger] labels[flat(cols, r, c)]) > 0 ==> closed(
            s,
            conn,
            zero_background,
            labels,
            r,
            c,
        )
    &&& exists|parent: Seq<(int, int)>, depth: Seq<nat>|
        region_forest(s, conn, labels, seeds, parent, depth)
}

/// Each seed lies in the grid, carries its own region's number, and the
/// seeds come in row-major order.
pub open spec fn seeds_ok(s: Surface, labels: Seq<RegionLabel>, seeds: Seq<(usize, usize)>) -> bool {
    &&& forall|k: int|
        0 <= k < seeds.len() ==> s.in_grid((#[trigger] seeds[k]).0 as int, seeds[k].1 as int)
            && labels[flat(s.columns as int, seeds[k].0 as int, seeds[k].1 as int)] == RegionLabel::Region(
            (k + 1) as u64,
        )
    &&& forall|i: int, j: int|
        0 <= i < j < seeds.len() ==> before(
            (#[trigger] seeds[i]).0 as int,
            seeds[i].1 as int,
            (#[trigger] seeds[j]).0 as int,
            seeds[j].1 as int,
        )
}

/// Number of entries below `i` that are still unlabelled.
pub open spec fn unlabelled(s: Surface, labels: Seq<RegionLabel>, i: int) -> nat
    decreases i,
{
    if i <= 0 {
        0
    } else {
        unlabelled(s, labels, i - 1) + if s.cells@[i - 1] is Some && labels[i - 1] == RegionLabel::NoData {
            1nat
        } else {
            0nat
        }
    }
}

proof fn lemma_unlabelled_update(s: Surface, labels: Seq<RegionLabel>, j: int, l: RegionLabel, i: int)
    requires
        0 <= j < labels.len(),
        s.cells@[j] is Some,
        labels[j] == RegionLabel::NoData,
        l != RegionLabel::NoData,
        0 <= i <= labels.len(),
    ensures
        unlabelled(s, labels.update(j, l), i) + (if j < i {
            1nat
        } else {
            0nat
        }) == unlabelled(s, labels, i),
    decreases i,
{
    if i > 0 {
        lemma_unlabelled_update(s, labels, j, l, i - 1);
    }
}

/// Labelling an unlabelled cell keeps every region cell closed.
proof fn lemma_closed_update(
    s: Surface,
    conn: Connectivity,
    zero_background: bool,
    labels: Seq<RegionLabel>,
    j: int,
    l: RegionLabel,
    r: int,
    c: int,
)
    requires
        s.wf(),
        labels.len() == s.cells@.len(),
        0 <= j < labels.len(),
        labels[j] == RegionLabel::NoData,
        s.in_grid(r, c),
        region_of(labels[flat(s.columns as int, r, c)]) > 0,
        closed(s, conn, zero_background, labels, r, c),
    ensures
        closed(s, conn, zero_background, labels.update(j, l), r, c),
{
    let cols = s.columns as int;
    lemma_flat_bounds(s.rows as int, cols, r, c);
    assert forall|d: int|
        participates(conn, d) && #[trigger] joins(s, zero_background, r, c, d) implies labels.update(j, l)[flat(
            cols,
            target(s, r, c, d).0,
            target(s, r, c, d).1,
        )] == labels.update(j, l)[flat(cols, r, c)] by {
        let t = target(s, r, c, d);
        lemma_flat_bounds(s.rows as int, cols, t.0, t.1);
    }
}

/// What holds of the labels while regions are being filled: regions below
/// `open` are finished and closed.
pub open spec fn work(
    s: Surface,
    conn: Connectivity,
    zero_background: bool,
    labels: Seq<RegionLabel>,
    seeds: Seq<(usize, usize)>,
    parent: Seq<(int, int)>,
    depth: Seq<nat>,
    open: int,
) -> bool {
    let cols = s.columns as int;
    &&& labels.len() == s.cells@.len()
    &&& parent.len() == s.cells@.len()
    &&& depth.len() == s.cells@.len()
    &&& forall|r: int, c: int|
        s.in_grid(r, c) && s.at(r, c) is None ==> #[trigger] labels[flat(cols, r, c)]
            == RegionLabel::NoData
    &&& forall|r: int, c: int|
        s.in_grid(r, c) ==> (#[trigger] labels[flat(cols, r, c)] == RegionLabel::Background
            <==> is_background(s, zero_background, r, c)) && labels[flat(cols, r, c)] != RegionLabel::Region(0)
    &&& forall|r: int, c: int|
        s.in_grid(r, c) && region_of(#[trigger] labels[flat(cols, r, c)]) > 0 ==> {
            let sd = seeds[region_of(labels[flat(cols, r, c)]) - 1];
            &&& seedable(s, zero_background, r, c)
            &&& region_of(labels[flat(cols, r, c)]) <= seeds.len()
            &&& !before(r, c, sd.0 as int, sd.1 as int)
            &&& s.at(r, c) == s.at(sd.0 as int, sd.1 as int)
        }
    &&& seeds_ok(s, labels, seeds)
    &&& region_forest(s, conn, labels, seeds, parent, depth)
    &&& forall|r: int, c: int|
        s.in_grid(r, c) && 0 < region_of(#[trigger] labels[flat(cols, r, c)]) < open ==> closed(
            s,
            conn,
            zero_background,
            labels,
            r,
            c,
        )
}

/// Every cell before `(r0, c0)` in row-major order is labelled.
pub open spec fn labelled_before(s: Surface, labels: Seq<RegionLabel>, r0: int, c0: int) -> bool {
    forall|a: int, b: int|
        s.in_grid(a, b) && before(a, b, r0, c0) ==> !(s.at(a, b) is Some && #[trigger] labels[flat(
            s.columns as int,
            a,
            b,
        )] == RegionLabel::NoData)
}

/// A neighbour that joins a cell joins it back.
proof fn lemma_joins_back(s: Surface, conn: Connectivity, zero_background: bool, r: int, c: int, d: int)
    requires
        participates(conn, d),
        joins(s, zero_background, r, c, d),
        seedable(s, zero_background, r, c),
    ensures
        participates(conn, crate::addressing::opposite(d)),
        joins(s, zero_background, target(s, r, c, d).0, target(s, r, c, d).1, crate::addressing::opposite(d)),
        target(s, target(s, r, c, d).0, target(s, r, c, d).1, crate::addressing::opposite(d)) == (r, c),
{
    crate::addressing::lemma_opposite(d);
}

/// Spreads region `count` from its cell `(pr, pc)` to every unlabelled
/// neighbour with the same value, pushing each onto the stack.
#[verifier::rlimit(60)]
fn expand(
    s: &Surface,
    conn: Connectivity,
    zero_background: bool,
    labels: &mut Vec<RegionLabel>,
    stack: &mut Vec<(usize, usize)>,
    pr: usize,
    pc: usize,
    count: u64,
    z: i64,
    Ghost(seeds): Ghost<Seq<(usize, usize)>>,
    Ghost(parent): Ghost<Seq<(int, int)>>,
    Ghost(depth): Ghost<Seq<nat>>,
) -> (res: (Ghost<Seq<(int, int)>>, Ghost<Seq<nat>>))
    requires
        s.wf(),
        work(*s, conn, zero_background, old(labels)@, seeds, parent, depth, count as int),
        seeds.len() == count,
        count >= 1,
        s.at(seeds[count - 1].0 as int, seeds[count - 1].1 as int) == Some(z),
        labelled_before(*s, old(labels)@, seeds[count - 1].0 as int, seeds[count - 1].1 as int),
        s.in_grid(pr as int, pc as int),
        old(labels)@[flat(s.columns as int, pr as int, pc as int)] == RegionLabel::Region(count),
        forall|k: int|
            0 <= k < old(stack)@.len() ==> s.in_grid((#[trigger] old(stack)@[k]).0 as int, old(stack)@[k].1 as int)
                && old(labels)@[flat(s.columns as int, old(stack)@[k].0 as int, old(stack)@[k].1 as int)]
                == RegionLabel::Region(count),
    ensures
        work(*s, conn, zero_background, final(labels)@, seeds, res.0@, res.1@, count as int),
        labelled_before(*s, final(labels)@, seeds[count - 1].0 as int, seeds[count - 1].1 as int),
        closed(*s, conn, zero_background, final(labels)@, pr as int, pc as int),
        forall|f: int|
            0 <= f < s.cells@.len() ==> #[trigger] final(labels)@[f] == old(labels)@[f] || (old(labels)@[f]
                == RegionLabel::NoData && final(labels)@[f] == RegionLabel::Region(count)),
        forall|a: int, b: int|
            s.in_grid(a, b) && old(labels)@[flat(s.columns as int, a, b)] == RegionLabel::Region(count) && closed(
                *s,
                conn,
                zero_background,
                old(labels)@,
                a,
                b,
            ) ==> #[trigger] closed(*s, conn, zero_background, final(labels)@, a, b),
        final(stack)@.len() >= old(stack)@.len(),
        final(stack)@.subrange(0, old(stack)@.len() as int) == old(stack)@,
        unlabelled(*s, final(labels)@, s.cells@.len() as int) + (final(stack)@.len() - old(stack)@.len())
            == unlabelled(*s, old(labels)@, s.cells@.len() as int),
        forall|a: int, b: int|
            s.in_grid(a, b) && old(labels)@[flat(s.columns as int, a, b)] == RegionLabel::NoData
                && #[trigger] final(labels)@[flat(s.columns as int, a, b)] == RegionLabel::Region(count)
                ==> final(stack)@.contains((a as usize, b as usize)),
        forall|k: int|
            0 <= k < final(stack)@.len() ==> s.in_grid((#[trigger] final(stack)@[k]).0 as int, final(stack)@[k].1 as int)
                && final(labels)@[flat(s.columns as int, final(stack)@[k].0 as int, final(stack)@[k].1 as int)]
                == RegionLabel::Region(count),
{
    let ghost cols = s.columns as int;
    let ghost n = s.cells@.len() as int;
    let ghost fp = flat(cols, pr as int, pc as int);
    let ghost labels0 = labels@;
    let ghost stack0 = stack@;
    let ghost mut par = parent;
    let ghost mut dep = depth;
    let ghost sd = seeds[count - 1];
    proof {
        lemma_flat_bounds(s.rows as int, cols, pr as int, pc as int);
        assert(seedable(*s, zero_background, pr as int, pc as int));
        assert(s.at(pr as int, pc as int) == Some(z));
    }
    let mut d: usize = 0;
    while d < NUM_DIRECTIONS
        invariant
            s.wf(),
            cols == s.columns,
            n == s.cells@.len(),
            0 <= fp < n,
            fp == flat(cols, pr as int, pc as int),
            s.in_grid(pr as int, pc as int),
            s.at(pr as int, pc as int) == Some(z),
            seedable(*s, zero_background, pr as int, pc as int),
            seeds.len() == count,
            count >= 1,
            sd == seeds[count - 1],
            d <= NUM_DIRECTIONS,
            work(*s, conn, zero_background, labels@, seeds, par, dep, count as int),
            labelled_before(*s, labels@, sd.0 as int, sd.1 as int),
            labels@[fp] == RegionLabel::Region(count),
            forall|e: int|
                0 <= e < d && participates(conn, e) && #[trigger] joins(*s, zero_background, pr as int, pc as int, e)
                    ==> labels@[flat(cols, target(*s, pr as int, pc as int, e).0, target(*s, pr as int, pc as int, e).1)]
                    == RegionLabel::Region(count),
            forall|f: int|
                0 <= f < n ==> #[trigger] labels@[f] == labels0[f] || (labels0[f] == RegionLabel::NoData
                    && labels@[f] == RegionLabel::Region(count)),
            forall|a: int, b: int|
                s.in_grid(a, b) && labels0[flat(cols, a, b)] == RegionLabel::Region(count) && closed(
                    *s,
                    conn,
                    zero_background,
                    labels0,
                    a,
                    b,
                ) ==> #[trigger] closed(*s, conn, zero_background, labels@, a, b),
            stack@.len() >= stack0.len(),
            stack@.subrange(0, stack0.len() as int) == stack0,
            unlabelled(*s, labels@, n) + (stack@.len() - stack0.len()) == unlabelled(*s, labels0, n),
            forall|a: int, b: int|
                s.in_grid(a, b) && labels0[flat(cols, a, b)] == RegionLabel::NoData
                    && #[trigger] labels@[flat(cols, a, b)] == RegionLabel::Region(count)
                    ==> stack@.contains((a as usize, b as usize)),
            forall|k: int|
                0 <= k < stack@.len() ==> s.in_grid((#[trigger] stack@[k]).0 as int, stack@[k].1 as int)
                    && labels@[flat(cols, stack@[k].0 as int, stack@[k].1 as int)] == RegionLabel::Region(count),
        decreases NUM_DIRECTIONS - d,
    {
        if uses_direction(conn, d) {
            match neighbour(s.rows, s.columns, pr, pc, d) {
                Some((qr, qc)) => {
                    let fq = s.index(qr, qc);
                    let ghost q = (qr as int, qc as int);
                    if s.cells[fq] == Some(z) && labels[fq] == RegionLabel::NoData {
                        let ghost labels_before = labels@;
                        let ghost stack_before = stack@;
                        proof {
                            lemma_flat_bounds(s.rows as int, cols, qr as int, qc as int);
                            lemma_unlabelled_update(*s, labels@, fq as int, RegionLabel::Region(count), n);
                            assert(!is_background(*s, zero_background, q.0, q.1)) by {
                                if is_background(*s, zero_background, q.0, q.1) {
                                    assert(labels@[flat(cols, q.0, q.1)] == RegionLabel::Background);
                                }
                            }
                            assert(!before(q.0, q.1, sd.0 as int, sd.1 as int));
                        }
                        proof {
                            assert(adjacent(conn, pr as int, pc as int, q.0, q.1)) by {
                                assert(participates(conn, d as int) && q.0 == pr + row_delta(d as int) && q.1 == pc + col_delta(d as int));
                            }
                            lemma_expand_step(*s, conn, zero_background, labels_before, seeds, par, dep, count, q, (pr as int, pc as int));
                        }
                        labels.set(fq, RegionLabel::Region(count));
                        stack.push((qr, qc));
                        proof {
                            par = par.update(fq as int, (pr as int, pc as int));
                            dep = dep.update(fq as int, dep[fp] + 1);
                            assert(stack@.subrange(0, stack0.len() as int) == stack0) by {
                                assert(stack_before.subrange(0, stack0.len() as int) == stack0);
                            }
                            assert forall|k: int| 0 <= k < stack@.len() implies s.in_grid((#[trigger] stack@[k]).0 as int, stack@[k].1 as int)
                                && labels@[flat(cols, stack@[k].0 as int, stack@[k].1 as int)] == RegionLabel::Region(count) by {
                                if k < stack_before.len() {
                                    assert(stack_before[k] == stack@[k]);
                                    lemma_flat_bounds(s.rows as int, cols, stack@[k].0 as int, stack@[k].1 as int);
                                }
                            }
                            assert forall|a: int, b: int|
                                s.in_grid(a, b) && labels0[flat(cols, a, b)] == RegionLabel::Region(count) && closed(
                                    *s,
                                    conn,
                                    zero_background,
                                    labels0,
                                    a,
                                    b,
                                ) implies #[trigger] closed(*s, conn, zero_background, labels@, a, b) by {
                                lemma_flat_bounds(s.rows as int, cols, a, b);
                                assert(closed(*s, conn, zero_background, labels_before, a, b));
                                assert(labels_before[flat(cols, a, b)] == RegionLabel::Region(count));
                                lemma_closed_update(*s, conn, zero_background, labels_before, fq as int, RegionLabel::Region(count), a, b);
                            }
                            assert forall|e: int|
                                0 <= e < d + 1 && participates(conn, e) && #[trigger] joins(*s, zero_background, pr as int, pc as int, e)
                                    implies labels@[flat(cols, target(*s, pr as int, pc as int, e).0, target(*s, pr as int, pc as int, e).1)]
                                    == RegionLabel::Region(count) by {
                                let t = target(*s, pr as int, pc as int, e);
                                lemma_flat_bounds(s.rows as int, cols, t.0, t.1);
                            }
                            assert(labels@[fp] == RegionLabel::Region(count));
                            assert forall|a: int, b: int|
                                s.in_grid(a, b) && labels0[flat(cols, a, b)] == RegionLabel::NoData
                                    && #[trigger] labels@[flat(cols, a, b)] == RegionLabel::Region(count)
                                    implies stack@.contains((a as usize, b as usize)) by {
                                lemma_flat_bounds(s.rows as int, cols, a, b);
                                if (a, b) != q {
                                    lemma_flat_injective(s.rows as int, cols, a, b, q.0, q.1);
                                    assert(stack_before.contains((a as usize, b as usize)));
                                    let k = choose|k: int| 0 <= k < stack_before.len() && stack_before[k] == (a as usize, b as usize);
                                    assert(stack@[k] == (a as usize, b as usize));
                                } else {
                                    assert(stack@[stack@.len() - 1] == (qr, qc));
                                }
                            }
                        }
                    } else {
                        proof {
                            lemma_flat_bounds(s.rows as int, cols, qr as int, qc as int);
                            if joins(*s, zero_background, pr as int, pc as int, d as int) {
                                lemma_joined_labelled(*s, conn, zero_background, labels@, seeds, par, dep, count, (pr as int, pc as int), d as int);
                            }
                        }
                    }
                },
                None => {},
            }
        }
        d = d + 1;
    }
    (Ghost(par), Ghost(dep))
}

/// A neighbour that joins a cell of the open region, and is labelled,
/// belongs to that region: the closed regions could not have left it out.
proof fn lemma_joined_labelled(
    s: Surface,
    conn: Connectivity,
    zero_background: bool,
    labels: Seq<RegionLabel>,
    seeds: Seq<(usize, usize)>,
    par: Seq<(int, int)>,
    dep: Seq<nat>,
    count: u64,
    p: (int, int),
    d: int,
)
    requires
        s.wf(),
        work(s, conn, zero_background, labels, seeds, par, dep, count as int),
        seeds.len() == count,
        s.in_grid(p.0, p.1),
        seedable(s, zero_background, p.0, p.1),
        labels[flat(s.columns as int, p.0, p.1)] == RegionLabel::Region(count),
        participates(conn, d),
        joins(s, zero_background, p.0, p.1, d),
        labels[flat(s.columns as int, target(s, p.0, p.1, d).0, target(s, p.0, p.1, d).1)] != RegionLabel::NoData,
    ensures
        labels[flat(s.columns as int, target(s, p.0, p.1, d).0, target(s, p.0, p.1, d).1)] == RegionLabel::Region(count),
{
    let cols = s.columns as int;
    let q = target(s, p.0, p.1, d);
    let l = labels[flat(cols, q.0, q.1)];
    assert(s.in_grid(q.0, q.1));
    assert(l != RegionLabel::Background) by {
        if l == RegionLabel::Background {
            assert(is_background(s, zero_background, q.0, q.1));
        }
    }
    assert(l != RegionLabel::Region(0));
    assert(region_of(l) > 0);
    assert(region_of(l) <= seeds.len());
    if region_of(l) < count {
        lemma_joins_back(s, conn, zero_background, p.0, p.1, d);
        assert(closed(s, conn, zero_background, labels, q.0, q.1));
        assert(joins(s, zero_background, q.0, q.1, crate::addressing::opposite(d)));
        assert(labels[flat(cols, p.0, p.1)] == l);
    }
}

/// Labelling the unlabelled cell `q` with region `count`, hung from its
/// region neighbour `p`, keeps the working facts.
proof fn lemma_expand_step(
    s: Surface,
    conn: Connectivity,
    zero_background: bool,
    labels: Seq<RegionLabel>,
    seeds: Seq<(usize, usize)>,
    par: Seq<(int, int)>,
    dep: Seq<nat>,
    count: u64,
    q: (int, int),
    p: (int, int),
)
    requires
        s.wf(),
        seeds.len() == count,
        count >= 1,
        s.in_grid(q.0, q.1),
        s.in_grid(p.0, p.1),
        seedable(s, zero_background, q.0, q.1),
        labels[flat(s.columns as int, q.0, q.1)] == RegionLabel::NoData,
        labels[flat(s.columns as int, p.0, p.1)] == RegionLabel::Region(count),
        s.at(q.0, q.1) == s.at(seeds[count - 1].0 as int, seeds[count - 1].1 as int),
        !before(q.0, q.1, seeds[count - 1].0 as int, seeds[count - 1].1 as int),
        adjacent(conn, p.0, p.1, q.0, q.1),
        work(s, conn, zero_background, labels, seeds, par, dep, count as int),
        labelled_before(s, labels, seeds[count - 1].0 as int, seeds[count - 1].1 as int),
    ensures
        ({
            let fq = flat(s.columns as int, q.0, q.1);
            let fp = flat(s.columns as int, p.0, p.1);
            let labels2 = labels.update(fq, RegionLabel::Region(count));
            &&& work(
                s,
                conn,
                zero_background,
                labels2,
                seeds,
                par.update(fq, p),
                dep.update(fq, dep[fp] + 1),
                count as int,
            )
            &&& labelled_before(s, labels2, seeds[count - 1].0 as int, seeds[count - 1].1 as int)
        }),
{
    let cols = s.columns as int;
    let fq = flat(cols, q.0, q.1);
    let fp = flat(cols, p.0, p.1);
    let labels2 = labels.update(fq, RegionLabel::Region(count));
    let par2 = par.update(fq, p);
    let dep2 = dep.update(fq, dep[fp] + 1);
    lemma_flat_bounds(s.rows as int, cols, q.0, q.1);
    lemma_flat_bounds(s.rows as int, cols, p.0, p.1);
    assert forall|r: int, c: int|
        s.in_grid(r, c) && s.at(r, c) is None implies #[trigger] labels2[flat(cols, r, c)]
            == RegionLabel::NoData by {
        lemma_flat_bounds(s.rows as int, cols, r, c);
        if (r, c) != q {
            lemma_flat_injective(s.rows as int, cols, r, c, q.0, q.1);
        }
    }
    assert forall|r: int, c: int|
        s.in_grid(r, c) implies (#[trigger] labels2[flat(cols, r, c)] == RegionLabel::Background
            <==> is_background(s, zero_background, r, c)) && labels2[flat(cols, r, c)] != RegionLabel::Region(0) by {
        lemma_flat_bounds(s.rows as int, cols, r, c);
        if (r, c) != q {
            lemma_flat_injective(s.rows as int, cols, r, c, q.0, q.1);
        }
    }
    assert forall|r: int, c: int|
        s.in_grid(r, c) && region_of(#[trigger] labels2[flat(cols, r, c)]) > 0 implies {
            let sd = seeds[region_of(labels2[flat(cols, r, c)]) - 1];
            &&& seedable(s, zero_background, r, c)
            &&& region_of(labels2[flat(cols, r, c)]) <= seeds.len()
            &&& !before(r, c, sd.0 as int, sd.1 as int)
            &&& s.at(r, c) == s.at(sd.0 as int, sd.1 as int)
        } by {
        lemma_flat_bounds(s.rows as int, cols, r, c);
        if (r, c) != q {
            lemma_flat_injective(s.rows as int, cols, r, c, q.0, q.1);
            assert(labels[flat(cols, r, c)] == labels2[flat(cols, r, c)]);
        }
    }
    assert forall|k: int| 0 <= k < seeds.len() implies s.in_grid((#[trigger] seeds[k]).0 as int, seeds[k].1 as int)
        && labels2[flat(cols, seeds[k].0 as int, seeds[k].1 as int)] == RegionLabel::Region((k + 1) as u64) by {
        let sk = seeds[k];
        lemma_flat_bounds(s.rows as int, cols, sk.0 as int, sk.1 as int);
    }
    assert forall|r: int, c: int|
        s.in_grid(r, c) && region_of(#[trigger] labels2[flat(cols, r, c)]) > 0
            && (r as usize, c as usize) != seeds[region_of(labels2[flat(cols, r, c)]) - 1] implies {
            let pp = par2[flat(cols, r, c)];
            &&& s.in_grid(pp.0, pp.1)
            &&& adjacent(conn, pp.0, pp.1, r, c)
            &&& labels2[flat(cols, pp.0, pp.1)] == labels2[flat(cols, r, c)]
            &&& dep2[flat(cols, pp.0, pp.1)] < dep2[flat(cols, r, c)]
        } by {
        lemma_flat_bounds(s.rows as int, cols, r, c);
        if (r, c) != q {
            lemma_flat_injective(s.rows as int, cols, r, c, q.0, q.1);
            assert(labels[flat(cols, r, c)] == labels2[flat(cols, r, c)]);
            let pp = par[flat(cols, r, c)];
            lemma_flat_bounds(s.rows as int, cols, pp.0, pp.1);
            assert(labels[flat(cols, pp.0, pp.1)] == labels[flat(cols, r, c)]);
            assert(flat(cols, pp.0, pp.1) != fq);
        } else {
            assert(fp != fq);
        }
    }
    assert forall|r: int, c: int|
        s.in_grid(r, c) && 0 < region_of(#[trigger] labels2[flat(cols, r, c)]) < count as int implies closed(
            s,
            conn,
            zero_background,
            labels2,
            r,
            c,
        ) by {
        lemma_flat_bounds(s.rows as int, cols, r, c);
        if (r, c) != q {
            lemma_flat_injective(s.rows as int, cols, r, c, q.0, q.1);
            assert(labels[flat(cols, r, c)] == labels2[flat(cols, r, c)]);
            lemma_closed_update(s, conn, zero_background, labels, fq, RegionLabel::Region(count), r, c);
        }
    }
    assert forall|a: int, b: int|
        s.in_grid(a, b) && before(a, b, seeds[count - 1].0 as int, seeds[count - 1].1 as int) implies !(s.at(a, b) is Some
            && #[trigger] labels2[flat(cols, a, b)] == RegionLabel::NoData) by {
        lemma_flat_bounds(s.rows as int, cols, a, b);
        if (a, b) != q {
            lemma_flat_injective(s.rows as int, cols, a, b, q.0, q.1);
        }
    }
}

/// The region labels of a raster, in row-major order, and the first cell of
/// each region.
pub struct Regions {
    pub labels: Vec<RegionLabel>,
    pub seeds: Vec<(usize, usize)>,
}

/// Labels the connected regions of equal value of a raster.
///
/// Cells are scanned in row-major order; each seedable cell not yet
/// labelled starts a new region, numbered from 1, which is flood-filled
/// with an explicit stack through every neighbour under `conn` that holds
/// exactly the same value. Cells without data stay `NoData`; where
/// `zero_background` is set, cells holding 0 are `Background`.
pub fn label_regions(s: &Surface, conn: Connectivity, zero_background: bool) -> (g: Regions)
    requires
        s.wf(),
    ensures
        region_labelling(*s, conn, zero_background, g.labels@, g.seeds@),
{
    let n = s.cells.len();
    let cols = s.columns;
    let mut labels: Vec<RegionLabel> = Vec::new();
    let mut i: usize = 0;
    while i < n
        invariant
            n == s.cells@.len(),
            i <= n,
            labels@.len() == i,
            forall|j: int|
                0 <= j < i ==> #[trigger] labels@[j] == if zero_background && s.cells@[j] == Some(0i64) {
                    RegionLabel::Background
                } else {
                    RegionLabel::NoData
                },
        decreases n - i,
    {
        if zero_background && s.cells[i] == Some(0i64) {
            labels.push(RegionLabel::Background);
        } else {
            labels.push(RegionLabel::NoData);
        }
        i = i + 1;
    }
    let ghost mut par: Seq<(int, int)> = Seq::new(n as nat, |j: int| (0int, 0int));
    let ghost mut dep: Seq<nat> = Seq::new(n as nat, |j: int| 0nat);
    let mut seeds: Vec<(usize, usize)> = Vec::new();
    let mut count: u64 = 0;
    proof {
        assert forall|r: int, c: int|
            s.in_grid(r, c) implies (#[trigger] labels@[flat(cols as int, r, c)] == RegionLabel::Background
                <==> is_background(*s, zero_background, r, c)) && labels@[flat(cols as int, r, c)]
                != RegionLabel::Region(0) by {
            lemma_flat_bounds(s.rows as int, cols as int, r, c);
        }
        assert forall|r: int, c: int|
            s.in_grid(r, c) && s.at(r, c) is None implies #[trigger] labels@[flat(cols as int, r, c)]
                == RegionLabel::NoData by {
            lemma_flat_bounds(s.rows as int, cols as int, r, c);
        }
        assert forall|r: int, c: int|
            s.in_grid(r, c) implies region_of(#[trigger] labels@[flat(cols as int, r, c)]) == 0 by {
            lemma_flat_bounds(s.rows as int, cols as int, r, c);
        }
        assert(work(*s, conn, zero_background, labels@, seeds@, par, dep, 1));
    }
    let mut pos: usize = 0;
    let mut r: usize = 0;
    while r < s.rows
        invariant
            s.wf(),
            n == s.cells@.len(),
            cols == s.columns,
            r <= s.rows,
            pos as int == r * cols,
            seeds@.len() == count,
            count <= pos,
            work(*s, conn, zero_background, labels@, seeds@, par, dep, count + 1),
            labelled_before(*s, labels@, r as int, 0),
            forall|k: int| 0 <= k < seeds@.len() ==> before((#[trigger] seeds@[k]).0 as int, seeds@[k].1 as int, r as int, 0),
        decreases s.rows - r,
    {
        let mut c: usize = 0;
        while c < cols
            invariant
                s.wf(),
                n == s.cells@.len(),
                cols == s.columns,
                r < s.rows,
                c <= cols,
                pos as int == r * cols + c,
                seeds@.len() == count,
                count <= pos,
                work(*s, conn, zero_background, labels@, seeds@, par, dep, count + 1),
                labelled_before(*s, labels@, r as int, c as int),
                forall|k: int| 0 <= k < seeds@.len() ==> before((#[trigger] seeds@[k]).0 as int, seeds@[k].1 as int, r as int, c as int),
            decreases cols - c,
        {
            proof {
                lemma_flat_bounds(s.rows as int, cols as int, r as int, c as int);
            }
            let f = s.index(r, c);
            if s.cells[f].is_some() && labels[f] == RegionLabel::NoData {
                let z = s.cells[f].unwrap();
                let ghost labels_before = labels@;
                let ghost seeds_before = seeds@;
                count = count + 1;
                seeds.push((r, c));
                labels.set(f, RegionLabel::Region(count));
                proof {
                    lemma_seed(*s, conn, zero_background, labels_before, seeds_before, par, dep, count, r as int, c as int);
                }
                let mut stack: Vec<(usize, usize)> = Vec::new();
                stack.push((r, c));
                proof {
                    assert(stack@[0] == (r, c));
                    assert forall|a: int, b: int|
                        s.in_grid(a, b) && #[trigger] labels@[flat(cols as int, a, b)] == RegionLabel::Region(count)
                            implies stack@.contains((a as usize, b as usize)) || closed(*s, conn, zero_background, labels@, a, b) by {
                        lemma_flat_bounds(s.rows as int, cols as int, a, b);
                        if (a, b) != (r as int, c as int) {
                            lemma_flat_injective(s.rows as int, cols as int, a, b, r as int, c as int);
                            assert(labels_before[flat(cols as int, a, b)] == RegionLabel::Region(count));
                            assert(region_of(labels_before[flat(cols as int, a, b)]) <= seeds_before.len());
                        }
                    }
                }
                let (Ghost(par2), Ghost(dep2)) = fill_region(
                    s,
                    conn,
                    zero_background,
                    &mut labels,
                    stack,
                    r,
                    c,
                    count,
                    z,
                    Ghost(seeds@),
                    Ghost(par),
                    Ghost(dep),
                );
                proof {
                    par = par2;
                    dep = dep2;
                }
                proof {
                    assert forall|a: int, b: int|
                        s.in_grid(a, b) && 0 < region_of(#[trigger] labels@[flat(cols as int, a, b)]) < count + 1 implies closed(
                            *s,
                            conn,
                            zero_background,
                            labels@,
                            a,
                            b,
                        ) by {
                        if region_of(labels@[flat(cols as int, a, b)]) == count {
                            assert(labels@[flat(cols as int, a, b)] == RegionLabel::Region(count));
                        }
                    }
                }
            }
            proof {
                assert forall|a: int, b: int|
                    s.in_grid(a, b) && before(a, b, r as int, c + 1) implies !(s.at(a, b) is Some && #[trigger] labels@[flat(
                        cols as int,
                        a,
                        b,
                    )] == RegionLabel::NoData) by {
                    if (a, b) != (r as int, c as int) {
                        assert(before(a, b, r as int, c as int));
                    }
                }
                assert forall|k: int| 0 <= k < seeds@.len() implies before((#[trigger] seeds@[k]).0 as int, seeds@[k].1 as int, r as int, c + 1) by {
                    if k < seeds@.len() - 1 || seeds@[k] != (r, c) {
                    }
                }
            }
            pos = pos + 1;
            c = c + 1;
        }
        proof {
            assert((r + 1) * cols == r * cols + cols) by (nonlinear_arith);
            assert forall|a: int, b: int|
                s.in_grid(a, b) && before(a, b, r + 1, 0) implies !(s.at(a, b) is Some && #[trigger] labels@[flat(
                    cols as int,
                    a,
                    b,
                )] == RegionLabel::NoData) by {
                if a == r {
                    assert(before(a, b, r as int, cols as int));
                }
            }
        }
        r = r + 1;
    }
    proof {
        lemma_finish(*s, conn, zero_background, labels@, seeds@, par, dep, count);
    }
    Regions { labels, seeds }
}

/// Floods region `count` from the cells on the stack until the stack is
/// empty, leaving every cell of the region closed.
#[verifier::rlimit(60)]
fn fill_region(
    s: &Surface,
    conn: Connectivity,
    zero_background: bool,
    labels: &mut Vec<RegionLabel>,
    stack: Vec<(usize, usize)>,
    r: usize,
    c: usize,
    count: u64,
    z: i64,
    Ghost(seeds): Ghost<Seq<(usize, usize)>>,
    Ghost(parent): Ghost<Seq<(int, int)>>,
    Ghost(depth): Ghost<Seq<nat>>,
) -> (res: (Ghost<Seq<(int, int)>>, Ghost<Seq<nat>>))
    requires
        s.wf(),
        r < s.rows,
        c < s.columns,
        seeds.len() == count,
        count >= 1,
        seeds[count - 1] == (r, c),
        s.at(r as int, c as int) == Some(z),
        work(*s, conn, zero_background, old(labels)@, seeds, parent, depth, count as int),
        labelled_before(*s, old(labels)@, r as int, c as int),
        forall|k: int|
            0 <= k < stack@.len() ==> s.in_grid((#[trigger] stack@[k]).0 as int, stack@[k].1 as int)
                && old(labels)@[flat(s.columns as int, stack@[k].0 as int, stack@[k].1 as int)]
                == RegionLabel::Region(count),
        forall|a: int, b: int|
            s.in_grid(a, b) && #[trigger] old(labels)@[flat(s.columns as int, a, b)] == RegionLabel::Region(count)
                ==> stack@.contains((a as usize, b as usize)) || closed(*s, conn, zero_background, old(labels)@, a, b),
    ensures
        work(*s, conn, zero_background, final(labels)@, seeds, res.0@, res.1@, count as int),
        labelled_before(*s, final(labels)@, r as int, c as int),
        forall|a: int, b: int|
            s.in_grid(a, b) && #[trigger] final(labels)@[flat(s.columns as int, a, b)] == RegionLabel::Region(count)
                ==> closed(*s, conn, zero_background, final(labels)@, a, b),
{
    let n = s.cells.len();
    let cols = s.columns;
    let mut stack = stack;
    let ghost mut par = parent;
    let ghost mut dep = depth;
    while stack.len() > 0
        invariant
            s.wf(),
            n == s.cells@.len(),
            cols == s.columns,
            r < s.rows,
            c < cols,
            seeds.len() == count,
            count >= 1,
            seeds[count - 1] == (r, c),
            s.at(r as int, c as int) == Some(z),
            work(*s, conn, zero_background, labels@, seeds, par, dep, count as int),
            labelled_before(*s, labels@, r as int, c as int),
            forall|k: int|
                0 <= k < stack@.len() ==> s.in_grid((#[trigger] stack@[k]).0 as int, stack@[k].1 as int)
                    && labels@[flat(cols as int, stack@[k].0 as int, stack@[k].1 as int)]
                    == RegionLabel::Region(count),
            forall|a: int, b: int|
                s.in_grid(a, b) && #[trigger] labels@[flat(cols as int, a, b)] == RegionLabel::Region(count)
                    ==> stack@.contains((a as usize, b as usize)) || closed(*s, conn, zero_background, labels@, a, b),
        decreases unlabelled(*s, labels@, n as int), stack@.len(),
    {
        let ghost stack0 = stack@;
        let ghost labels0 = labels@;
        let p = stack.pop().unwrap();
        proof {
            assert(stack0[stack0.len() - 1] == p);
            assert(stack@ == stack0.subrange(0, stack0.len() - 1));
        }
        let ghost stack1 = stack@;
        let (Ghost(par2), Ghost(dep2)) = expand(
            s,
            conn,
            zero_background,
            labels,
            &mut stack,
            p.0,
            p.1,
            count,
            z,
            Ghost(seeds),
            Ghost(par),
            Ghost(dep),
        );
        proof {
            par = par2;
            dep = dep2;
            assert forall|a: int, b: int|
                s.in_grid(a, b) && #[trigger] labels@[flat(cols as int, a, b)] == RegionLabel::Region(count)
                    implies stack@.contains((a as usize, b as usize)) || closed(*s, conn, zero_background, labels@, a, b) by {
                lemma_flat_bounds(s.rows as int, cols as int, a, b);
                if (a as usize, b as usize) == p {
                } else if labels0[flat(cols as int, a, b)] == RegionLabel::Region(count) {
                    if stack0.contains((a as usize, b as usize)) {
                        let k = choose|k: int| 0 <= k < stack0.len() && stack0[k] == (a as usize, b as usize);
                        assert(k < stack0.len() - 1);
                        assert(stack1[k] == (a as usize, b as usize));
                        assert(stack@.subrange(0, stack1.len() as int)[k] == (a as usize, b as usize));
                        assert(stack@[k] == (a as usize, b as usize));
                    } else {
                        assert(closed(*s, conn, zero_background, labels0, a, b));
                    }
                } else {
                    assert(labels0[flat(cols as int, a, b)] == RegionLabel::NoData);
                }
            }
        }
    }
    (Ghost(par), Ghost(dep))
}

/// Starting region `count` at the unlabelled cell `(r, c)` keeps the working
/// facts, with the regions before it closed.
proof fn lemma_seed(
    s: Surface,
    conn: Connectivity,
    zero_background: bool,
    labels: Seq<RegionLabel>,
    seeds: Seq<(usize, usize)>,
    par: Seq<(int, int)>,
    dep: Seq<nat>,
    count: u64,
    r: int,
    c: int,
)
    requires
        s.wf(),
        s.in_grid(r, c),
        s.at(r, c) is Some,
        labels[flat(s.columns as int, r, c)] == RegionLabel::NoData,
        count >= 1,
        seeds.len() == count - 1,
        work(s, conn, zero_background, labels, seeds, par, dep, count as int),
        labelled_before(s, labels, r, c),
        forall|k: int| 0 <= k < seeds.len() ==> before((#[trigger] seeds[k]).0 as int, seeds[k].1 as int, r, c),
        0 <= r <= usize::MAX,
        0 <= c <= usize::MAX,
    ensures
        work(
            s,
            conn,
            zero_background,
            labels.update(flat(s.columns as int, r, c), RegionLabel::Region(count)),
            seeds.push((r as usize, c as usize)),
            par,
            dep,
            count as int,
        ),
        labelled_before(s, labels.update(flat(s.columns as int, r, c), RegionLabel::Region(count)), r, c),
{
    let cols = s.columns as int;
    let f = flat(cols, r, c);
    let labels2 = labels.update(f, RegionLabel::Region(count));
    let seeds2 = seeds.push((r as usize, c as usize));
    lemma_flat_bounds(s.rows as int, cols, r, c);
    assert(!is_background(s, zero_background, r, c)) by {
        if is_background(s, zero_background, r, c) {
            assert(labels[f] == RegionLabel::Background);
        }
    }
    assert forall|a: int, b: int|
        s.in_grid(a, b) && s.at(a, b) is None implies #[trigger] labels2[flat(cols, a, b)]
            == RegionLabel::NoData by {
        lemma_flat_bounds(s.rows as int, cols, a, b);
        if (a, b) != (r, c) {
            lemma_flat_injective(s.rows as int, cols, a, b, r, c);
        }
    }
    assert forall|a: int, b: int|
        s.in_grid(a, b) implies (#[trigger] labels2[flat(cols, a, b)] == RegionLabel::Background
            <==> is_background(s, zero_background, a, b)) && labels2[flat(cols, a, b)] != RegionLabel::Region(0) by {
        lemma_flat_bounds(s.rows as int, cols, a, b);
        if (a, b) != (r, c) {
            lemma_flat_injective(s.rows as int, cols, a, b, r, c);
        }
    }
    assert forall|a: int, b: int|
        s.in_grid(a, b) && region_of(#[trigger] labels2[flat(cols, a, b)]) > 0 implies {
            let sd = seeds2[region_of(labels2[flat(cols, a, b)]) - 1];
            &&& seedable(s, zero_background, a, b)
            &&& region_of(labels2[flat(cols, a, b)]) <= seeds2.len()
            &&& !before(a, b, sd.0 as int, sd.1 as int)
            &&& s.at(a, b) == s.at(sd.0 as int, sd.1 as int)
        } by {
        lemma_flat_bounds(s.rows as int, cols, a, b);
        if (a, b) != (r, c) {
            lemma_flat_injective(s.rows as int, cols, a, b, r, c);
            assert(labels[flat(cols, a, b)] == labels2[flat(cols, a, b)]);
            assert(seeds2[region_of(labels2[flat(cols, a, b)]) - 1] == seeds[region_of(labels2[flat(cols, a, b)]) - 1]);
        }
    }
    assert forall|k: int| 0 <= k < seeds2.len() implies s.in_grid((#[trigger] seeds2[k]).0 as int, seeds2[k].1 as int)
        && labels2[flat(cols, seeds2[k].0 as int, seeds2[k].1 as int)] == RegionLabel::Region((k + 1) as u64) by {
        if k < seeds.len() {
            let sk = seeds[k];
            assert(seeds2[k] == sk);
            lemma_flat_bounds(s.rows as int, cols, sk.0 as int, sk.1 as int);
            assert(before(sk.0 as int, sk.1 as int, r, c));
            lemma_flat_injective(s.rows as int, cols, sk.0 as int, sk.1 as int, r, c);
        }
    }
    assert forall|i: int, j: int|
        0 <= i < j < seeds2.len() implies before(
            (#[trigger] seeds2[i]).0 as int,
            seeds2[i].1 as int,
            (#[trigger] seeds2[j]).0 as int,
            seeds2[j].1 as int,
        ) by {
        assert(seeds2[i] == seeds[i]);
        if j < seeds.len() {
            assert(seeds2[j] == seeds[j]);
        }
    }
    assert forall|a: int, b: int|
        s.in_grid(a, b) && region_of(#[trigger] labels2[flat(cols, a, b)]) > 0
            && (a as usize, b as usize) != seeds2[region_of(labels2[flat(cols, a, b)]) - 1] implies {
            let pp = par[flat(cols, a, b)];
            &&& s.in_grid(pp.0, pp.1)
            &&& adjacent(conn, pp.0, pp.1, a, b)
            &&& labels2[flat(cols, pp.0, pp.1)] == labels2[flat(cols, a, b)]
            &&& dep[flat(cols, pp.0, pp.1)] < dep[flat(cols, a, b)]
        } by {
        lemma_flat_bounds(s.rows as int, cols, a, b);
        if (a, b) != (r, c) {
            lemma_flat_injective(s.rows as int, cols, a, b, r, c);
            assert(labels[flat(cols, a, b)] == labels2[flat(cols, a, b)]);
            assert(seeds2[region_of(labels2[flat(cols, a, b)]) - 1] == seeds[region_of(labels2[flat(cols, a, b)]) - 1]);
            let pp = par[flat(cols, a, b)];
            lemma_flat_bounds(s.rows as int, cols, pp.0, pp.1);
            assert(flat(cols, pp.0, pp.1) != f);
        }
    }
    assert forall|a: int, b: int|
        s.in_grid(a, b) && 0 < region_of(#[trigger] labels2[flat(cols, a, b)]) < count as int implies closed(
            s,
            conn,
            zero_background,
            labels2,
            a,
            b,
        ) by {
        lemma_flat_bounds(s.rows as int, cols, a, b);
        if (a, b) != (r, c) {
            lemma_flat_injective(s.rows as int, cols, a, b, r, c);
            assert(labels[flat(cols, a, b)] == labels2[flat(cols, a, b)]);
            lemma_closed_update(s, conn, zero_background, labels, f, RegionLabel::Region(count), a, b);
        }
    }
    assert forall|a: int, b: int|
        s.in_grid(a, b) && before(a, b, r, c) implies !(s.at(a, b) is Some
            && #[trigger] labels2[flat(cols, a, b)] == RegionLabel::NoData) by {
        lemma_flat_bounds(s.rows as int, cols, a, b);
        lemma_flat_injective(s.rows as int, cols, a, b, r, c);
    }
}

/// Once every cell is labelled and every region closed, the labels are a
/// region labelling.
proof fn lemma_finish(
    s: Surface,
    conn: Connectivity,
    zero_background: bool,
    labels: Seq<RegionLabel>,
    seeds: Seq<(usize, usize)>,
    par: Seq<(int, int)>,
    dep: Seq<nat>,
    count: u64,
)
    requires
        s.wf(),
        seeds.len() == count,
        work(s, conn, zero_background, labels, seeds, par, dep, count + 1),
        labelled_before(s, labels, s.rows as int, 0),
    ensures
        region_labelling(s, conn, zero_background, labels, seeds),
{
    let cols = s.columns as int;
    assert forall|r: int, c: int|
        s.in_grid(r, c) && seedable(s, zero_background, r, c) implies 1 <= region_of(
            #[trigger] labels[flat(cols, r, c)],
        ) <= seeds.len() by {
        assert(before(r, c, s.rows as int, 0));
        assert(labels[flat(cols, r, c)] != RegionLabel::NoData);
        assert(labels[flat(cols, r, c)] != RegionLabel::Background);
        assert(labels[flat(cols, r, c)] != RegionLabel::Region(0));
    }
    assert forall|r: int, c: int|
        s.in_grid(r, c) && is_background(s, zero_background, r, c) implies #[trigger] labels[flat(cols, r, c)]
            == RegionLabel::Background by {
    }
    assert forall|r: int, c: int|
        s.in_grid(r, c) && region_of(#[trigger] labels[flat(cols, r, c)]) > 0 implies closed(
            s,
            conn,
            zero_background,
            labels,
            r,
            c,
        ) by {
    }
    assert(region_forest(s, conn, labels, seeds, par, dep));
}

/// The value a label takes when a labelling is read back as a raster:
/// region `k` holds `k`, background holds 0, no data stays no data.
pub open spec fn label_value(l: RegionLabel) -> Option<i64> {
    match l {
        RegionLabel::NoData => None,
        RegionLabel::Background => Some(0i64),
        RegionLabel::Region(k) => Some(k as i64),
    }
}

/// Every region number fits a raster value.
pub open spec fn numbers_fit(labels: Seq<RegionLabel>) -> bool {
    forall|i: int| 0 <= i < labels.len() ==> region_of(#[trigger] labels[i]) <= i64::MAX
}

/// A labelling read back as a raster of the same shape.
pub fn labels_as_surface(rows: usize, columns: usize, labels: &Vec<RegionLabel>) -> (t: Surface)
    requires
        labels@.len() == rows * columns,
        numbers_fit(labels@),
    ensures
        t.wf(),
        t.rows == rows,
        t.columns == columns,
        t.cells@.len() == labels@.len(),
        forall|i: int| 0 <= i < labels@.len() ==> #[trigger] t.cells@[i] == label_value(labels@[i]),
{
    let mut cells: Vec<Option<i64>> = Vec::new();
    let mut i: usize = 0;
    while i < labels.len()
        invariant
            i <= labels@.len(),
            cells@.len() == i,
            numbers_fit(labels@),
            forall|j: int| 0 <= j < i ==> #[trigger] cells@[j] == label_value(labels@[j]),
        decreases labels@.len() - i,
    {
        let v = match labels[i] {
            RegionLabel::NoData => None,
            RegionLabel::Background => Some(0i64),
            RegionLabel::Region(k) => {
                assert(region_of(labels@[i as int]) <= i64::MAX);
                Some(k as i64)
            },
        };
        cells.push(v);
        i = i + 1;
    }
    Surface { rows, columns, cells }
}

/// Within one region of `l1`, every cell shares the label in `l2` of the
/// region's seed, when `l2` labels the raster read back from `l1`.
proof fn lemma_region_to_seed(
    s: Surface,
    conn: Connectivity,
    l1: Seq<RegionLabel>,
    seeds1: Seq<(usize, usize)>,
    par: Seq<(int, int)>,
    dep: Seq<nat>,
    s2: Surface,
    l2: Seq<RegionLabel>,
    seeds2: Seq<(usize, usize)>,
    r: int,
    c: int,
)
    requires
        s.wf(),
        region_labelling(s, conn, false, l1, seeds1),
        region_forest(s, conn, l1, seeds1, par, dep),
        s2.rows == s.rows,
        s2.columns == s.columns,
        s2.cells@.len() == l1.len(),
        forall|i: int| 0 <= i < l1.len() ==> #[trigger] s2.cells@[i] == label_value(l1[i]),
        region_labelling(s2, conn, false, l2, seeds2),
        s.in_grid(r, c),
        region_of(l1[flat(s.columns as int, r, c)]) > 0,
    ensures
        ({
            let sd = seeds1[region_of(l1[flat(s.columns as int, r, c)]) - 1];
            l2[flat(s.columns as int, r, c)] == l2[flat(s.columns as int, sd.0 as int, sd.1 as int)]
        }),
    decreases dep[flat(s.columns as int, r, c)],
{
    let cols = s.columns as int;
    let k = region_of(l1[flat(cols, r, c)]);
    let sd = seeds1[k - 1];
    lemma_flat_bounds(s.rows as int, cols, r, c);
    if (r as usize, c as usize) != sd {
        let p = par[flat(cols, r, c)];
        lemma_flat_bounds(s.rows as int, cols, p.0, p.1);
        lemma_region_to_seed(s, conn, l1, seeds1, par, dep, s2, l2, seeds2, p.0, p.1);
        let d = choose|d: int| participates(conn, d) && r == p.0 + row_delta(d) && c == p.1 + col_delta(d);
        assert(step(s.rows as int, s.columns as int, p.0, p.1, d) == Some((r, c)));
        assert(s2.at(r, c) == label_value(l1[flat(cols, r, c)]));
        assert(s2.at(p.0, p.1) == label_value(l1[flat(cols, p.0, p.1)]));
        assert(seedable(s2, false, r, c));
        assert(seedable(s2, false, p.0, p.1));
        assert(joins(s2, false, p.0, p.1, d));
        assert(region_of(l2[flat(cols, p.0, p.1)]) > 0);
        assert(closed(s2, conn, false, l2, p.0, p.1));
    }
}

/// Labelling the raster read back from a labelling, with no background,
/// gives the same partition: the same cells hold no data, and two region
/// cells share a label afterwards exactly when they shared one before.
pub proof fn lemma_relabel_same_partition(
    s: Surface,
    conn: Connectivity,
    l1: Seq<RegionLabel>,
    seeds1: Seq<(usize, usize)>,
    s2: Surface,
    l2: Seq<RegionLabel>,
    seeds2: Seq<(usize, usize)>,
)
    requires
        s.wf(),
        region_labelling(s, conn, false, l1, seeds1),
        numbers_fit(l1),
        s2.rows == s.rows,
        s2.columns == s.columns,
        s2.cells@.len() == l1.len(),
        forall|i: int| 0 <= i < l1.len() ==> #[trigger] s2.cells@[i] == label_value(l1[i]),
        region_labelling(s2, conn, false, l2, seeds2),
    ensures
        forall|r: int, c: int|
            s.in_grid(r, c) ==> (#[trigger] l2[flat(s.columns as int, r, c)] == RegionLabel::NoData
                <==> l1[flat(s.columns as int, r, c)] == RegionLabel::NoData),
        forall|r1: int, c1: int, r2: int, c2: int|
            s.in_grid(r1, c1) && s.in_grid(r2, c2) ==> (#[trigger] l1[flat(s.columns as int, r1, c1)]
                == #[trigger] l1[flat(s.columns as int, r2, c2)] <==> l2[flat(s.columns as int, r1, c1)]
                == l2[flat(s.columns as int, r2, c2)]),
{
    let cols = s.columns as int;
    let (par, dep) = choose|par: Seq<(int, int)>, dep: Seq<nat>| region_forest(s, conn, l1, seeds1, par, dep);
    assert forall|r: int, c: int|
        s.in_grid(r, c) implies (#[trigger] l2[flat(cols, r, c)] == RegionLabel::NoData
            <==> l1[flat(cols, r, c)] == RegionLabel::NoData) by {
        lemma_flat_bounds(s.rows as int, cols, r, c);
        if s.at(r, c) is Some {
            assert(seedable(s, false, r, c));
        }
        if s2.at(r, c) is Some {
            assert(seedable(s2, false, r, c));
        }
    }
    assert forall|r1: int, c1: int, r2: int, c2: int|
        s.in_grid(r1, c1) && s.in_grid(r2, c2) implies (#[trigger] l1[flat(cols, r1, c1)]
            == #[trigger] l1[flat(cols, r2, c2)] <==> l2[flat(cols, r1, c1)]
            == l2[flat(cols, r2, c2)]) by {
        let f1 = flat(cols, r1, c1);
        let f2 = flat(cols, r2, c2);
        lemma_flat_bounds(s.rows as int, cols, r1, c1);
        lemma_flat_bounds(s.rows as int, cols, r2, c2);
        if s.at(r1, c1) is Some {
            assert(seedable(s, false, r1, c1));
        }
        if s.at(r2, c2) is Some {
            assert(seedable(s, false, r2, c2));
        }
        if s2.at(r1, c1) is Some {
            assert(seedable(s2, false, r1, c1));
        }
        if s2.at(r2, c2) is Some {
            assert(seedable(s2, false, r2, c2));
        }
        if l1[f1] == l1[f2] && region_of(l1[f1]) > 0 {
            lemma_region_to_seed(s, conn, l1, seeds1, par, dep, s2, l2, seeds2, r1, c1);
            lemma_region_to_seed(s, conn, l1, seeds1, par, dep, s2, l2, seeds2, r2, c2);
        }
        if l2[f1] == l2[f2] && region_of(l2[f1]) > 0 {
            let sd = seeds2[region_of(l2[f1]) - 1];
            assert(s2.at(r1, c1) == s2.at(sd.0 as int, sd.1 as int));
            assert(s2.at(r2, c2) == s2.at(sd.0 as int, sd.1 as int));
            assert(label_value(l1[f1]) == label_value(l1[f2]));
            assert(region_of(l1[f1]) <= i64::MAX);
            assert(region_of(l1[f2]) <= i64::MAX);
        }
    }
}

} // verus!




