use vstd::prelude::*;
use crate::addressing::{code_direction, neighbour, step, PointerScheme, PointerTable};
use crate::surface::{flat, lemma_flat_bounds, lemma_flat_injective, Surface};

verus! {

/// The basin a cell drains to, or `NoData` where it drains to no outlet.
#[derive(Clone, Copy, PartialEq, Eq, Structural, Debug)]
pub enum BasinLabel {
    NoData,
    Basin(u64),
}

/// A pointer value that marks an outlet: it holds data and is not positive.
pub open spec fn is_pit_code(v: Option<i64>) -> bool {
    match v {
        Some(z) => z <= 0,
        None => false,
    }
}

/// Number of outlet cells among the first `i` cells in row-major order.
pub open spec fn pits_before(cells: Seq<Option<i64>>, i: int) -> nat
    decreases i,
{
    if i <= 0 {
        0
    } else {
        pits_before(cells, i - 1) + if is_pit_code(cells[i - 1]) {
            1nat
        } else {
            0nat
        }
    }
}

/// The label a cell has before any walk: `NoData` where the pointer raster
/// has no data, the next basin number (counted in row-major order from 1)
/// at an outlet, and none otherwise.
pub open spec fn pre_label(s: Surface, r: int, c: int) -> Option<BasinLabel> {
    pre_label_at(s.cells@, flat(s.columns as int, r, c))
}

/// The label before any walk of the cell stored at position `f`.
pub open spec fn pre_label_at(cells: Seq<Option<i64>>, f: int) -> Option<BasinLabel> {
    match cells[f] {
        None => Some(BasinLabel::NoData),
        Some(z) => if z <= 0 {
            Some(BasinLabel::Basin((pits_before(cells, f) + 1) as u64))
        } else {
            None
        },
    }
}

proof fn lemma_pits_bound(cells: Seq<Option<i64>>, i: int)
    requires
        0 <= i,
    ensures
        pits_before(cells, i) <= i,
    decreases i,
{
    if i > 0 {
        lemma_pits_bound(cells, i - 1);
    }
}

/// Number of entries below `i` that do not carry stamp `id`.
pub open spec fn unstamped(stamp: Seq<usize>, id: usize, i: int) -> nat
    decreases i,
{
    if i <= 0 {
        0
    } else {
        unstamped(stamp, id, i - 1) + if stamp[i - 1] == id {
            0nat
        } else {
            1nat
        }
    }
}

proof fn lemma_unstamped_update(stamp: Seq<usize>, id: usize, j: int, i: int)
    requires
        0 <= j < stamp.len(),
        stamp[j] != id,
        0 <= i <= stamp.len(),
    ensures
        unstamped(stamp.update(j, id), id, i) + (if j < i {
            1nat
        } else {
            0nat
        }) == unstamped(stamp, id, i),
    decreases i,
{
    if i > 0 {
        lemma_unstamped_update(stamp, id, j, i - 1);
    }
}

proof fn lemma_unstamped_bound(stamp: Seq<usize>, id: usize, i: int)
    requires
        0 <= i <= stamp.len(),
    ensures
        unstamped(stamp, id, i) <= i,
        (forall|j: int| 0 <= j < i ==> stamp[j] != id) ==> unstamped(stamp, id, i) == i,
    decreases i,
{
    if i > 0 {
        lemma_unstamped_bound(stamp, id, i - 1);
    }
}

/// The cell that `(r, c)` points to; `None` where its code names no
/// direction or points off the grid.
pub open spec fn next_cell(s: Surface, scheme: PointerScheme, r: int, c: int) -> Option<(int, int)> {
    match s.at(r, c) {
        Some(z) => if z > 0 {
            match code_direction(scheme, z as int) {
                Some(d) => step(s.rows as int, s.columns as int, r, c, d),
                None => None,
            }
        } else {
            None
        },
        None => None,
    }
}

/// The label at the end of the pointer chain from `(r, c)` if the chain
/// ends within `k` steps: at a cell that is labelled from the start, or at
/// a cell that points nowhere (labelled `NoData`).
pub open spec fn outlet(s: Surface, scheme: PointerScheme, r: int, c: int, k: nat) -> Option<BasinLabel>
    decreases k,
{
    match pre_label(s, r, c) {
        Some(l) => Some(l),
        None => match next_cell(s, scheme, r, c) {
            None => Some(BasinLabel::NoData),
            Some(n) => if k == 0 {
                None
            } else {
                outlet(s, scheme, n.0, n.1, (k - 1) as nat)
            },
        },
    }
}

/// The pointer chain from `(r, c)` ends.
pub open spec fn terminates(s: Surface, scheme: PointerScheme, r: int, c: int) -> bool {
    exists|k: nat| #[trigger] outlet(s, scheme, r, c, k) is Some
}

/// What the resolver states of a label `l` at `(r, c)`: it is where the
/// chain ends, found within `k` steps, or the chain never ends and `l` is
/// `NoData`.
pub open spec fn label_ok(s: Surface, scheme: PointerScheme, r: int, c: int, l: BasinLabel, k: nat) -> bool {
    outlet(s, scheme, r, c, k) == Some(l) || (l == BasinLabel::NoData && !terminates(s, scheme, r, c))
}

/// A walk of pointer steps through unlabelled cells.
pub open spec fn is_chain(s: Surface, scheme: PointerScheme, path: Seq<(int, int)>) -> bool {
    &&& forall|i: int| 0 <= i < path.len() ==> pre_label(s, (#[trigger] path[i]).0, path[i].1) is None
    &&& forall|i: int|
        0 <= i < path.len() - 1 ==> next_cell(s, scheme, (#[trigger] path[i]).0, path[i].1) == Some(
            path[i + 1],
        )
}

/// Where the last cell of a chain leads to a label within `base` steps,
/// each cell of the chain does, within as many more steps as it lies
/// before the end.
proof fn lemma_chain_ends(s: Surface, scheme: PointerScheme, path: Seq<(int, int)>, l: BasinLabel, base: nat, i: int)
    requires
        is_chain(s, scheme, path),
        path.len() > 0,
        outlet(s, scheme, path.last().0, path.last().1, base) == Some(l),
        0 <= i < path.len(),
    ensures
        outlet(s, scheme, path[i].0, path[i].1, (base + (path.len() - 1 - i)) as nat) == Some(l),
    decreases path.len() - i,
{
    if i < path.len() - 1 {
        lemma_chain_ends(s, scheme, path, l, base, i + 1);
        assert(pre_label(s, path[i].0, path[i].1) is None);
        assert(next_cell(s, scheme, path[i].0, path[i].1) == Some(path[i + 1]));
    }
}

/// Where the last cell of a chain points to a cell whose chain never ends,
/// or back into the chain itself, no cell of the chain ends within `k`.
proof fn lemma_chain_endless(s: Surface, scheme: PointerScheme, path: Seq<(int, int)>, x: (int, int), k: nat)
    requires
        is_chain(s, scheme, path),
        path.len() > 0,
        next_cell(s, scheme, path.last().0, path.last().1) == Some(x),
        path.contains(x) || !terminates(s, scheme, x.0, x.1),
    ensures
        forall|i: int| 0 <= i < path.len() ==> outlet(s, scheme, (#[trigger] path[i]).0, path[i].1, k) is None,
    decreases k,
{
    if k > 0 {
        lemma_chain_endless(s, scheme, path, x, (k - 1) as nat);
        assert forall|i: int| 0 <= i < path.len() implies outlet(s, scheme, (#[trigger] path[i]).0, path[i].1, k) is None by {
            assert(pre_label(s, path[i].0, path[i].1) is None);
            if i < path.len() - 1 {
                assert(next_cell(s, scheme, path[i].0, path[i].1) == Some(path[i + 1]));
            } else if path.contains(x) {
                let j = choose|j: int| 0 <= j < path.len() && path[j] == x;
                assert(outlet(s, scheme, path[j].0, path[j].1, (k - 1) as nat) is None);
            } else {
                if outlet(s, scheme, x.0, x.1, (k - 1) as nat) is Some {
                    assert(terminates(s, scheme, x.0, x.1));
                }
            }
        }
    } else {
        assert forall|i: int| 0 <= i < path.len() implies outlet(s, scheme, (#[trigger] path[i]).0, path[i].1, k) is None by {
            assert(pre_label(s, path[i].0, path[i].1) is None);
            if i < path.len() - 1 {
                assert(next_cell(s, scheme, path[i].0, path[i].1) == Some(path[i + 1]));
            }
        }
    }
}

/// The cell that `(r, c)` points to.
fn next_of(s: &Surface, table: &PointerTable, r: usize, c: usize) -> (n: Option<(usize, usize)>)
    requires
        s.wf(),
        table.wf(),
        s.in_grid(r as int, c as int),
    ensures
        match n {
            Some(p) => next_cell(*s, table.scheme(), r as int, c as int) == Some((p.0 as int, p.1 as int)),
            None => next_cell(*s, table.scheme(), r as int, c as int) is None,
        },
{
    match s.get(r, c) {
        Some(z) => {
            if z > 0 {
                match table.direction(z) {
                    Some(d) => {
                        proof {
                            crate::addressing::lemma_pointer_bijection(table.scheme());
                            assert(d < 8) by {
                                let k = choose|k: int| 0 <= k < 8 && crate::addressing::bit_code(k) == z;
                                assert(code_direction(table.scheme(), crate::addressing::bit_code(k)) == Some(crate::addressing::bit_direction(table.scheme(), k)));
                            }
                        }
                        neighbour(s.rows, s.columns, r, c, d)
                    },
                    None => None,
                }
            } else {
                None
            }
        },
        None => None,
    }
}

/// The facts that the first walk keeps about its chain.
pub open spec fn walk_facts(s: Surface, scheme: PointerScheme, labels0: Seq<Option<BasinLabel>>, stamp: Seq<usize>, path: Seq<(int, int)>, id: usize) -> bool {
    let cols = s.columns as int;
    &&& is_chain(s, scheme, path)
    &&& forall|i: int| 0 <= i < path.len() ==> s.in_grid((#[trigger] path[i]).0, path[i].1)
    &&& forall|i: int|
        0 <= i < path.len() ==> labels0[flat(cols, (#[trigger] path[i]).0, path[i].1)] is None
    &&& forall|i: int|
        0 <= i < path.len() ==> stamp[flat(cols, (#[trigger] path[i]).0, path[i].1)] == id
    &&& forall|a: int, b: int|
        s.in_grid(a, b) && #[trigger] stamp[flat(cols, a, b)] == id ==> path.contains((a, b))
}

/// Extending the first walk by one unlabelled, unstamped cell keeps its
/// facts.
proof fn lemma_walk_step(
    s: Surface,
    scheme: PointerScheme,
    labels0: Seq<Option<BasinLabel>>,
    stamp_before: Seq<usize>,
    path_before: Seq<(int, int)>,
    q: (int, int),
    id: usize,
)
    requires
        s.wf(),
        labels0.len() == s.cells@.len(),
        stamp_before.len() == s.cells@.len(),
        s.in_grid(q.0, q.1),
        stamp_before[flat(s.columns as int, q.0, q.1)] != id,
        labels0[flat(s.columns as int, q.0, q.1)] is None,
        forall|a: int, b: int|
            s.in_grid(a, b) && (#[trigger] pre_label(s, a, b)) is Some ==> labels0[flat(s.columns as int, a, b)]
                == pre_label(s, a, b),
        path_before.len() >= 1,
        next_cell(s, scheme, path_before.last().0, path_before.last().1) == Some(q),
        walk_facts(s, scheme, labels0, stamp_before, path_before, id),
    ensures
        walk_facts(
            s,
            scheme,
            labels0,
            stamp_before.update(flat(s.columns as int, q.0, q.1), id),
            path_before.push(q),
            id,
        ),
{
    let cols = s.columns as int;
    let path = path_before.push(q);
    let stamp = stamp_before.update(flat(cols, q.0, q.1), id);
    lemma_flat_bounds(s.rows as int, cols, q.0, q.1);
    if pre_label(s, q.0, q.1) is Some {
        assert(labels0[flat(cols, q.0, q.1)] == pre_label(s, q.0, q.1));
    }
    assert forall|i: int| 0 <= i < path.len() - 1 implies next_cell(
        s,
        scheme,
        (#[trigger] path[i]).0,
        path[i].1,
    ) == Some(path[i + 1]) by {
        if i < path.len() - 2 {
            assert(path_before[i] == path[i]);
            assert(path_before[i + 1] == path[i + 1]);
        }
    }
    assert forall|i: int| 0 <= i < path.len() implies pre_label(s, (#[trigger] path[i]).0, path[i].1)
        is None by {
        if i < path.len() - 1 {
            assert(path_before[i] == path[i]);
        }
    }
    assert forall|i: int| 0 <= i < path.len() implies stamp[flat(cols, (#[trigger] path[i]).0, path[i].1)]
        == id by {
        if i < path.len() - 1 {
            assert(path_before[i] == path[i]);
            lemma_flat_bounds(s.rows as int, cols, path[i].0, path[i].1);
        }
    }
    assert forall|a: int, b: int|
        s.in_grid(a, b) && #[trigger] stamp[flat(cols, a, b)] == id implies path.contains((a, b)) by {
        lemma_flat_bounds(s.rows as int, cols, a, b);
        if (a, b) != q {
            lemma_flat_injective(s.rows as int, cols, a, b, q.0, q.1);
            assert(stamp_before[flat(cols, a, b)] == id);
            assert(path_before.contains((a, b)));
            let j = choose|j: int| 0 <= j < path_before.len() && path_before[j] == (a, b);
            assert(path[j] == (a, b));
        } else {
            assert(path[path.len() - 1] == q);
        }
    }
    assert forall|i: int| 0 <= i < path.len() implies labels0[flat(cols, (#[trigger] path[i]).0, path[i].1)]
        is None by {
        if i < path.len() - 1 {
            assert(path_before[i] == path[i]);
        }
    }
    assert forall|i: int| 0 <= i < path.len() implies s.in_grid((#[trigger] path[i]).0, path[i].1) by {
        if i < path.len() - 1 {
            assert(path_before[i] == path[i]);
        }
    }
}

/// The labels of every cell are right, over the fuel in `fuel`.
pub open spec fn labels_ok(s: Surface, scheme: PointerScheme, labels: Seq<Option<BasinLabel>>, fuel: Seq<nat>) -> bool {
    forall|a: int, b: int|
        s.in_grid(a, b) && (#[trigger] labels[flat(s.columns as int, a, b)]) is Some ==> label_ok(
            s,
            scheme,
            a,
            b,
            labels[flat(s.columns as int, a, b)].unwrap(),
            fuel[flat(s.columns as int, a, b)],
        )
}

/// Some labelled cell has a chain that never ends.
pub open spec fn endless_labelled(s: Surface, scheme: PointerScheme, labels: Seq<Option<BasinLabel>>) -> bool {
    exists|a: int, b: int|
        s.in_grid(a, b) && (#[trigger] labels[flat(s.columns as int, a, b)]) is Some && !terminates(
            s,
            scheme,
            a,
            b,
        )
}

/// Labels the unlabelled cell `(r, c)` and every cell on its pointer chain
/// up to the first labelled cell: a first walk finds the label, a second
/// writes it. Returns whether the chain ran into a cycle.
#[verifier::rlimit(80)]
fn resolve_from(
    s: &Surface,
    table: &PointerTable,
    labels: &mut Vec<Option<BasinLabel>>,
    stamp: &mut Vec<usize>,
    r: usize,
    c: usize,
    Ghost(fuel): Ghost<Seq<nat>>,
) -> (res: (bool, Ghost<Seq<nat>>))
    requires
        s.wf(),
        table.wf(),
        s.in_grid(r as int, c as int),
        old(labels)@.len() == s.cells@.len(),
        old(stamp)@.len() == s.cells@.len(),
        fuel.len() == s.cells@.len(),
        old(labels)@[flat(s.columns as int, r as int, c as int)] is None,
        forall|f: int| 0 <= f < s.cells@.len() ==> #[trigger] old(stamp)@[f] != flat(s.columns as int, r as int, c as int) + 1,
        forall|a: int, b: int|
            s.in_grid(a, b) && (#[trigger] pre_label(*s, a, b)) is Some ==> old(labels)@[flat(s.columns as int, a, b)] == pre_label(*s, a, b),
        labels_ok(*s, table.scheme(), old(labels)@, fuel),
    ensures
        final(labels)@.len() == s.cells@.len(),
        final(stamp)@.len() == s.cells@.len(),
        res.1@.len() == s.cells@.len(),
        final(labels)@[flat(s.columns as int, r as int, c as int)] is Some,
        forall|f: int| 0 <= f < s.cells@.len() && (#[trigger] old(labels)@[f]) is Some ==> final(labels)@[f] == old(labels)@[f],
        forall|f: int| 0 <= f < s.cells@.len() ==> #[trigger] final(stamp)@[f] == old(stamp)@[f] || final(stamp)@[f] == flat(s.columns as int, r as int, c as int) + 1,
        labels_ok(*s, table.scheme(), final(labels)@, res.1@),
        res.0 ==> exists|a: int, b: int| s.in_grid(a, b) && !#[trigger] terminates(*s, table.scheme(), a, b),
        endless_labelled(*s, table.scheme(), final(labels)@) ==> res.0 || endless_labelled(*s, table.scheme(), old(labels)@),
{
    let ghost scheme = table.scheme();
    let ghost cols = s.columns as int;
    let n = s.cells.len();
    let f0 = s.index(r, c);
    let id = f0 + 1;
    let ghost labels0 = labels@;
    proof {
        lemma_unstamped_bound(stamp@, id, n as int);
        lemma_unstamped_update(stamp@, id, f0 as int, n as int);
    }
    let ghost stamp_start = stamp@;
    stamp.set(f0, id);
    let mut cur: (usize, usize) = (r, c);
    let ghost mut path: Seq<(int, int)> = seq![(r as int, c as int)];
    proof {
        assert forall|a: int, b: int|
            s.in_grid(a, b) && #[trigger] stamp@[flat(cols, a, b)] == id implies path.contains((a, b)) by {
            lemma_flat_bounds(s.rows as int, cols, a, b);
            if (a, b) != (r as int, c as int) {
                lemma_flat_injective(s.rows as int, cols, a, b, r as int, c as int);
                assert(stamp_start[flat(cols, a, b)] != id);
            }
            assert(path[0] == (r as int, c as int));
        }
        lemma_flat_bounds(s.rows as int, cols, r as int, c as int);
        assert(stamp@[flat(cols, path[0].0, path[0].1)] == id);
        if pre_label(*s, r as int, c as int) is Some {
            assert(labels0[flat(cols, r as int, c as int)] == pre_label(*s, r as int, c as int));
        }
        assert(walk_facts(*s, scheme, labels0, stamp@, path, id));
    }
    let mut steps: usize = 1;
    let mut finished = false;
    let mut cycle = false;
    let mut outcome = BasinLabel::NoData;
    let ghost mut x: (int, int) = (0, 0);
    let ghost mut kind: int = 0;
    while !finished
        invariant
            s.wf(),
            table.wf(),
            scheme == table.scheme(),
            cols == s.columns,
            n == s.cells@.len(),
            labels@ == labels0,
            labels0.len() == n,
            stamp@.len() == n,
            fuel.len() == n,
            id == f0 + 1,
            f0 as int == flat(cols, r as int, c as int),
            forall|a: int, b: int|
                s.in_grid(a, b) && (#[trigger] pre_label(*s, a, b)) is Some ==> labels0[flat(cols, a, b)]
                    == pre_label(*s, a, b),
            labels_ok(*s, scheme, labels0, fuel),
            forall|f: int| 0 <= f < n ==> #[trigger] stamp@[f] == old(stamp)@[f] || stamp@[f] == id,
            path.len() == steps,
            steps >= 1,
            steps + unstamped(stamp@, id, n as int) == n,
            path[0] == (r as int, c as int),
            path.last() == (cur.0 as int, cur.1 as int),
            walk_facts(*s, scheme, labels0, stamp@, path, id),
            finished && kind == 0 ==> next_cell(*s, scheme, path.last().0, path.last().1) is None
                && outcome == BasinLabel::NoData && !cycle,
            finished && kind == 1 ==> next_cell(*s, scheme, path.last().0, path.last().1) == Some(x)
                && s.in_grid(x.0, x.1) && labels0[flat(cols, x.0, x.1)] == Some(outcome) && !cycle,
            finished && kind == 2 ==> next_cell(*s, scheme, path.last().0, path.last().1) == Some(x)
                && path.contains(x) && outcome == BasinLabel::NoData && cycle,
            finished ==> 0 <= kind <= 2,
            !finished ==> outcome == BasinLabel::NoData && !cycle,
        decreases unstamped(stamp@, id, n as int) + if finished {
            0int
        } else {
            1int
        },
    {
        match next_of(s, table, cur.0, cur.1) {
            None => {
                finished = true;
                proof {
                    kind = 0;
                }
            },
            Some(nx) => {
                let fx = s.index(nx.0, nx.1);
                let ghost q = (nx.0 as int, nx.1 as int);
                match labels[fx] {
                    Some(l) => {
                        outcome = l;
                        finished = true;
                        proof {
                            kind = 1;
                            x = q;
                        }
                    },
                    None => {
                        if stamp[fx] == id {
                            cycle = true;
                            finished = true;
                            proof {
                                kind = 2;
                                x = q;
                            }
                        } else {
                            proof {
                                lemma_unstamped_update(stamp@, id, fx as int, n as int);
                            }
                            let ghost stamp_before = stamp@;
                            let ghost path_before = path;
                            stamp.set(fx, id);
                            proof {
                                path = path.push(q);
                                lemma_walk_step(*s, scheme, labels0, stamp_before, path_before, q, id);
                            }
                            steps = steps + 1;
                            cur = nx;
                        }
                    },
                }
            },
        }
    }
    // What the walk found holds of every cell on it.
    let ghost mut base: nat = 0;
    proof {
        let last = path.last();
        assert(pre_label(*s, last.0, last.1) is None) by {
            assert(path[path.len() - 1] == last);
        }
        if kind == 0 {
            assert(outlet(*s, scheme, last.0, last.1, 0) == Some(BasinLabel::NoData));
            base = 0;
        } else if kind == 1 && outlet(*s, scheme, x.0, x.1, fuel[flat(cols, x.0, x.1)]) == Some(outcome) {
            base = fuel[flat(cols, x.0, x.1)] + 1;
            assert(outlet(*s, scheme, last.0, last.1, base) == Some(outcome));
        }
    }
    let ghost ends: bool = kind == 0 || (kind == 1 && outlet(*s, scheme, x.0, x.1, fuel[flat(cols, x.0, x.1)]) == Some(outcome));
    proof {
        if ends {
            assert forall|i: int| 0 <= i < path.len() implies outlet(
                *s,
                scheme,
                (#[trigger] path[i]).0,
                path[i].1,
                (base + (path.len() - 1 - i)) as nat,
            ) == Some(outcome) by {
                lemma_chain_ends(*s, scheme, path, outcome, base, i);
            }
        } else {
            if kind == 1 {
                assert(labels0[flat(cols, x.0, x.1)] is Some);
                assert(label_ok(*s, scheme, x.0, x.1, outcome, fuel[flat(cols, x.0, x.1)]));
            }
            assert forall|i: int| 0 <= i < path.len() implies !terminates(
                *s,
                scheme,
                (#[trigger] path[i]).0,
                path[i].1,
            ) by {
                if terminates(*s, scheme, path[i].0, path[i].1) {
                    let k = choose|k: nat| #[trigger] outlet(*s, scheme, path[i].0, path[i].1, k) is Some;
                    lemma_chain_endless(*s, scheme, path, x, k);
                }
            }
            assert(outcome == BasinLabel::NoData);
        }
    }
    // Second walk: write the label along the same chain.
    let mut cur2: (usize, usize) = (r, c);
    let ghost mut fuel2 = fuel;
    let mut i: usize = 0;
    while i < steps
        invariant
            s.wf(),
            table.wf(),
            scheme == table.scheme(),
            cols == s.columns,
            n == s.cells@.len(),
            labels@.len() == n,
            labels0.len() == n,
            fuel2.len() == n,
            path.len() == steps,
            i <= steps,
            i < steps ==> (cur2.0 as int, cur2.1 as int) == path[i as int],
            f0 as int == flat(cols, r as int, c as int),
            path[0] == (r as int, c as int),
            is_chain(*s, scheme, path),
            forall|j: int| 0 <= j < path.len() ==> s.in_grid((#[trigger] path[j]).0, path[j].1),
            forall|j: int|
                0 <= j < path.len() ==> labels0[flat(cols, (#[trigger] path[j]).0, path[j].1)] is None,
            forall|j: int|
                0 <= j < path.len() ==> label_ok(
                    *s,
                    scheme,
                    (#[trigger] path[j]).0,
                    path[j].1,
                    outcome,
                    (base + (path.len() - 1 - j)) as nat,
                ),
            forall|f: int| 0 <= f < n && (#[trigger] labels0[f]) is Some ==> labels@[f] == labels0[f],
            labels_ok(*s, scheme, labels@, fuel2),
            i > 0 ==> labels@[f0 as int] is Some,
            f0 < n,
            forall|a: int, b: int|
                s.in_grid(a, b) && (#[trigger] labels@[flat(cols, a, b)]) is Some ==> labels0[flat(cols, a, b)] is Some
                    || (labels@[flat(cols, a, b)] == Some(outcome) && path.contains((a, b))),
        decreases steps - i,
    {
        let f = s.index(cur2.0, cur2.1);
        let ghost p = path[i as int];
        let ghost labels_before = labels@;
        let ghost fuel_before = fuel2;
        labels.set(f, Some(outcome));
        proof {
            fuel2 = fuel2.update(f as int, (base + (path.len() - 1 - i)) as nat);
            assert(label_ok(*s, scheme, p.0, p.1, outcome, (base + (path.len() - 1 - i)) as nat));
            assert forall|a: int, b: int|
                s.in_grid(a, b) && (#[trigger] labels@[flat(cols, a, b)]) is Some implies label_ok(
                *s,
                scheme,
                a,
                b,
                labels@[flat(cols, a, b)].unwrap(),
                fuel2[flat(cols, a, b)],
            ) by {
                lemma_flat_bounds(s.rows as int, cols, a, b);
                if (a, b) != p {
                    lemma_flat_injective(s.rows as int, cols, a, b, p.0, p.1);
                    assert(labels_before[flat(cols, a, b)] is Some);
                }
            }
            assert forall|a: int, b: int|
                s.in_grid(a, b) && (#[trigger] labels@[flat(cols, a, b)]) is Some implies labels0[flat(cols, a, b)] is Some
                    || (labels@[flat(cols, a, b)] == Some(outcome) && path.contains((a, b))) by {
                lemma_flat_bounds(s.rows as int, cols, a, b);
                if (a, b) != p {
                    lemma_flat_injective(s.rows as int, cols, a, b, p.0, p.1);
                    assert(labels_before[flat(cols, a, b)] is Some);
                } else {
                    assert(path[i as int] == p);
                }
            }
            if f != f0 {
                assert(labels_before[f0 as int] is Some);
            }
            assert forall|g: int| 0 <= g < n && (#[trigger] labels0[g]) is Some implies labels@[g] == labels0[g] by {
                if g == f {
                    assert(labels0[flat(cols, p.0, p.1)] is None);
                }
            }
        }
        if i + 1 < steps {
            proof {
                assert(next_cell(*s, scheme, path[i as int].0, path[i as int].1) == Some(path[i + 1]));
            }
            cur2 = next_of(s, table, cur2.0, cur2.1).unwrap();
        }
        i = i + 1;
    }
    proof {
        if endless_labelled(*s, scheme, labels@) {
            let (a, b) = choose|a: int, b: int|
                s.in_grid(a, b) && (#[trigger] labels@[flat(cols, a, b)]) is Some && !terminates(*s, scheme, a, b);
            if labels0[flat(cols, a, b)] is Some {
                assert(endless_labelled(*s, scheme, labels0));
            } else {
                let j = choose|j: int| 0 <= j < path.len() && path[j] == (a, b);
                assert(label_ok(*s, scheme, path[j].0, path[j].1, outcome, (base + (path.len() - 1 - j)) as nat));
                if ends {
                    assert(outlet(*s, scheme, path[j].0, path[j].1, (base + (path.len() - 1 - j)) as nat) is Some);
                    assert(terminates(*s, scheme, a, b));
                } else if kind == 1 {
                    assert(labels0[flat(cols, x.0, x.1)] is Some);
                    assert(label_ok(*s, scheme, x.0, x.1, outcome, fuel[flat(cols, x.0, x.1)]));
                    assert(!terminates(*s, scheme, x.0, x.1));
                    assert(endless_labelled(*s, scheme, labels0));
                }
            }
        }
        if cycle {
            assert(!terminates(*s, scheme, path[0].0, path[0].1));
        }
    }
    (cycle, Ghost(fuel2))
}

/// Basin labels of a pointer raster, in row-major order, and whether some
/// pointer chain runs in a cycle.
pub struct BasinMap {
    pub labels: Vec<BasinLabel>,
    pub cycle_found: bool,
}

/// Delineates the basin of every cell of a pointer raster.
///
/// Outlet cells (data, code not positive) are numbered from 1 in row-major
/// order; cells without data are `NoData`. Every other cell gets the label
/// at the end of its pointer chain: the first outlet or no-data cell it
/// reaches, or `NoData` where the chain meets a code that names no
/// direction, leaves the grid, or runs in a cycle. A cycle is reported.
pub fn delineate_basins(s: &Surface, scheme: PointerScheme) -> (m: BasinMap)
    requires
        s.wf(),
    ensures
        m.labels@.len() == s.cells@.len(),
        forall|r: int, c: int|
            s.in_grid(r, c) && #[trigger] terminates(*s, scheme, r, c) ==> exists|k: nat|
                outlet(*s, scheme, r, c, k) == Some(m.labels@[flat(s.columns as int, r, c)]),
        forall|r: int, c: int|
            s.in_grid(r, c) && !#[trigger] terminates(*s, scheme, r, c) ==> m.labels@[flat(
                s.columns as int,
                r,
                c,
            )] == BasinLabel::NoData,
        m.cycle_found <==> exists|r: int, c: int|
            s.in_grid(r, c) && !#[trigger] terminates(*s, scheme, r, c),
{
    let table = PointerTable::new(scheme);
    let n = s.cells.len();
    let cols = s.columns;
    // Label the outlets and the cells without data.
    let mut labels: Vec<Option<BasinLabel>> = Vec::new();
    let mut stamp: Vec<usize> = Vec::new();
    let mut count: u64 = 0;
    let mut i: usize = 0;
    while i < n
        invariant
            n == s.cells@.len(),
            i <= n,
            labels@.len() == i,
            stamp@.len() == i,
            count as nat == pits_before(s.cells@, i as int),
            forall|j: int| 0 <= j < i ==> #[trigger] labels@[j] == pre_label_at(s.cells@, j),
            forall|j: int| 0 <= j < i ==> #[trigger] stamp@[j] == 0,
        decreases n - i,
    {
        proof {
            lemma_pits_bound(s.cells@, i as int);
        }
        match s.cells[i] {
            None => labels.push(Some(BasinLabel::NoData)),
            Some(z) => {
                if z <= 0 {
                    count = count + 1;
                    labels.push(Some(BasinLabel::Basin(count)));
                } else {
                    labels.push(None);
                }
            },
        }
        stamp.push(0);
        i = i + 1;
    }
    let ghost mut fuel: Seq<nat> = Seq::new(n as nat, |j: int| 0nat);
    proof {
        assert forall|a: int, b: int|
            s.in_grid(a, b) && (#[trigger] labels@[flat(cols as int, a, b)]) is Some implies label_ok(
            *s,
            scheme,
            a,
            b,
            labels@[flat(cols as int, a, b)].unwrap(),
            fuel[flat(cols as int, a, b)],
        ) by {
            lemma_flat_bounds(s.rows as int, cols as int, a, b);
        }
        assert forall|a: int, b: int|
            s.in_grid(a, b) && (#[trigger] pre_label(*s, a, b)) is Some implies labels@[flat(cols as int, a, b)]
                == pre_label(*s, a, b) by {
            lemma_flat_bounds(s.rows as int, cols as int, a, b);
        }
        assert(!endless_labelled(*s, scheme, labels@)) by {
            if endless_labelled(*s, scheme, labels@) {
                let (a, b) = choose|a: int, b: int|
                    s.in_grid(a, b) && (#[trigger] labels@[flat(cols as int, a, b)]) is Some && !terminates(*s, scheme, a, b);
                lemma_flat_bounds(s.rows as int, cols as int, a, b);
                assert(outlet(*s, scheme, a, b, 0) is Some);
            }
        }
    }
    // Resolve the rest, one chain at a time.
    let mut cycle_found = false;
    let mut pos: usize = 0;
    let mut r: usize = 0;
    while r < s.rows
        invariant
            s.wf(),
            table.wf(),
            table.scheme() == scheme,
            n == s.cells@.len(),
            cols == s.columns,
            r <= s.rows,
            pos as int == r * cols,
            labels@.len() == n,
            stamp@.len() == n,
            fuel.len() == n,
            forall|f: int| 0 <= f < n ==> #[trigger] stamp@[f] <= pos,
            forall|a: int, b: int|
                s.in_grid(a, b) && (#[trigger] pre_label(*s, a, b)) is Some ==> labels@[flat(cols as int, a, b)]
                    == pre_label(*s, a, b),
            labels_ok(*s, scheme, labels@, fuel),
            cycle_found ==> exists|a: int, b: int| s.in_grid(a, b) && !#[trigger] terminates(*s, scheme, a, b),
            endless_labelled(*s, scheme, labels@) ==> cycle_found,
            forall|a: int, b: int|
                s.in_grid(a, b) && a < r ==> (#[trigger] labels@[flat(cols as int, a, b)]) is Some,
        decreases s.rows - r,
    {
        let mut c: usize = 0;
        while c < cols
            invariant
                s.wf(),
                table.wf(),
                table.scheme() == scheme,
                n == s.cells@.len(),
                cols == s.columns,
                r < s.rows,
                c <= cols,
                pos as int == r * cols + c,
                labels@.len() == n,
                stamp@.len() == n,
                fuel.len() == n,
                forall|f: int| 0 <= f < n ==> #[trigger] stamp@[f] <= pos,
                forall|a: int, b: int|
                    s.in_grid(a, b) && (#[trigger] pre_label(*s, a, b)) is Some ==> labels@[flat(cols as int, a, b)]
                        == pre_label(*s, a, b),
                labels_ok(*s, scheme, labels@, fuel),
                cycle_found ==> exists|a: int, b: int| s.in_grid(a, b) && !#[trigger] terminates(*s, scheme, a, b),
                endless_labelled(*s, scheme, labels@) ==> cycle_found,
                forall|a: int, b: int|
                    s.in_grid(a, b) && (a < r || (a == r && b < c)) ==> (#[trigger] labels@[flat(cols as int, a, b)]) is Some,
            decreases cols - c,
        {
            let f = s.index(r, c);
            if labels[f].is_none() {
                let ghost labels_before = labels@;
                let ghost stamp_before = stamp@;
                let (found, Ghost(fuel_after)) = resolve_from(s, &table, &mut labels, &mut stamp, r, c, Ghost(fuel));
                proof {
                    fuel = fuel_after;
                    assert forall|a: int, b: int|
                        s.in_grid(a, b) && (#[trigger] pre_label(*s, a, b)) is Some implies labels@[flat(cols as int, a, b)]
                            == pre_label(*s, a, b) by {
                        lemma_flat_bounds(s.rows as int, cols as int, a, b);
                        assert(labels_before[flat(cols as int, a, b)] is Some);
                    }
                    assert forall|a: int, b: int|
                        s.in_grid(a, b) && (a < r || (a == r && b < c + 1)) implies (#[trigger] labels@[flat(cols as int, a, b)]) is Some by {
                        lemma_flat_bounds(s.rows as int, cols as int, a, b);
                        if (a, b) != (r as int, c as int) {
                            assert(labels_before[flat(cols as int, a, b)] is Some);
                        }
                    }
                    assert forall|g: int| 0 <= g < n implies #[trigger] stamp@[g] <= pos + 1 by {
                        assert(stamp_before[g] <= pos);
                    }
                }
                cycle_found = cycle_found || found;
            }
            proof {
                lemma_flat_bounds(s.rows as int, cols as int, r as int, c as int);
            }
            pos = pos + 1;
            c = c + 1;
        }
        proof {
            assert((r + 1) * cols == r * cols + cols) by (nonlinear_arith);
        }
        r = r + 1;
    }
    // Every cell is labelled now.
    let mut out: Vec<BasinLabel> = Vec::new();
    let mut r: usize = 0;
    while r < s.rows
        invariant
            s.wf(),
            n == s.cells@.len(),
            cols == s.columns,
            r <= s.rows,
            labels@.len() == n,
            out@.len() == r * cols,
            forall|a: int, b: int| s.in_grid(a, b) ==> (#[trigger] labels@[flat(cols as int, a, b)]) is Some,
            forall|a: int, b: int|
                s.in_grid(a, b) && a < r ==> #[trigger] out@[flat(cols as int, a, b)] == labels@[flat(cols as int, a, b)].unwrap(),
        decreases s.rows - r,
    {
        let mut c: usize = 0;
        let ghost out_row = out@;
        while c < cols
            invariant
                s.wf(),
                n == s.cells@.len(),
                cols == s.columns,
                r < s.rows,
                c <= cols,
                labels@.len() == n,
                out@.len() == r * cols + c,
                out@.subrange(0, r * cols) == out_row,
                forall|a: int, b: int| s.in_grid(a, b) ==> (#[trigger] labels@[flat(cols as int, a, b)]) is Some,
                forall|b: int| 0 <= b < c ==> #[trigger] out@[r * cols + b] == labels@[flat(cols as int, r as int, b)].unwrap(),
            decreases cols - c,
        {
            let f = s.index(r, c);
            let l = labels[f].unwrap();
            out.push(l);
            assert(out@.subrange(0, r * cols) == out_row);
            c = c + 1;
        }
        proof {
            assert((r + 1) * cols == r * cols + cols) by (nonlinear_arith);
            assert forall|a: int, b: int|
                s.in_grid(a, b) && a < r + 1 implies #[trigger] out@[flat(cols as int, a, b)] == labels@[flat(cols as int, a, b)].unwrap() by {
                if a < r {
                    lemma_flat_bounds(r as int, cols as int, a, b);
                    assert(out@[flat(cols as int, a, b)] == out_row[flat(cols as int, a, b)]);
                }
            }
        }
        r = r + 1;
    }
    proof {
        assert forall|a: int, b: int|
            s.in_grid(a, b) && #[trigger] terminates(*s, scheme, a, b) implies exists|k: nat|
                outlet(*s, scheme, a, b, k) == Some(out@[flat(s.columns as int, a, b)]) by {
            assert(labels@[flat(cols as int, a, b)] is Some);
            assert(label_ok(*s, scheme, a, b, labels@[flat(cols as int, a, b)].unwrap(), fuel[flat(cols as int, a, b)]));
        }
        assert forall|a: int, b: int|
            s.in_grid(a, b) && !#[trigger] terminates(*s, scheme, a, b) implies out@[flat(s.columns as int, a, b)]
                == BasinLabel::NoData by {
            assert(labels@[flat(cols as int, a, b)] is Some);
            let l = labels@[flat(cols as int, a, b)].unwrap();
            assert(label_ok(*s, scheme, a, b, l, fuel[flat(cols as int, a, b)]));
            if outlet(*s, scheme, a, b, fuel[flat(cols as int, a, b)]) == Some(l) {
                assert(terminates(*s, scheme, a, b));
            }
        }
        if exists|a: int, b: int| s.in_grid(a, b) && !#[trigger] terminates(*s, scheme, a, b) {
            let (a, b) = choose|a: int, b: int| s.in_grid(a, b) && !#[trigger] terminates(*s, scheme, a, b);
            assert(labels@[flat(cols as int, a, b)] is Some);
            assert(endless_labelled(*s, scheme, labels@));
        }
    }
    BasinMap { labels: out, cycle_found }
}

} // verus!
