//! Shortest paths over free cells: a step moves to an orthogonally adjacent
//! free cell, and distance is the least number of steps.

use vstd::prelude::*;
use crate::combat::{adjacent, dim_bound, Battle, BoardV};

verus! {

/// One legal step: to an adjacent cell that is open and empty.
pub open spec fn step_ok(b: BoardV, a: (int, int), c: (int, int)) -> bool {
    adjacent(a, c) && b.is_free(c)
}

/// Whether a path of at most `k` steps leads from `from` to `to`; every cell
/// after `from` must be free, so the start may be occupied but the end,
/// when distinct, may not.
pub open spec fn has_path(b: BoardV, from: (int, int), to: (int, int), k: nat) -> bool
    decreases k,
{
    if from == to {
        true
    } else if k == 0 {
        false
    } else {
        exists|m: (int, int)| step_ok(b, from, m) && has_path(b, m, to, (k - 1) as nat)
    }
}

/// Whether `to` can be reached from `from` at all: any reachable cell is
/// reachable within `area` steps.
pub open spec fn reachable(b: BoardV, from: (int, int), to: (int, int)) -> bool {
    has_path(b, from, to, b.area() as nat)
}

/// Helper for `min_dist`: the least `j >= k` with a path of at most `j`
/// steps, capped at `area`.
pub open spec fn min_dist_from(b: BoardV, from: (int, int), to: (int, int), k: nat) -> nat
    decreases b.area() - k,
    when k <= b.area()
{
    if has_path(b, from, to, k) || k >= b.area() {
        k
    } else {
        min_dist_from(b, from, to, k + 1)
    }
}

/// The length of a shortest path from `from` to `to`; `area` when `to` is
/// unreachable.
pub open spec fn min_dist(b: BoardV, from: (int, int), to: (int, int)) -> nat {
    min_dist_from(b, from, to, 0)
}

/// A path can always take one more step at its end.
pub proof fn lemma_path_extend(b: BoardV, f: (int, int), x: (int, int), y: (int, int), k: nat)
    requires
        has_path(b, f, x, k),
        adjacent(x, y),
        b.is_free(y),
    ensures
        has_path(b, f, y, (k + 1) as nat),
    decreases k,
{
    if f == x {
        assert(step_ok(b, f, y) && has_path(b, y, y, k));
    } else {
        let m = choose|m: (int, int)| step_ok(b, f, m) && has_path(b, m, x, (k - 1) as nat);
        lemma_path_extend(b, m, x, y, (k - 1) as nat);
        assert(step_ok(b, f, m) && has_path(b, m, y, k));
    }
}

/// A path bound can always be slackened.
pub proof fn lemma_path_mono(b: BoardV, f: (int, int), t: (int, int), k: nat, k2: nat)
    requires
        has_path(b, f, t, k),
        k <= k2,
    ensures
        has_path(b, f, t, k2),
    decreases k2,
{
    if f != t && k2 > 0 {
        if k == k2 {
        } else {
            lemma_path_mono(b, f, t, k, (k2 - 1) as nat);
            let m = choose|m: (int, int)|
                step_ok(b, f, m) && has_path(b, m, t, (k2 - 2) as nat);
            assert(step_ok(b, f, m) && has_path(b, m, t, (k2 - 1) as nat)) by {
                lemma_path_mono(b, m, t, (k2 - 2) as nat, (k2 - 1) as nat);
            }
        }
    }
}

/// A path to a distinct destination has a last step: a predecessor adjacent
/// to the destination, itself the start or a free cell.
pub proof fn lemma_path_last_step(b: BoardV, f: (int, int), t: (int, int), k: nat) -> (p: (
    int,
    int,
))
    requires
        has_path(b, f, t, k),
        f != t,
    ensures
        k >= 1,
        b.is_free(t),
        has_path(b, f, p, (k - 1) as nat),
        adjacent(p, t),
        p == f || b.is_free(p),
    decreases k,
{
    let m = choose|m: (int, int)| step_ok(b, f, m) && has_path(b, m, t, (k - 1) as nat);
    if m == t {
        assert(has_path(b, f, f, (k - 1) as nat) && adjacent(f, t));
        f
    } else {
        let p = lemma_path_last_step(b, m, t, (k - 1) as nat);
        assert(step_ok(b, f, m) && has_path(b, m, p, (k - 2) as nat));
        assert(has_path(b, f, p, (k - 1) as nat));
        assert(p == f || b.is_free(p)) by {
            if p == m {
                assert(b.is_free(m));
            }
        }
        p
    }
}

/// Between free endpoints, paths reverse.
pub proof fn lemma_path_reverse(b: BoardV, x: (int, int), y: (int, int), k: nat)
    requires
        has_path(b, x, y, k),
        b.is_free(x),
    ensures
        has_path(b, y, x, k),
    decreases k,
{
    if x != y {
        let p = lemma_path_last_step(b, x, y, k);
        lemma_path_reverse(b, x, p, (k - 1) as nat);
        assert(b.is_free(p));
        assert(step_ok(b, y, p) && has_path(b, p, x, (k - 1) as nat));
    }
}

/// What `min_dist_from` returns: the least step bound at or above `k` that
/// admits a path, when one exists at all.
proof fn lemma_min_dist_from(b: BoardV, f: (int, int), t: (int, int), k: nat)
    requires
        k <= b.area(),
        forall|j: nat| j < k ==> !has_path(b, f, t, j),
    ensures
        k <= min_dist_from(b, f, t, k) <= b.area(),
        has_path(b, f, t, b.area() as nat) ==> has_path(b, f, t, min_dist_from(b, f, t, k)),
        forall|j: nat| j < min_dist_from(b, f, t, k) ==> !has_path(b, f, t, j),
    decreases b.area() - k,
{
    if has_path(b, f, t, k) || k >= b.area() {
        if k >= b.area() && !has_path(b, f, t, k) {
            assert forall|j: nat| j < k implies !has_path(b, f, t, j) by {}
        }
    } else {
        assert forall|j: nat| j < k + 1 implies !has_path(b, f, t, j) by {
            if j == k {
            }
        }
        lemma_min_dist_from(b, f, t, (k + 1) as nat);
    }
}

/// When `to` is reachable, `min_dist` is the exact shortest distance.
pub proof fn lemma_min_dist(b: BoardV, f: (int, int), t: (int, int))
    requires
        reachable(b, f, t),
        b.area() >= 0,
    ensures
        min_dist(b, f, t) <= b.area(),
        has_path(b, f, t, min_dist(b, f, t)),
        forall|j: nat| j < min_dist(b, f, t) ==> !has_path(b, f, t, j),
{
    lemma_min_dist_from(b, f, t, 0);
}

/// A path of `k` steps bounds the shortest distance by `k`.
pub proof fn lemma_min_dist_le(b: BoardV, f: (int, int), t: (int, int), k: nat)
    requires
        has_path(b, f, t, k),
        k <= b.area(),
    ensures
        min_dist(b, f, t) <= k,
        reachable(b, f, t),
{
    lemma_path_mono(b, f, t, k, b.area() as nat);
    lemma_min_dist(b, f, t);
    if min_dist(b, f, t) > k {
        assert(!has_path(b, f, t, k));
    }
}

/// A shortest distance is pinned by a path of length `k` together with the
/// absence of one of length `k - 1`.
pub proof fn lemma_min_dist_eq(b: BoardV, f: (int, int), t: (int, int), k: nat)
    requires
        has_path(b, f, t, k),
        k <= b.area(),
        k > 0 ==> !has_path(b, f, t, (k - 1) as nat),
    ensures
        min_dist(b, f, t) == k,
        reachable(b, f, t),
{
    lemma_min_dist_le(b, f, t, k);
    lemma_min_dist(b, f, t);
    if min_dist(b, f, t) < k {
        lemma_path_mono(b, f, t, min_dist(b, f, t), (k - 1) as nat);
    }
}

/// Between free endpoints the shortest distance is symmetric.
pub proof fn lemma_min_dist_sym(b: BoardV, x: (int, int), y: (int, int))
    requires
        b.is_free(x),
        b.is_free(y),
        reachable(b, x, y),
    ensures
        reachable(b, y, x),
        min_dist(b, y, x) == min_dist(b, x, y),
{
    lemma_min_dist(b, x, y);
    lemma_path_reverse(b, x, y, min_dist(b, x, y));
    lemma_min_dist_le(b, y, x, min_dist(b, x, y));
    lemma_min_dist(b, y, x);
    lemma_path_reverse(b, y, x, min_dist(b, y, x));
    lemma_min_dist_le(b, x, y, min_dist(b, y, x));
}

/// A first step of a shortest path exists: a free neighbour of the start
/// exactly one step closer to the destination.
pub proof fn lemma_first_step_exists(b: BoardV, p: (int, int), t: (int, int)) -> (s: (int, int))
    requires
        reachable(b, p, t),
        p != t,
    ensures
        step_ok(b, p, s),
        min_dist(b, s, t) + 1 == min_dist(b, p, t),
{
    lemma_min_dist(b, p, t);
    let d = min_dist(b, p, t);
    assert(d >= 1);
    let m = choose|m: (int, int)| step_ok(b, p, m) && has_path(b, m, t, (d - 1) as nat);
    lemma_min_dist_le(b, m, t, (d - 1) as nat);
    lemma_min_dist(b, m, t);
    if min_dist(b, m, t) < d - 1 {
        assert(has_path(b, m, t, min_dist(b, m, t)));
        lemma_path_mono(b, m, t, min_dist(b, m, t), (d - 2) as nat);
        assert(step_ok(b, p, m) && has_path(b, m, t, (d - 2) as nat));
        assert(has_path(b, p, t, (d - 1) as nat));
    }
    assert(step_ok(b, p, m) && min_dist(b, m, t) + 1 == min_dist(b, p, t));
    m
}


/// Membership of a cell in a frontier list.
pub open spec fn in_front(f: Seq<(usize, usize)>, r: int, c: int) -> bool {
    exists|t: int| 0 <= t < f.len() && f[t].0 == r && f[t].1 == c
}

/// How many entries of a row are filled.
pub open spec fn row_some(row: Seq<Option<u32>>) -> nat
    decreases row.len(),
{
    if row.len() == 0 {
        0
    } else {
        row_some(row.drop_last()) + if row.last() is Some {
            1nat
        } else {
            0nat
        }
    }
}

/// How many cells of a grid are filled.
pub open spec fn count_some(g: Seq<Seq<Option<u32>>>) -> nat
    decreases g.len(),
{
    if g.len() == 0 {
        0
    } else {
        count_some(g.drop_last()) + row_some(g.last())
    }
}

proof fn lemma_row_some_update(row: Seq<Option<u32>>, c: int, v: u32)
    requires
        0 <= c < row.len(),
        row[c] is None,
    ensures
        row_some(row.update(c, Some(v))) == row_some(row) + 1,
    decreases row.len(),
{
    let row2 = row.update(c, Some(v));
    if c == row.len() - 1 {
        assert(row2.drop_last() =~= row.drop_last());
        assert(row2.last() == Some(v));
        assert(row.last() is None);
    } else {
        assert(row2.drop_last() =~= row.drop_last().update(c, Some(v)));
        assert(row2.last() == row.last());
        lemma_row_some_update(row.drop_last(), c, v);
    }
}

proof fn lemma_count_some_update(g: Seq<Seq<Option<u32>>>, r: int, c: int, v: u32)
    requires
        0 <= r < g.len(),
        0 <= c < g[r].len(),
        g[r][c] is None,
    ensures
        count_some(g.update(r, g[r].update(c, Some(v)))) == count_some(g) + 1,
    decreases g.len(),
{
    let g2 = g.update(r, g[r].update(c, Some(v)));
    if r == g.len() - 1 {
        assert(g2.drop_last() =~= g.drop_last());
        assert(g2.last() == g[r].update(c, Some(v)));
        lemma_row_some_update(g[r], c, v);
    } else {
        assert(g2.drop_last() =~= g.drop_last().update(r, g[r].update(c, Some(v))));
        assert(g2.last() == g.last());
        assert(g.drop_last()[r] == g[r]);
        lemma_count_some_update(g.drop_last(), r, c, v);
    }
}

proof fn lemma_row_some_le(row: Seq<Option<u32>>)
    ensures
        row_some(row) <= row.len(),
    decreases row.len(),
{
    if row.len() > 0 {
        lemma_row_some_le(row.drop_last());
    }
}

proof fn lemma_count_some_le(g: Seq<Seq<Option<u32>>>, cols: int)
    requires
        forall|r: int| 0 <= r < g.len() ==> (#[trigger] g[r]).len() == cols,
    ensures
        count_some(g) <= g.len() * cols,
    decreases g.len(),
{
    if g.len() > 0 {
        assert(forall|r: int|
            0 <= r < g.drop_last().len() ==> (#[trigger] g.drop_last()[r]).len() == cols);
        lemma_count_some_le(g.drop_last(), cols);
        lemma_row_some_le(g.last());
        assert(g.last().len() == cols);
        assert((g.len() as int) * cols == (g.len() - 1) * cols + cols) by (nonlinear_arith);
    }
}

/// A rows-by-cols grid holding `v` everywhere.
fn make_grid(rows: usize, cols: usize, v: Option<u32>) -> (g: Vec<Vec<Option<u32>>>)
    ensures
        g.deep_view().len() == rows,
        forall|r: int| 0 <= r < rows ==> (#[trigger] g.deep_view()[r]).len() == cols,
        forall|r: int, c: int|
            0 <= r < rows && 0 <= c < cols ==> #[trigger] g.deep_view()[r][c] == v,
{
    let mut g: Vec<Vec<Option<u32>>> = Vec::new();
    let mut r: usize = 0;
    while r < rows
        invariant
            r <= rows,
            g.deep_view().len() == r,
            forall|rr: int| 0 <= rr < r ==> (#[trigger] g.deep_view()[rr]).len() == cols,
            forall|rr: int, c: int|
                0 <= rr < r && 0 <= c < cols ==> #[trigger] g.deep_view()[rr][c] == v,
        decreases rows - r,
    {
        let mut row: Vec<Option<u32>> = Vec::new();
        let mut c: usize = 0;
        while c < cols
            invariant
                c <= cols,
                row@.len() == c,
                forall|cc: int| 0 <= cc < c ==> row@[cc] == v,
            decreases cols - c,
        {
            row.push(v);
            c = c + 1;
        }
        let ghost old_dv = g.deep_view();
        g.push(row);
        proof {
            assert(g.deep_view() =~~= old_dv.push(row.deep_view()));
            assert(row.deep_view().len() == cols);
            assert(forall|cc: int| 0 <= cc < cols ==> #[trigger] row.deep_view()[cc] == v);
        }
        r = r + 1;
    }
    g
}

/// Writes one cell of a grid.
fn grid_set(g: &mut Vec<Vec<Option<u32>>>, r: usize, c: usize, v: Option<u32>)
    requires
        r < old(g)@.len(),
        c < old(g)@[r as int]@.len(),
    ensures
        final(g).deep_view() == old(g).deep_view().update(
            r as int,
            old(g).deep_view()[r as int].update(c as int, v),
        ),
{
    let row = &mut g[r];
    row.set(c, v);
    proof {
        assert(final(g).deep_view() =~~= old(g).deep_view().update(
            r as int,
            old(g).deep_view()[r as int].update(c as int, v),
        ));
    }
}


/// The state of one frontier expansion: `g` extends `g0` exactly by the
/// cells listed in `nf`, each a newly filled layer-`d + 1` cell.
pub open spec fn expand_inv(
    bb: BoardV,
    s: (int, int),
    g0: Seq<Seq<Option<u32>>>,
    g: Seq<Seq<Option<u32>>>,
    nf: Seq<(usize, usize)>,
    d: nat,
) -> bool {
    &&& g.len() == bb.rows()
    &&& forall|r: int| 0 <= r < bb.rows() ==> (#[trigger] g[r]).len() == bb.cols()
    &&& forall|r: int, c: int|
        0 <= r < bb.rows() && 0 <= c < bb.cols() && #[trigger] g0[r][c] is Some ==> g[r][c]
            == g0[r][c]
    &&& forall|r: int, c: int|
        0 <= r < bb.rows() && 0 <= c < bb.cols() && #[trigger] g[r][c] is Some && g0[r][c] is None
            ==> g[r][c] == Some((d + 1) as u32) && in_front(nf, r, c) && has_path(
            bb,
            s,
            (r, c),
            (d + 1) as nat,
        )
    &&& forall|u: int|
        0 <= u < nf.len() ==> (#[trigger] nf[u]).0 < bb.rows() && nf[u].1 < bb.cols() && g[nf[u].0 as int][nf[u].1 as int]
            == Some((d + 1) as u32) && g0[nf[u].0 as int][nf[u].1 as int] is None
    &&& count_some(g) == count_some(g0) + nf.len()
}

/// Tries to claim cell `(nr, nc)` for the next breadth-first layer: when it
/// is free and unclaimed, it gets distance `d + 1` and joins the new
/// frontier; otherwise nothing changes.
fn bfs_visit(
    b: &Battle,
    dist: &mut Vec<Vec<Option<u32>>>,
    new_front: &mut Vec<(usize, usize)>,
    nr: usize,
    nc: usize,
    d: u32,
    Ghost(s): Ghost<(int, int)>,
    Ghost(p): Ghost<(int, int)>,
    Ghost(g0): Ghost<Seq<Seq<Option<u32>>>>,
)
    requires
        b@.wf(),
        expand_inv(b@, s, g0, old(dist).deep_view(), old(new_front)@, d as nat),
        g0.len() == b@.rows(),
        forall|r: int| 0 <= r < b@.rows() ==> (#[trigger] g0[r]).len() == b@.cols(),
        nr < b@.rows(),
        nc < b@.cols(),
        adjacent(p, (nr as int, nc as int)),
        has_path(b@, s, p, d as nat),
        d < 0x4000_0000,
    ensures
        expand_inv(b@, s, g0, final(dist).deep_view(), final(new_front)@, d as nat),
        b@.is_free((nr as int, nc as int)) ==> final(dist).deep_view()[nr as int][nc as int]
            is Some,
        forall|r: int, c: int|
            0 <= r < b@.rows() && 0 <= c < b@.cols() && #[trigger] old(dist).deep_view()[r][c]
                is Some ==> final(dist).deep_view()[r][c] == old(dist).deep_view()[r][c],
        old(new_front)@.is_prefix_of(final(new_front)@),
{
    proof {
        assert(b.floor@.len() == b@.rows());
        assert(b@.floor[nr as int] == b.floor@[nr as int].deep_view());
        assert(b.floor@[nr as int]@.len() == b@.cols());
        assert(b.occ@.len() == b@.rows());
        assert(b@.occ[nr as int] == b.occ@[nr as int].deep_view());
        assert(b.occ@[nr as int]@.len() == b@.cols());
    }
    let free = b.floor[nr][nc] && b.occ[nr][nc].is_none();
    proof {
        assert(b@.floor[nr as int][nc as int] == b.floor@[nr as int]@[nc as int]);
        assert(b@.occ[nr as int][nc as int] == b.occ@[nr as int]@[nc as int]);
        assert(free == b@.is_free((nr as int, nc as int)));
        assert(old(dist).deep_view()[nr as int][nc as int] == dist@[nr as int]@[nc as int]);
        assert(dist@[nr as int]@.len() == b@.cols());
    }
    if free && dist[nr][nc].is_none() {
        proof {
            assert(g0[nr as int][nc as int] is None) by {
                if g0[nr as int][nc as int] is Some {
                    assert(dist.deep_view()[nr as int][nc as int] == g0[nr as int][nc as int]);
                }
            }
            lemma_count_some_update(
                old(dist).deep_view(),
                nr as int,
                nc as int,
                (d + 1) as u32,
            );
            lemma_path_extend(b@, s, p, (nr as int, nc as int), d as nat);
        }
        let ghost nf0 = new_front@;
        let ghost gmid = dist.deep_view();
        grid_set(dist, nr, nc, Some(d + 1));
        new_front.push((nr, nc));
        proof {
            assert(new_front@[nf0.len() as int] == (nr, nc));
            assert(in_front(new_front@, nr as int, nc as int));
            assert forall|r: int, c: int| in_front(nf0, r, c) implies in_front(
                new_front@,
                r,
                c,
            ) by {
                let t = choose|t: int| 0 <= t < nf0.len() && nf0[t].0 == r && nf0[t].1 == c;
                assert(new_front@[t] == nf0[t]);
            }
            let g1 = dist.deep_view();
            assert forall|r: int, c: int|
                0 <= r < b@.rows() && 0 <= c < b@.cols() && #[trigger] g1[r][c] is Some && g0[r][c]
                    is None implies g1[r][c] == Some((d + 1) as u32) && in_front(new_front@, r, c)
                && has_path(b@, s, (r, c), (d + 1) as nat) by {
                if (r, c) != (nr as int, nc as int) {
                    assert(g1[r][c] == gmid[r][c]);
                }
            }
        }
    }
}

/// Shortest distances from `(sr, sc)` to every cell, by breadth-first
/// search over free cells: a filled cell holds exactly its shortest
/// distance, and an unfilled cell is unreachable.
#[verifier::rlimit(100)]
pub fn bfs_dist(b: &Battle, sr: usize, sc: usize) -> (dist: Vec<Vec<Option<u32>>>)
    requires
        b@.wf(),
        b@.in_bounds((sr as int, sc as int)),
    ensures
        dist.deep_view().len() == b@.rows(),
        forall|r: int|
            0 <= r < b@.rows() ==> (#[trigger] dist.deep_view()[r]).len() == b@.cols(),
        forall|r: int, c: int|
            b@.in_bounds((r, c)) ==> match #[trigger] dist.deep_view()[r][c] {
                Some(k) => reachable(b@, (sr as int, sc as int), (r, c)) && min_dist(
                    b@,
                    (sr as int, sc as int),
                    (r, c),
                ) == k && k <= b@.area(),
                None => !reachable(b@, (sr as int, sc as int), (r, c)),
            },
{
    let ghost bb = b@;
    let ghost s = (sr as int, sc as int);
    let rows = b.floor.len();
    let cols = if rows > 0 {
        b.floor[0].len()
    } else {
        0
    };
    proof {
        assert(b.floor@.len() == bb.rows());
        if rows > 0 {
            assert(bb.floor[0] == b.floor@[0].deep_view());
        }
        assert(rows == bb.rows() && cols == bb.cols());
        assert(bb.area() <= 0x4000_0000) by (nonlinear_arith)
            requires
                bb.rows() <= dim_bound(),
                bb.cols() <= dim_bound(),
                bb.area() == bb.rows() * bb.cols(),
                0 <= bb.rows(),
                0 <= bb.cols(),
                dim_bound() == 0x7fff,
        ;
    }
    let mut dist = make_grid(rows, cols, None);
    let ghost gstart = dist.deep_view();
    proof {
        assert(dist@.len() == dist.deep_view().len());
        assert(dist.deep_view()[sr as int] == dist@[sr as int].deep_view());
        assert(dist@[sr as int]@.len() == dist.deep_view()[sr as int].len());
    }
    grid_set(&mut dist, sr, sc, Some(0));
    proof {
        lemma_count_some_update(gstart, sr as int, sc as int, 0);
        lemma_count_some_le(gstart, cols as int);
        assert(count_some(dist.deep_view()) == count_some(gstart) + 1);
        assert(count_some(dist.deep_view()) <= bb.area()) by {
            lemma_count_none_zero(gstart);
            assert(bb.area() >= 1) by (nonlinear_arith)
                requires
                    bb.area() == bb.rows() * bb.cols(),
                    bb.rows() >= 1,
                    bb.cols() >= 1,
            ;
        }
        assert(has_path(bb, s, s, 0nat));
    }
    let mut front: Vec<(usize, usize)> = Vec::new();
    front.push((sr, sc));
    proof {
        assert(front@[0] == (sr, sc));
        let g = dist.deep_view();
        assert forall|r: int, c: int|
            0 <= r < rows && 0 <= c < cols && #[trigger] g[r][c] is Some implies r == sr as int
            && c == sc as int && g[r][c] == Some(0u32) by {
            if (r, c) != (sr as int, sc as int) {
                assert(gstart[r][c] is None);
            }
        }
        assert(in_front(front@, sr as int, sc as int));
    }
    let mut d: u32 = 0;
    loop
        invariant
            bb == b@,
            bb.wf(),
            s == (sr as int, sc as int),
            bb.in_bounds(s),
            rows == bb.rows(),
            cols == bb.cols(),
            bb.area() <= 0x4000_0000,
            dist.deep_view().len() == rows,
            forall|r: int| 0 <= r < rows ==> (#[trigger] dist.deep_view()[r]).len() == cols,
            d <= bb.area(),
            count_some(dist.deep_view()) <= bb.area(),
            front@.len() > 0 ==> d < count_some(dist.deep_view()),
            forall|t: int|
                0 <= t < front@.len() ==> (#[trigger] front@[t]).0 < rows && front@[t].1 < cols,
            forall|t: int|
                0 <= t < front@.len() ==> dist.deep_view()[(#[trigger] front@[t]).0 as int][
                    front@[t].1 as int
                ] == Some(d),
            forall|r: int, c: int|
                0 <= r < rows && 0 <= c < cols && #[trigger] dist.deep_view()[r][c] == Some(d)
                    ==> in_front(front@, r, c),
            forall|r: int, c: int|
                0 <= r < rows && 0 <= c < cols && #[trigger] dist.deep_view()[r][c] is Some ==> {
                    let k = dist.deep_view()[r][c].unwrap() as nat;
                    &&& k <= d
                    &&& has_path(bb, s, (r, c), k)
                    &&& (k > 0 ==> !has_path(bb, s, (r, c), (k - 1) as nat))
                },
            forall|r: int, c: int, r2: int, c2: int|
                #![trigger dist.deep_view()[r][c], dist.deep_view()[r2][c2]]
                0 <= r < rows && 0 <= c < cols && 0 <= r2 < rows && 0 <= c2 < cols
                    && dist.deep_view()[r][c] is Some && (dist.deep_view()[r][c].unwrap() as int)
                    < d && step_ok(bb, (r, c), (r2, c2)) ==> dist.deep_view()[r2][c2] is Some,
            forall|r: int, c: int, k: nat|
                #![trigger has_path(bb, s, (r, c), k), dist.deep_view()[r][c]]
                0 <= r < rows && 0 <= c < cols && k <= d && has_path(bb, s, (r, c), k)
                    ==> dist.deep_view()[r][c] is Some,
        ensures
            front@.len() == 0,
        decreases bb.area() - d,
    {
        if front.len() == 0 {
            break;
        }
        let ghost g0 = dist.deep_view();
        let ghost front0 = front@;
        let mut new_front: Vec<(usize, usize)> = Vec::new();
        let mut t: usize = 0;
        while t < front.len()
            invariant
                bb == b@,
                bb.wf(),
                s == (sr as int, sc as int),
                rows == bb.rows(),
                cols == bb.cols(),
                bb.area() <= 0x4000_0000,
                d < count_some(g0),
                count_some(g0) <= bb.area(),
                d < 0x4000_0000,
                t <= front@.len(),
                front@ == front0,
                front0.len() > 0,
                expand_inv(bb, s, g0, dist.deep_view(), new_front@, d as nat),
                g0.len() == rows,
                forall|r: int| 0 <= r < rows ==> (#[trigger] g0[r]).len() == cols,
                forall|tt: int|
                    0 <= tt < front0.len() ==> (#[trigger] front0[tt]).0 < rows && front0[tt].1
                        < cols,
                forall|tt: int|
                    0 <= tt < front0.len() ==> g0[(#[trigger] front0[tt]).0 as int][front0[tt].1 as int]
                        == Some(d),
                forall|r: int, c: int|
                    0 <= r < rows && 0 <= c < cols && #[trigger] g0[r][c] == Some(d) ==> in_front(
                        front0,
                        r,
                        c,
                    ),
                forall|r: int, c: int|
                    0 <= r < rows && 0 <= c < cols && #[trigger] g0[r][c] is Some ==> {
                        let k = g0[r][c].unwrap() as nat;
                        &&& k <= d
                        &&& has_path(bb, s, (r, c), k)
                        &&& (k > 0 ==> !has_path(bb, s, (r, c), (k - 1) as nat))
                    },
                forall|r: int, c: int, r2: int, c2: int|
                    #![trigger g0[r][c], g0[r2][c2]]
                    0 <= r < rows && 0 <= c < cols && 0 <= r2 < rows && 0 <= c2 < cols
                        && g0[r][c] is Some && (g0[r][c].unwrap() as int) < d && step_ok(
                        bb,
                        (r, c),
                        (r2, c2),
                    ) ==> g0[r2][c2] is Some,
                forall|r: int, c: int, k: nat|
                    #![trigger has_path(bb, s, (r, c), k), g0[r][c]]
                    0 <= r < rows && 0 <= c < cols && k <= d && has_path(bb, s, (r, c), k)
                        ==> g0[r][c] is Some,
                forall|tt: int, r2: int, c2: int|
                    #![trigger front0[tt], dist.deep_view()[r2][c2]]
                    0 <= tt < t && 0 <= r2 < rows && 0 <= c2 < cols && step_ok(
                        bb,
                        ((front0[tt].0) as int, (front0[tt].1) as int),
                        (r2, c2),
                    ) ==> dist.deep_view()[r2][c2] is Some,
            decreases front@.len() - t,
        {
            let (pr, pc) = front[t];
            let ghost p = (pr as int, pc as int);
            let ghost gpre = dist.deep_view();
            let ghost nfpre = new_front@;
            proof {
                assert(g0[p.0][p.1] == Some(d));
                assert(has_path(bb, s, p, d as nat));
            }
            if pr > 0 {
                bfs_visit(b, &mut dist, &mut new_front, pr - 1, pc, d, Ghost(s), Ghost(p), Ghost(g0));
            }
            if pc > 0 {
                bfs_visit(b, &mut dist, &mut new_front, pr, pc - 1, d, Ghost(s), Ghost(p), Ghost(g0));
            }
            if pc + 1 < cols {
                bfs_visit(b, &mut dist, &mut new_front, pr, pc + 1, d, Ghost(s), Ghost(p), Ghost(g0));
            }
            if pr + 1 < rows {
                bfs_visit(b, &mut dist, &mut new_front, pr + 1, pc, d, Ghost(s), Ghost(p), Ghost(g0));
            }
            proof {
                assert(nfpre.is_prefix_of(new_front@));
                assert forall|r2: int, c2: int|
                    0 <= r2 < rows && 0 <= c2 < cols && #[trigger] gpre[r2][c2] is Some implies dist.deep_view()[r2][c2]
                    is Some by {
                    if g0[r2][c2] is Some {
                        assert(dist.deep_view()[r2][c2] == g0[r2][c2]);
                    } else {
                        assert(in_front(nfpre, r2, c2));
                        let u = choose|u: int|
                            0 <= u < nfpre.len() && nfpre[u].0 == r2 && nfpre[u].1 == c2;
                        assert(new_front@[u] == nfpre[u]);
                        assert(dist.deep_view()[new_front@[u].0 as int][new_front@[u].1 as int]
                            == Some((d + 1) as u32));
                    }
                }
                assert forall|r2: int, c2: int|
                    0 <= r2 < rows && 0 <= c2 < cols && step_ok(bb, p, (r2, c2)) implies #[trigger] dist.deep_view()[r2][c2]
                    is Some by {
                    assert(adjacent(p, (r2, c2)));
                    assert(bb.is_free((r2, c2)));
                }
                assert forall|tt: int, r2: int, c2: int|
                    #![trigger front0[tt], dist.deep_view()[r2][c2]]
                    0 <= tt < t + 1 && 0 <= r2 < rows && 0 <= c2 < cols && step_ok(
                        bb,
                        ((front0[tt].0) as int, (front0[tt].1) as int),
                        (r2, c2),
                    ) implies dist.deep_view()[r2][c2] is Some by {
                    if tt < t {
                        assert(gpre[r2][c2] is Some);
                    } else {
                        assert(front0[tt] == (pr, pc));
                        assert(step_ok(bb, p, (r2, c2)));
                    }
                }
            }
            t = t + 1;
        }
        proof {
            let g1 = dist.deep_view();
            // Every path of at most d + 1 steps now ends on a filled cell.
            lemma_layer_complete(bb, s, g0, g1, front0, d as nat);
            // The new frontier is exactly the d + 1 layer, and every filled
            // cell now satisfies the distance soundness bound for d + 1.
            assert forall|r: int, c: int|
                0 <= r < rows && 0 <= c < cols && #[trigger] g1[r][c] == Some((d + 1) as u32)
                    implies in_front(new_front@, r, c) by {
                if g0[r][c] is Some {
                    assert(g0[r][c].unwrap() as nat <= d);
                }
            }
            assert forall|r: int, c: int|
                0 <= r < rows && 0 <= c < cols && #[trigger] g1[r][c] is Some implies {
                let k = g1[r][c].unwrap() as nat;
                &&& k <= d + 1
                &&& has_path(bb, s, (r, c), k)
                &&& (k > 0 ==> !has_path(bb, s, (r, c), (k - 1) as nat))
            } by {
                if g0[r][c] is Some {
                } else {
                    assert(g1[r][c] == Some((d + 1) as u32));
                    if has_path(bb, s, (r, c), d as nat) {
                        assert(g0[r][c] is Some);
                    }
                }
            }
            // Closedness now reaches layer d as well.
            assert forall|r: int, c: int, r2: int, c2: int|
                #![trigger g1[r][c], g1[r2][c2]]
                0 <= r < rows && 0 <= c < cols && 0 <= r2 < rows && 0 <= c2 < cols
                    && g1[r][c] is Some && (g1[r][c].unwrap() as int) < d + 1 && step_ok(
                    bb,
                    (r, c),
                    (r2, c2),
                ) implies g1[r2][c2] is Some by {
                assert(g0[r][c] is Some);
                let k = g0[r][c].unwrap() as int;
                if k < d {
                    assert(g0[r2][c2] is Some);
                } else {
                    assert(k == d);
                    assert(in_front(front0, r, c));
                    let tt = choose|tt: int|
                        0 <= tt < front0.len() && front0[tt].0 == r && front0[tt].1 == c;
                    assert(step_ok(bb, ((front0[tt].0) as int, (front0[tt].1) as int), (r2, c2)));
                }
            }
        }
        front = new_front;
        d = d + 1;
        proof {
            lemma_count_some_le(dist.deep_view(), cols as int);
            assert((rows as int) * (cols as int) == bb.area());
        }
    }
    proof {
        let g = dist.deep_view();
        assert(has_path(bb, s, s, 0nat));
        assert(g[s.0][s.1] is Some);
        // The frontier is empty, so every filled value lies below d and the
        // grid is closed under steps from filled cells.
        assert forall|r: int, c: int, r2: int, c2: int|
            #![trigger g[r][c], g[r2][c2]]
            0 <= r < rows && 0 <= c < cols && 0 <= r2 < rows && 0 <= c2 < cols && g[r][c] is Some
                && step_ok(bb, (r, c), (r2, c2)) implies g[r2][c2] is Some by {
            assert((g[r][c].unwrap() as int) < d || in_front(front@, r, c));
            assert(!in_front(front@, r, c));
            assert((g[r][c].unwrap() as int) < d);
        }
        assert forall|r: int, c: int| bb.in_bounds((r, c)) implies match #[trigger] g[r][c] {
            Some(k) => reachable(bb, s, (r, c)) && min_dist(bb, s, (r, c)) == k && k <= bb.area(),
            None => !reachable(bb, s, (r, c)),
        } by {
            match g[r][c] {
                Some(k) => {
                    lemma_min_dist_eq(bb, s, (r, c), k as nat);
                },
                None => {
                    if reachable(bb, s, (r, c)) {
                        lemma_bfs_exhaust(bb, s, g, (r, c), bb.area() as nat);
                    }
                },
            }
        }
    }
    dist
}

/// An all-empty grid holds nothing.
proof fn lemma_count_none_zero(g: Seq<Seq<Option<u32>>>)
    requires
        forall|r: int, c: int|
            0 <= r < g.len() && 0 <= c < g[r].len() ==> #[trigger] g[r][c] is None,
    ensures
        count_some(g) == 0,
    decreases g.len(),
{
    if g.len() > 0 {
        assert(forall|r: int, c: int|
            0 <= r < g.drop_last().len() && 0 <= c < g.drop_last()[r].len()
                ==> #[trigger] g.drop_last()[r][c] is None);
        lemma_count_none_zero(g.drop_last());
        lemma_row_none_zero(g.last());
    }
}

proof fn lemma_row_none_zero(row: Seq<Option<u32>>)
    requires
        forall|c: int| 0 <= c < row.len() ==> row[c] is None,
    ensures
        row_some(row) == 0,
    decreases row.len(),
{
    if row.len() > 0 {
        lemma_row_none_zero(row.drop_last());
    }
}

/// A grid closed under steps from filled cells, with the start filled,
/// has every reachable cell filled.
proof fn lemma_bfs_exhaust(
    bb: BoardV,
    s: (int, int),
    g: Seq<Seq<Option<u32>>>,
    x: (int, int),
    k: nat,
)
    requires
        g.len() == bb.rows(),
        forall|r: int| 0 <= r < bb.rows() ==> (#[trigger] g[r]).len() == bb.cols(),
        bb.in_bounds(s),
        g[s.0][s.1] is Some,
        forall|r: int, c: int, r2: int, c2: int|
            #![trigger g[r][c], g[r2][c2]]
            0 <= r < bb.rows() && 0 <= c < bb.cols() && 0 <= r2 < bb.rows() && 0 <= c2 < bb.cols()
                && g[r][c] is Some && step_ok(bb, (r, c), (r2, c2)) ==> g[r2][c2] is Some,
        has_path(bb, s, x, k),
        bb.in_bounds(x),
    ensures
        g[x.0][x.1] is Some,
    decreases k,
{
    if x == s {
    } else {
        let p = lemma_path_last_step(bb, s, x, k);
        assert(bb.in_bounds(p)) by {
            if p != s {
                assert(bb.is_free(p));
            }
        }
        assert(step_ok(bb, p, x));
        lemma_bfs_exhaust(bb, s, g, p, (k - 1) as nat);
        assert(g[x.0][x.1] is Some);
    }
}


/// After a whole frontier layer has been expanded, every cell within one
/// more step of the search radius is filled.
proof fn lemma_layer_complete(
    bb: BoardV,
    s: (int, int),
    g0: Seq<Seq<Option<u32>>>,
    g1: Seq<Seq<Option<u32>>>,
    front0: Seq<(usize, usize)>,
    d: nat,
)
    requires
        d < 0x1_0000_0000,
        g0.len() == bb.rows(),
        forall|r: int| 0 <= r < bb.rows() ==> (#[trigger] g0[r]).len() == bb.cols(),
        g1.len() == bb.rows(),
        forall|r: int| 0 <= r < bb.rows() ==> (#[trigger] g1[r]).len() == bb.cols(),
        bb.in_bounds(s),
        forall|r: int, c: int|
            0 <= r < bb.rows() && 0 <= c < bb.cols() && #[trigger] g0[r][c] is Some ==> (g0[r][c].unwrap() as nat)
                <= d,
        forall|r: int, c: int|
            0 <= r < bb.rows() && 0 <= c < bb.cols() && #[trigger] g0[r][c] == Some(d as u32)
                ==> in_front(front0, r, c),
        forall|r: int, c: int, r2: int, c2: int|
            #![trigger g0[r][c], g0[r2][c2]]
            0 <= r < bb.rows() && 0 <= c < bb.cols() && 0 <= r2 < bb.rows() && 0 <= c2 < bb.cols()
                && g0[r][c] is Some && (g0[r][c].unwrap() as int) < d && step_ok(
                bb,
                (r, c),
                (r2, c2),
            ) ==> g0[r2][c2] is Some,
        forall|r: int, c: int, k: nat|
            #![trigger has_path(bb, s, (r, c), k), g0[r][c]]
            0 <= r < bb.rows() && 0 <= c < bb.cols() && k <= d && has_path(bb, s, (r, c), k)
                ==> g0[r][c] is Some,
        forall|r: int, c: int|
            0 <= r < bb.rows() && 0 <= c < bb.cols() && #[trigger] g0[r][c] is Some ==> g1[r][c]
                == g0[r][c],
        forall|tt: int, r2: int, c2: int|
            #![trigger front0[tt], g1[r2][c2]]
            0 <= tt < front0.len() && 0 <= r2 < bb.rows() && 0 <= c2 < bb.cols() && step_ok(
                bb,
                ((front0[tt].0) as int, (front0[tt].1) as int),
                (r2, c2),
            ) ==> g1[r2][c2] is Some,
    ensures
        forall|r: int, c: int, k: nat|
            #![trigger has_path(bb, s, (r, c), k), g1[r][c]]
            0 <= r < bb.rows() && 0 <= c < bb.cols() && k <= d + 1 && has_path(bb, s, (r, c), k)
                ==> g1[r][c] is Some,
{
    assert forall|r: int, c: int, k: nat|
        #![trigger has_path(bb, s, (r, c), k), g1[r][c]]
        0 <= r < bb.rows() && 0 <= c < bb.cols() && k <= d + 1 && has_path(bb, s, (r, c), k)
            implies g1[r][c] is Some by {
        if k <= d {
            assert(g0[r][c] is Some);
        } else if (r, c) == s {
            assert(has_path(bb, s, (r, c), 0nat));
            assert(g0[r][c] is Some);
        } else {
            let pp = lemma_path_last_step(bb, s, (r, c), k);
            assert(0 <= pp.0 < bb.rows() && 0 <= pp.1 < bb.cols()) by {
                if pp != s {
                    assert(bb.is_free(pp));
                }
            }
            assert(g0[pp.0][pp.1] is Some);
            let kp = g0[pp.0][pp.1].unwrap() as int;
            assert(step_ok(bb, pp, (r, c)));
            if kp < d {
                assert(g0[r][c] is Some);
            } else {
                assert(kp == d);
                assert(in_front(front0, pp.0, pp.1));
                let tt = choose|tt: int|
                    0 <= tt < front0.len() && front0[tt].0 == pp.0 && front0[tt].1 == pp.1;
                assert(step_ok(bb, ((front0[tt].0) as int, (front0[tt].1) as int), (r, c)));
                assert(g1[r][c] is Some);
            }
        }
    }
}


/// A shortest distance below `area` comes with a path realizing it.
pub proof fn lemma_min_dist_lt_area(b: BoardV, f: (int, int), t: (int, int))
    requires
        min_dist(b, f, t) < b.area(),
    ensures
        reachable(b, f, t),
        has_path(b, f, t, min_dist(b, f, t)),
{
    lemma_min_dist_realized(b, f, t, 0);
    lemma_path_mono(b, f, t, min_dist(b, f, t), b.area() as nat);
}

proof fn lemma_min_dist_realized(b: BoardV, f: (int, int), t: (int, int), k: nat)
    requires
        k <= b.area(),
        min_dist_from(b, f, t, k) < b.area(),
    ensures
        has_path(b, f, t, min_dist_from(b, f, t, k)),
    decreases b.area() - k,
{
    if has_path(b, f, t, k) || k >= b.area() {
    } else {
        lemma_min_dist_realized(b, f, t, (k + 1) as nat);
    }
}

} // verus!\n