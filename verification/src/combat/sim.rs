//! The executable battle engine, verified against the model in
//! [`crate::combat::model`].

use vstd::prelude::*;
use crate::combat::{adjacent, rd_le, Battle, BoardV, Faction, Unit};
use crate::combat::model::{
    apply_attack, attack_power, battle_from, best_attack, best_dest, best_step, do_turn, foe_at,
    has_adj_foe, hp_at, hp_sum, is_best_attack, is_best_dest, is_best_step, is_target,
    lemma_best_attack_unique, lemma_best_dest_unique, lemma_best_step_unique, live_count,
    lossless, move_unit, no_foes, occ_set, order_from, outcome_of, round_of, run_turns,
    some_dest, turn_order, Outcome,
};
use crate::combat::paths::{
    bfs_dist, has_path, lemma_first_step_exists, lemma_min_dist, lemma_min_dist_lt_area,
    lemma_min_dist_sym, min_dist, reachable, step_ok,
};

verus! {

/// The four cells orthogonally adjacent to `(pr, pc)` that lie on the board,
/// in reading order.
fn neighbours(b: &Battle, pr: usize, pc: usize) -> (nbrs: Vec<(usize, usize)>)
    requires
        b@.wf(),
        b@.in_bounds((pr as int, pc as int)),
    ensures
        forall|u: int|
            0 <= u < nbrs@.len() ==> b@.in_bounds(
                ((#[trigger] nbrs@[u]).0 as int, nbrs@[u].1 as int),
            ) && adjacent((pr as int, pc as int), (nbrs@[u].0 as int, nbrs@[u].1 as int)),
        forall|q: (int, int)|
            adjacent((pr as int, pc as int), q) && b@.in_bounds(q) ==> exists|u: int|
                0 <= u < nbrs@.len() && (#[trigger] nbrs@[u]).0 == q.0 && nbrs@[u].1 == q.1,
        forall|u: int, v: int|
            0 <= u < v < nbrs@.len() ==> rd_le(
                ((#[trigger] nbrs@[u]).0 as int, nbrs@[u].1 as int),
                ((#[trigger] nbrs@[v]).0 as int, nbrs@[v].1 as int),
            ) && nbrs@[u] != nbrs@[v],
{
    let rows = b.floor.len();
    let cols = if rows > 0 {
        b.floor[0].len()
    } else {
        0
    };
    proof {
        assert(b.floor@.len() == b@.rows());
        if rows > 0 {
            assert(b@.floor[0] == b.floor@[0].deep_view());
        }
        assert(rows == b@.rows() && cols == b@.cols());
    }
    let mut nbrs: Vec<(usize, usize)> = Vec::new();
    if pr > 0 {
        nbrs.push((pr - 1, pc));
    }
    if pc > 0 {
        nbrs.push((pr, pc - 1));
    }
    if pc + 1 < cols {
        nbrs.push((pr, pc + 1));
    }
    if pr + 1 < rows {
        nbrs.push((pr + 1, pc));
    }
    proof {
        assert forall|q: (int, int)|
            adjacent((pr as int, pc as int), q) && b@.in_bounds(q) implies exists|u: int|
            0 <= u < nbrs@.len() && (#[trigger] nbrs@[u]).0 == q.0 && nbrs@[u].1 == q.1 by {
            let w = choose|w: int|
                0 <= w < nbrs@.len() && nbrs@[w].0 == q.0 && nbrs@[w].1 == q.1;
            if q == ((pr - 1) as int, pc as int) {
                assert(pr > 0);
                let u = 0int;
                assert(nbrs@[u].0 == q.0 && nbrs@[u].1 == q.1);
            } else if q == (pr as int, (pc - 1) as int) {
                let u: int = if pr > 0 {
                    1
                } else {
                    0
                };
                assert(nbrs@[u].0 == q.0 && nbrs@[u].1 == q.1);
            } else if q == (pr as int, (pc + 1) as int) {
                let u: int = (if pr > 0 {
                    1int
                } else {
                    0int
                }) + (if pc > 0 {
                    1int
                } else {
                    0int
                });
                assert(nbrs@[u].0 == q.0 && nbrs@[u].1 == q.1);
            } else {
                assert(q == ((pr + 1) as int, pc as int));
                let u: int = nbrs@.len() - 1;
                assert(nbrs@[u].0 == q.0 && nbrs@[u].1 == q.1);
            }
        }
    }
    nbrs
}

/// Whether a live foe of faction `f` stands on the in-bounds cell `(r, c)`.
fn foe_at_cell(b: &Battle, f: Faction, r: usize, c: usize) -> (res: bool)
    requires
        b@.wf(),
        b@.in_bounds((r as int, c as int)),
    ensures
        res == foe_at(b@, f, (r as int, c as int)),
{
    proof {
        assert(b@.occ[r as int] == b.occ@[r as int].deep_view());
        assert(b.occ@.len() == b@.rows());
        assert(b.occ@[r as int]@.len() == b@.cols());
    }
    match b.occ[r][c] {
        Some(j) => {
            proof {
                assert(b@.occ[r as int][c as int] == Some(j));
            }
            let u = b.units[j];
            u.hp > 0 && u.faction != f
        },
        None => {
            proof {
                assert(b@.occ[r as int][c as int] is None);
            }
            false
        },
    }
}

/// Whether a faction-`f` unit standing on `(pr, pc)` has an adjacent live
/// foe.
fn has_adj_foe_at(b: &Battle, f: Faction, pr: usize, pc: usize) -> (res: bool)
    requires
        b@.wf(),
        b@.in_bounds((pr as int, pc as int)),
    ensures
        res == has_adj_foe(b@, f, (pr as int, pc as int)),
{
    let nbrs = neighbours(b, pr, pc);
    let mut u: usize = 0;
    while u < nbrs.len()
        invariant
            u <= nbrs@.len(),
            b@.wf(),
            b@.in_bounds((pr as int, pc as int)),
            forall|w: int|
                0 <= w < nbrs@.len() ==> b@.in_bounds(
                    ((#[trigger] nbrs@[w]).0 as int, nbrs@[w].1 as int),
                ) && adjacent((pr as int, pc as int), (nbrs@[w].0 as int, nbrs@[w].1 as int)),
            forall|q: (int, int)|
                adjacent((pr as int, pc as int), q) && b@.in_bounds(q) ==> exists|w: int|
                    0 <= w < nbrs@.len() && (#[trigger] nbrs@[w]).0 == q.0 && nbrs@[w].1 == q.1,
            forall|w: int|
                0 <= w < u ==> !foe_at(b@, f, ((#[trigger] nbrs@[w]).0 as int, nbrs@[w].1 as int)),
        decreases nbrs@.len() - u,
    {
        let (r, c) = nbrs[u];
        if foe_at_cell(b, f, r, c) {
            proof {
                assert(adjacent((pr as int, pc as int), (r as int, c as int)));
            }
            return true;
        }
        u = u + 1;
    }
    proof {
        if has_adj_foe(b@, f, (pr as int, pc as int)) {
            let q = choose|q: (int, int)|
                adjacent((pr as int, pc as int), q) && foe_at(b@, f, q);
            let w = choose|w: int|
                0 <= w < nbrs@.len() && (#[trigger] nbrs@[w]).0 == q.0 && nbrs@[w].1 == q.1;
            assert(!foe_at(b@, f, (nbrs@[w].0 as int, nbrs@[w].1 as int)));
        }
    }
    false
}

/// Whether every live unit belongs to faction `f`.
fn no_foes_check(b: &Battle, f: Faction) -> (res: bool)
    ensures
        res == no_foes(b@, f),
{
    let mut i: usize = 0;
    let n = b.units.len();
    while i < n
        invariant
            i <= n,
            n == b@.units.len(),
            b@ == b@,
            forall|j: int| 0 <= j < i && b@.live(j) ==> (#[trigger] b@.units[j]).faction == f,
            n == b.units@.len(),
            b.units@ == b@.units,
        decreases n - i,
    {
        let u = b.units[i];
        if u.hp > 0 && u.faction != f {
            proof {
                assert(b@.live(i as int));
            }
            return false;
        }
        i = i + 1;
    }
    true
}

/// Writes one occupancy cell.
fn set_occ(b: &mut Battle, r: usize, c: usize, v: Option<usize>)
    requires
        old(b)@.dims_ok(),
        old(b)@.in_bounds((r as int, c as int)),
    ensures
        final(b)@ == occ_set(old(b)@, (r as int, c as int), v),
        final(b)@.floor == old(b)@.floor,
        final(b)@.units == old(b)@.units,
        final(b)@.dims_ok(),
{
    proof {
        assert(b.occ@.len() == b@.rows());
        assert(b@.occ[r as int] == b.occ@[r as int].deep_view());
        assert(b.occ@[r as int]@.len() == b@.cols());
    }
    let row = &mut b.occ[r];
    row.set(c, v);
    proof {
        assert(final(b)@.occ =~~= occ_set(old(b)@, (r as int, c as int), v).occ);
        assert(final(b)@ == occ_set(old(b)@, (r as int, c as int), v));
        let bf = final(b)@;
        assert forall|rr: int| 0 <= rr < bf.rows() implies (#[trigger] bf.occ[rr]).len()
            == bf.cols() by {
            if rr != r as int {
                assert(bf.occ[rr] == old(b)@.occ[rr]);
            }
        }
        assert(final(b)@.dims_ok());
    }
}

/// Rewrites one unit.
fn set_unit(b: &mut Battle, i: usize, u: Unit)
    requires
        i < old(b)@.units.len(),
    ensures
        final(b)@.units == old(b)@.units.update(i as int, u),
        final(b)@.floor == old(b)@.floor,
        final(b)@.occ == old(b)@.occ,
        old(b)@.dims_ok() ==> final(b)@.dims_ok(),
{
    b.units.set(i, u);
}

/// The units present on the board, in the reading order of their cells.
fn compute_order(b: &Battle) -> (order: Vec<usize>)
    requires
        b@.wf(),
    ensures
        order@ == turn_order(b@),
{
    let ghost bb = b@;
    let rows = b.floor.len();
    let cols = if rows > 0 {
        b.floor[0].len()
    } else {
        0
    };
    proof {
        assert(b.floor@.len() == bb.rows());
        if rows > 0 {
            assert(bb.floor[0] == b.floor@[0].deep_view());
        }
        assert(rows == bb.rows() && cols == bb.cols());
    }
    let mut order: Vec<usize> = Vec::new();
    let mut r: usize = 0;
    proof {
        assert(turn_order(bb) == order@ + order_from(bb, 0));
    }
    while r < rows
        invariant
            r <= rows,
            bb == b@,
            bb.wf(),
            rows == bb.rows(),
            cols == bb.cols(),
            turn_order(bb) == order@ + order_from(bb, (r * cols) as nat),
            r * cols <= bb.area(),
        decreases rows - r,
    {
        let mut c: usize = 0;
        proof {
            assert((r * cols) as int + cols <= bb.area()) by (nonlinear_arith)
                requires
                    0 <= r < rows,
                    bb.area() == (rows as int) * (cols as int),
                    0 <= cols,
            ;
        }
        while c < cols
            invariant
                c <= cols,
                r < rows,
                bb == b@,
                bb.wf(),
                rows == bb.rows(),
                cols == bb.cols(),
                turn_order(bb) == order@ + order_from(bb, (r * cols + c) as nat),
                (r * cols + c) as int <= bb.area(),
                (r * cols) as int + cols <= bb.area(),
            decreases cols - c,
        {
            let ghost k = (r * cols + c) as int;
            proof {
                vstd::arithmetic::div_mod::lemma_fundamental_div_mod_converse(
                    k,
                    cols as int,
                    r as int,
                    c as int,
                );
                assert(k / (cols as int) == r as int && k % (cols as int) == c as int);
                assert(k < bb.area());
                assert(b@.occ[r as int] == b.occ@[r as int].deep_view());
                assert(b.occ@.len() == bb.rows());
                assert(b.occ@[r as int]@.len() == bb.cols());
            }
            let ghost order0 = order@;
            match b.occ[r][c] {
                Some(i) => {
                    order.push(i);
                    proof {
                        assert(bb.occ[k / (cols as int)][k % (cols as int)] == Some(i));
                        assert(order_from(bb, k as nat) == seq![i] + order_from(
                            bb,
                            (k + 1) as nat,
                        ));
                        assert(order0 + order_from(bb, k as nat) =~= order0.push(i)
                            + order_from(bb, (k + 1) as nat));
                    }
                },
                None => {
                    proof {
                        assert(bb.occ[k / (cols as int)][k % (cols as int)] is None);
                        assert(order_from(bb, k as nat) == order_from(bb, (k + 1) as nat));
                    }
                },
            }
            c = c + 1;
        }
        r = r + 1;
        proof {
            assert((r * cols) as int == ((r - 1) * cols) as int + cols) by (nonlinear_arith);
        }
    }
    proof {
        assert((r * cols) as int == bb.area()) by (nonlinear_arith)
            requires
                r == rows,
                bb.area() == (rows as int) * (cols as int),
        ;
        assert(order_from(bb, (r * cols) as nat) =~= Seq::<usize>::empty());
        assert(order@ + Seq::<usize>::empty() =~= order@);
    }
    order
}

/// Every unit listed by `order_from` is a live unit of the board.
pub proof fn lemma_order_from_live(b: BoardV, k: nat)
    requires
        b.wf(),
        k <= b.area(),
    ensures
        forall|t: int|
            0 <= t < order_from(b, k).len() ==> b.live(#[trigger] order_from(b, k)[t] as int),
    decreases b.area() - k,
{
    if k < b.area() {
        lemma_order_from_live(b, k + 1);
        let r = (k as int) / b.cols();
        let c = (k as int) % b.cols();
        assert(b.cols() > 0) by (nonlinear_arith)
            requires
                0 <= k < b.area(),
                b.area() == b.rows() * b.cols(),
                b.rows() >= 0,
                b.cols() >= 0,
        ;
        assert(0 <= r < b.rows() && 0 <= c < b.cols()) by (nonlinear_arith)
            requires
                0 <= k < b.area(),
                b.area() == b.rows() * b.cols(),
                b.cols() > 0,
                r == (k as int) / b.cols(),
                c == (k as int) % b.cols(),
        ;
        match b.occ[r][c] {
            Some(i) => {
                assert(b.live(i as int));
                assert forall|t: int| 0 <= t < order_from(b, k).len() implies b.live(
                    #[trigger] order_from(b, k)[t] as int,
                ) by {
                    if t > 0 {
                        assert(order_from(b, k)[t] == order_from(b, (k + 1) as nat)[t - 1]);
                    }
                }
            },
            None => {
                assert(order_from(b, k) == order_from(b, (k + 1) as nat));
            },
        }
    }
}


/// Whether `g` holds the shortest distances from `p` over board `b`, as
/// `bfs_dist` computes them.
pub open spec fn dist_ok(b: BoardV, p: (int, int), g: Seq<Seq<Option<u32>>>) -> bool {
    &&& g.len() == b.rows()
    &&& forall|r: int| 0 <= r < b.rows() ==> (#[trigger] g[r]).len() == b.cols()
    &&& forall|r: int, c: int|
        b.in_bounds((r, c)) ==> match #[trigger] g[r][c] {
            Some(k) => reachable(b, p, (r, c)) && min_dist(b, p, (r, c)) == k && k <= b.area(),
            None => !reachable(b, p, (r, c)),
        }
}

/// Whether the in-bounds cell `(r, c)` is open and empty.
fn is_free_cell(b: &Battle, r: usize, c: usize) -> (res: bool)
    requires
        b@.wf(),
        b@.in_bounds((r as int, c as int)),
    ensures
        res == b@.is_free((r as int, c as int)),
{
    proof {
        assert(b.floor@.len() == b@.rows());
        assert(b@.floor[r as int] == b.floor@[r as int].deep_view());
        assert(b.floor@[r as int]@.len() == b@.cols());
        assert(b.occ@.len() == b@.rows());
        assert(b@.occ[r as int] == b.occ@[r as int].deep_view());
        assert(b.occ@[r as int]@.len() == b@.cols());
    }
    let res = b.floor[r][c] && b.occ[r][c].is_none();
    proof {
        assert(b@.floor[r as int][c as int] == b.floor@[r as int]@[c as int]);
        assert(b@.occ[r as int][c as int] == b.occ@[r as int]@[c as int]);
    }
    res
}

/// Reads one distance cell.
fn dist_at(dist: &Vec<Vec<Option<u32>>>, r: usize, c: usize) -> (res: Option<u32>)
    requires
        r < dist.deep_view().len(),
        c < dist.deep_view()[r as int].len(),
    ensures
        res == dist.deep_view()[r as int][c as int],
{
    proof {
        assert(dist@.len() == dist.deep_view().len());
        assert(dist.deep_view()[r as int] == dist@[r as int].deep_view());
        assert(dist@[r as int]@.len() == dist.deep_view()[r as int].len());
    }
    dist[r][c]
}

/// The chosen move destination for a faction-`f` unit standing on `p`:
/// among the reachable free cells next to a foe, the closest, and of those
/// the first in reading order; nothing when no target is reachable.
fn choose_dest(
    b: &Battle,
    dist: &Vec<Vec<Option<u32>>>,
    f: Faction,
    gp: Ghost<(int, int)>,
) -> (res: Option<(u32, usize, usize)>)
    requires
        b@.wf(),
        dist_ok(b@, gp@, dist.deep_view()),
    ensures
        ({
            let p = gp@;
            match res {
                Some(t) => is_best_dest(b@, f, p, (t.1 as int, t.2 as int)) && t.0 == min_dist(
                    b@,
                    p,
                    (t.1 as int, t.2 as int),
                ) && min_dist(b@, p, (t.1 as int, t.2 as int)) <= b@.area(),
                None => !some_dest(b@, f, p),
            }
        }),
{
    let ghost bb = b@;
    let ghost p = gp@;
    let rows = b.floor.len();
    let cols = if rows > 0 {
        b.floor[0].len()
    } else {
        0
    };
    proof {
        assert(b.floor@.len() == bb.rows());
        if rows > 0 {
            assert(bb.floor[0] == b.floor@[0].deep_view());
        }
        assert(rows == bb.rows() && cols == bb.cols());
    }
    let mut best: Option<(u32, usize, usize)> = None;
    let mut r: usize = 0;
    while r < rows
        invariant
            r <= rows,
            bb == b@,
            bb.wf(),
            rows == bb.rows(),
            cols == bb.cols(),
            p == gp@,
            dist_ok(bb, p, dist.deep_view()),
            ({
                match best {
                    Some(t) => {
                        &&& (t.1 as int) < r
                        &&& is_target(bb, f, (t.1 as int, t.2 as int))
                        &&& reachable(bb, p, (t.1 as int, t.2 as int))
                        &&& t.0 == min_dist(bb, p, (t.1 as int, t.2 as int))
                        &&& forall|u: (int, int)|
                            0 <= u.0 < r && 0 <= u.1 < cols && is_target(bb, f, u) && reachable(
                                bb,
                                p,
                                u,
                            ) ==> (t.0 as nat) < min_dist(bb, p, u) || ((t.0 as nat) == min_dist(
                                bb,
                                p,
                                u,
                            ) && rd_le((t.1 as int, t.2 as int), u))
                    },
                    None => forall|u: (int, int)|
                        0 <= u.0 < r && 0 <= u.1 < cols ==> !(is_target(bb, f, u) && reachable(
                            bb,
                            p,
                            u,
                        )),
                }
            }),
        decreases rows - r,
    {
        let mut c: usize = 0;
        while c < cols
            invariant
                r < rows,
                c <= cols,
                bb == b@,
                bb.wf(),
                rows == bb.rows(),
                cols == bb.cols(),
                p == gp@,
                dist_ok(bb, p, dist.deep_view()),
                ({
                    match best {
                        Some(t) => {
                            &&& ((t.1 as int) < r || (t.1 as int == r && (t.2 as int) < c))
                            &&& is_target(bb, f, (t.1 as int, t.2 as int))
                            &&& reachable(bb, p, (t.1 as int, t.2 as int))
                            &&& t.0 == min_dist(bb, p, (t.1 as int, t.2 as int))
                            &&& forall|u: (int, int)|
                                0 <= u.1 < cols && (0 <= u.0 < r || (u.0 == r && 0 <= u.1 < c))
                                    && is_target(bb, f, u) && reachable(bb, p, u) ==> (t.0 as nat)
                                    < min_dist(bb, p, u) || ((t.0 as nat) == min_dist(bb, p, u)
                                    && rd_le((t.1 as int, t.2 as int), u))
                        },
                        None => forall|u: (int, int)|
                            0 <= u.1 < cols && (0 <= u.0 < r || (u.0 == r && 0 <= u.1 < c)) ==> !(
                            is_target(bb, f, u) && reachable(bb, p, u)),
                    }
                }),
            decreases cols - c,
        {
            let dv = dist_at(dist, r, c);
            if let Some(dvv) = dv {
                if is_free_cell(b, r, c) && has_adj_foe_at(b, f, r, c) {
                    proof {
                        assert(is_target(bb, f, (r as int, c as int)));
                        assert(reachable(bb, p, (r as int, c as int)));
                        assert(min_dist(bb, p, (r as int, c as int)) == dvv);
                    }
                    let replace = match best {
                        Some(t) => dvv < t.0,
                        None => true,
                    };
                    if replace {
                        best = Some((dvv, r, c));
                    }
                }
            } else {
                proof {
                    if is_target(bb, f, (r as int, c as int)) && reachable(
                        bb,
                        p,
                        (r as int, c as int),
                    ) {
                        assert(dist.deep_view()[r as int][c as int] is Some);
                    }
                }
            }
            c = c + 1;
        }
        r = r + 1;
    }
    proof {
        if best is Some {
            let t = best.unwrap();
            assert forall|u: (int, int)|
                is_target(bb, f, u) && reachable(bb, p, u) implies ((t.0 as nat) < min_dist(
                bb,
                p,
                u,
            ) || ((t.0 as nat) == min_dist(bb, p, u) && rd_le(
                (t.1 as int, t.2 as int),
                u,
            ))) by {
                assert(bb.is_free(u));
            }
            assert(is_best_dest(bb, f, p, (t.1 as int, t.2 as int)));
            assert(bb.area() >= 0) by (nonlinear_arith)
                requires
                    bb.rows() >= 0,
                    bb.cols() >= 0,
                    bb.area() == bb.rows() * bb.cols(),
            ;
            lemma_min_dist(bb, p, (t.1 as int, t.2 as int));
        } else {
            if some_dest(bb, f, p) {
                let u = choose|u: (int, int)| is_target(bb, f, u) && reachable(bb, p, u);
                assert(bb.is_free(u));
            }
        }
    }
    best
}

/// The hit points of the unit standing on the occupied cell `(r, c)`.
fn hp_at_cell(b: &Battle, r: usize, c: usize) -> (res: i32)
    requires
        b@.wf(),
        b@.in_bounds((r as int, c as int)),
        b@.occ[r as int][c as int] is Some,
    ensures
        res == hp_at(b@, (r as int, c as int)),
{
    proof {
        assert(b.occ@.len() == b@.rows());
        assert(b@.occ[r as int] == b.occ@[r as int].deep_view());
        assert(b.occ@[r as int]@.len() == b@.cols());
    }
    match b.occ[r][c] {
        Some(j) => {
            proof {
                assert(b@.occ[r as int][c as int] == Some(j));
            }
            b.units[j].hp
        },
        None => 0,
    }
}

/// The chosen first step from `(pr, pc)` towards `dest`: of the free
/// neighbours exactly one step closer to it, the first in reading order.
fn choose_step(
    b: &Battle,
    dist2: &Vec<Vec<Option<u32>>>,
    pr: usize,
    pc: usize,
    dr: usize,
    dc: usize,
    d: u32,
) -> (res: (usize, usize))
    requires
        b@.wf(),
        b@.in_bounds((pr as int, pc as int)),
        dist_ok(b@, (dr as int, dc as int), dist2.deep_view()),
        b@.is_free((dr as int, dc as int)),
        reachable(b@, (pr as int, pc as int), (dr as int, dc as int)),
        d == min_dist(b@, (pr as int, pc as int), (dr as int, dc as int)),
        (pr as int, pc as int) != (dr as int, dc as int),
    ensures
        b@.in_bounds((res.0 as int, res.1 as int)),
        is_best_step(
            b@,
            (pr as int, pc as int),
            (dr as int, dc as int),
            (res.0 as int, res.1 as int),
        ),
{
    let ghost bb = b@;
    let ghost p = (pr as int, pc as int);
    let ghost dst = (dr as int, dc as int);
    proof {
        assert(bb.area() >= 0) by (nonlinear_arith)
            requires
                bb.rows() >= 0,
                bb.cols() >= 0,
                bb.area() == bb.rows() * bb.cols(),
        ;
        lemma_min_dist(bb, p, dst);
        assert(d >= 1) by {
            if min_dist(bb, p, dst) == 0 {
                assert(has_path(bb, p, dst, 0nat));
            }
        }
    }
    let nbrs = neighbours(b, pr, pc);
    let mut u: usize = 0;
    while u < nbrs.len()
        invariant
            u <= nbrs@.len(),
            bb == b@,
            bb.wf(),
            p == (pr as int, pc as int),
            dst == (dr as int, dc as int),
            bb.in_bounds(p),
            bb.is_free(dst),
            dist_ok(bb, dst, dist2.deep_view()),
            reachable(bb, p, dst),
            d == min_dist(bb, p, dst),
            p != dst,
            d >= 1,
            d <= bb.area(),
            bb.area() >= 0,
            forall|w: int|
                0 <= w < nbrs@.len() ==> bb.in_bounds(
                    ((#[trigger] nbrs@[w]).0 as int, nbrs@[w].1 as int),
                ) && adjacent(p, (nbrs@[w].0 as int, nbrs@[w].1 as int)),
            forall|q: (int, int)|
                adjacent(p, q) && bb.in_bounds(q) ==> exists|w: int|
                    0 <= w < nbrs@.len() && (#[trigger] nbrs@[w]).0 == q.0 && nbrs@[w].1 == q.1,
            forall|w: int, w2: int|
                0 <= w < w2 < nbrs@.len() ==> rd_le(
                    ((#[trigger] nbrs@[w]).0 as int, nbrs@[w].1 as int),
                    ((#[trigger] nbrs@[w2]).0 as int, nbrs@[w2].1 as int),
                ) && nbrs@[w] != nbrs@[w2],
            forall|w: int|
                0 <= w < u ==> !(bb.is_free(((#[trigger] nbrs@[w]).0 as int, nbrs@[w].1 as int))
                    && dist2.deep_view()[nbrs@[w].0 as int][nbrs@[w].1 as int] == Some((d
                    - 1) as u32)),
        decreases nbrs@.len() - u,
    {
        let (r, c) = nbrs[u];
        if is_free_cell(b, r, c) {
            let dv = dist_at(dist2, r, c);
            let want = d - 1;
            if dv == Some(want) {
                proof {
                    let sp = (r as int, c as int);
                    assert(min_dist(bb, dst, sp) == d - 1 && reachable(bb, dst, sp));
                    lemma_min_dist_sym(bb, dst, sp);
                    assert(min_dist(bb, sp, dst) + 1 == d);
                    assert(step_ok(bb, p, sp));
                    assert forall|s2: (int, int)|
                        step_ok(bb, p, s2) && min_dist(bb, s2, dst) + 1 == min_dist(
                            bb,
                            p,
                            dst,
                        ) implies rd_le(sp, s2) by {
                        assert(bb.in_bounds(s2));
                        let w = choose|w: int|
                            0 <= w < nbrs@.len() && (#[trigger] nbrs@[w]).0 == s2.0
                                && nbrs@[w].1 == s2.1;
                        if w < u {
                            assert(min_dist(bb, s2, dst) == d - 1 < bb.area());
                            lemma_min_dist_lt_area(bb, s2, dst);
                            lemma_min_dist_sym(bb, s2, dst);
                            assert(dist2.deep_view()[s2.0][s2.1] == Some((d - 1) as u32));
                            assert(!(bb.is_free((nbrs@[w].0 as int, nbrs@[w].1 as int))
                                && dist2.deep_view()[nbrs@[w].0 as int][nbrs@[w].1 as int]
                                == Some((d - 1) as u32)));
                        } else if w > u {
                            assert(rd_le(
                                (nbrs@[u as int].0 as int, nbrs@[u as int].1 as int),
                                (nbrs@[w].0 as int, nbrs@[w].1 as int),
                            ));
                        }
                    }
                    assert(is_best_step(bb, p, dst, sp));
                }
                return (r, c);
            }
        }
        u = u + 1;
    }
    proof {
        let sstar = lemma_first_step_exists(bb, p, dst);
        assert(bb.is_free(sstar));
        assert(min_dist(bb, sstar, dst) == d - 1 < bb.area());
        lemma_min_dist_lt_area(bb, sstar, dst);
        lemma_min_dist_sym(bb, sstar, dst);
        assert(dist2.deep_view()[sstar.0][sstar.1] == Some((d - 1) as u32));
        let w = choose|w: int|
            0 <= w < nbrs@.len() && (#[trigger] nbrs@[w]).0 == sstar.0 && nbrs@[w].1 == sstar.1;
        assert(!(bb.is_free((nbrs@[w].0 as int, nbrs@[w].1 as int)) && dist2.deep_view()[
            nbrs@[w].0 as int
        ][nbrs@[w].1 as int] == Some((d - 1) as u32)));
    }
    (pr, pc)
}

/// The chosen attack target for a faction-`f` unit standing on `(pr, pc)`:
/// of the adjacent live foes, the one with fewest hit points, and of those
/// the first in reading order.
fn choose_attack(b: &Battle, f: Faction, pr: usize, pc: usize) -> (res: Option<(usize, usize)>)
    requires
        b@.wf(),
        b@.in_bounds((pr as int, pc as int)),
    ensures
        ({
            match res {
                Some(q) => is_best_attack(b@, f, (pr as int, pc as int), (q.0 as int, q.1 as int))
                    && has_adj_foe(b@, f, (pr as int, pc as int)),
                None => !has_adj_foe(b@, f, (pr as int, pc as int)),
            }
        }),
{
    let ghost bb = b@;
    let ghost p = (pr as int, pc as int);
    let nbrs = neighbours(b, pr, pc);
    let mut best: Option<(i32, usize, usize)> = None;
    let mut u: usize = 0;
    while u < nbrs.len()
        invariant
            u <= nbrs@.len(),
            bb == b@,
            bb.wf(),
            p == (pr as int, pc as int),
            bb.in_bounds(p),
            forall|w: int|
                0 <= w < nbrs@.len() ==> bb.in_bounds(
                    ((#[trigger] nbrs@[w]).0 as int, nbrs@[w].1 as int),
                ) && adjacent(p, (nbrs@[w].0 as int, nbrs@[w].1 as int)),
            forall|q: (int, int)|
                adjacent(p, q) && bb.in_bounds(q) ==> exists|w: int|
                    0 <= w < nbrs@.len() && (#[trigger] nbrs@[w]).0 == q.0 && nbrs@[w].1 == q.1,
            forall|w: int, w2: int|
                0 <= w < w2 < nbrs@.len() ==> rd_le(
                    ((#[trigger] nbrs@[w]).0 as int, nbrs@[w].1 as int),
                    ((#[trigger] nbrs@[w2]).0 as int, nbrs@[w2].1 as int),
                ) && nbrs@[w] != nbrs@[w2],
            best is None ==> forall|w: int|
                0 <= w < u ==> !foe_at(bb, f, ((#[trigger] nbrs@[w]).0 as int, nbrs@[w].1 as int)),
            best is Some ==> ({
                let t = best.unwrap();
                &&& adjacent(p, (t.1 as int, t.2 as int))
                &&& foe_at(bb, f, (t.1 as int, t.2 as int))
                &&& t.0 == hp_at(bb, (t.1 as int, t.2 as int))
                &&& exists|w0: int| 0 <= w0 < u && #[trigger] nbrs@[w0] == (t.1, t.2)
                &&& forall|w: int|
                    0 <= w < u && foe_at(
                        bb,
                        f,
                        ((#[trigger] nbrs@[w]).0 as int, nbrs@[w].1 as int),
                    ) ==> (t.0 as int) < hp_at(bb, (nbrs@[w].0 as int, nbrs@[w].1 as int)) || ((
                    t.0 as int) == hp_at(bb, (nbrs@[w].0 as int, nbrs@[w].1 as int)) && rd_le(
                        (t.1 as int, t.2 as int),
                        (nbrs@[w].0 as int, nbrs@[w].1 as int),
                    ))
            }),
        decreases nbrs@.len() - u,
    {
        let (r, c) = nbrs[u];
        let ghost best0 = best;
        if foe_at_cell(b, f, r, c) {
            let hp = hp_at_cell(b, r, c);
            let replace = match best {
                Some(t) => hp < t.0,
                None => true,
            };
            if replace {
                best = Some((hp, r, c));
                proof {
                    assert(nbrs@[u as int] == (r, c));
                }
            } else {
                proof {
                    let t = best0.unwrap();
                    let w0 = choose|w0: int| 0 <= w0 < u && #[trigger] nbrs@[w0] == (t.1, t.2);
                    if (t.0 as int) == hp as int {
                        assert(rd_le(
                            (nbrs@[w0].0 as int, nbrs@[w0].1 as int),
                            (nbrs@[u as int].0 as int, nbrs@[u as int].1 as int),
                        ));
                    }
                }
            }
        }
        u = u + 1;
    }
    match best {
        Some(t) => {
            proof {
                assert forall|q2: (int, int)|
                    adjacent(p, q2) && foe_at(bb, f, q2) implies (((t.0 as int) < hp_at(bb, q2))
                    || ((t.0 as int) == hp_at(bb, q2) && rd_le((t.1 as int, t.2 as int), q2)))
                    by {
                    let w = choose|w: int|
                        0 <= w < nbrs@.len() && (#[trigger] nbrs@[w]).0 == q2.0 && nbrs@[w].1
                            == q2.1;
                    assert(foe_at(bb, f, (nbrs@[w].0 as int, nbrs@[w].1 as int)));
                }
                assert(is_best_attack(bb, f, p, (t.1 as int, t.2 as int)));
                assert(has_adj_foe(bb, f, p)) by {
                    assert(adjacent(p, (t.1 as int, t.2 as int)) && foe_at(
                        bb,
                        f,
                        (t.1 as int, t.2 as int),
                    ));
                }
            }
            Some((t.1, t.2))
        },
        None => {
            proof {
                if has_adj_foe(bb, f, p) {
                    let q = choose|q: (int, int)| adjacent(p, q) && foe_at(bb, f, q);
                    let w = choose|w: int|
                        0 <= w < nbrs@.len() && (#[trigger] nbrs@[w]).0 == q.0 && nbrs@[w].1
                            == q.1;
                    assert(!foe_at(bb, f, (nbrs@[w].0 as int, nbrs@[w].1 as int)));
                }
            }
            None
        },
    }
}

/// One unit's turn: move towards the nearest reachable target cell unless
/// already next to a foe, then attack the weakest adjacent foe, if any.
/// Keeps the occupancy invariant.
#[verifier::rlimit(100)]
fn take_turn(b: &mut Battle, i: usize, elf_power: i32)
    requires
        old(b)@.wf(),
        old(b)@.live(i as int),
        elf_power >= 0,
    ensures
        final(b)@ == do_turn(old(b)@, i as int, elf_power),
        final(b)@.wf(),
        final(b)@.units.len() == old(b)@.units.len(),
        final(b)@.floor == old(b)@.floor,
{
    let ghost b0 = old(b)@;
    let u0 = b.units[i];
    let f = u0.faction;
    let pr = u0.row;
    let pc = u0.col;
    let ghost p = (pr as int, pc as int);
    proof {
        assert(b0.is_open(b0.unit_pos(i as int)));
        assert(b0.in_bounds(p));
        assert(b0.occ[p.0][p.1] == Some(i));
    }
    let adj = has_adj_foe_at(b, f, pr, pc);
    let mut cr = pr;
    let mut cc = pc;
    let ghost moved = !has_adj_foe(b0, f, p) && some_dest(b0, f, p);
    if !adj {
        let dist = bfs_dist(b, pr, pc);
        proof {
            assert(dist_ok(b@, p, dist.deep_view()));
        }
        let dest = choose_dest(b, &dist, f, Ghost(p));
        match dest {
            Some(t) => {
                let (dv, dr2, dc2) = t;
                let ghost dst = (dr2 as int, dc2 as int);
                proof {
                    assert(is_best_dest(b0, f, p, dst));
                    assert(b0.is_free(dst));
                    assert(dst != p) by {
                        assert(b0.occ[p.0][p.1] == Some(i));
                    }
                    assert(some_dest(b0, f, p)) by {
                        assert(is_target(b0, f, dst) && reachable(b0, p, dst));
                    }
                    assert(best_dest(b0, f, p) == dst) by {
                        assert(is_best_dest(b0, f, p, dst));
                        lemma_best_dest_unique(b0, f, p, best_dest(b0, f, p), dst);
                    }
                }
                let dist2 = bfs_dist(b, dr2, dc2);
                let st = choose_step(b, &dist2, pr, pc, dr2, dc2, dv);
                let (sr, sc) = st;
                let ghost sp = (sr as int, sc as int);
                proof {
                    assert(is_best_step(b0, p, dst, sp));
                    assert(best_step(b0, p, dst) == sp) by {
                        lemma_best_step_unique(b0, p, dst, best_step(b0, p, dst), sp);
                    }
                    assert(b0.is_free(sp));
                    assert(sp != p);
                }
                set_occ(b, pr, pc, None);
                let ghost b1 = b@;
                set_occ(b, sr, sc, Some(i));
                set_unit(b, i, Unit { row: sr, col: sc, ..u0 });
                cr = sr;
                cc = sc;
                proof {
                    assert(b@ == move_unit(b0, i as int, sp));
                    lemma_move_wf(b0, i as int, sp);
                }
            },
            None => {
                proof {
                    assert(!some_dest(b0, f, p));
                }
            },
        }
    }
    let ghost bmid = b@;
    let ghost pmid = (cr as int, cc as int);
    proof {
        if moved {
            assert(bmid == move_unit(b0, i as int, best_step(b0, p, best_dest(b0, f, p))));
            assert(pmid == best_step(b0, p, best_dest(b0, f, p)));
        } else {
            assert(bmid == b0);
            assert(pmid == p);
        }
        assert(bmid.wf());
        assert(bmid.in_bounds(pmid)) by {
            if moved {
            } else {
                assert(b0.in_bounds(p));
            }
        }
    }
    let atk = choose_attack(b, f, cr, cc);
    match atk {
        Some(q) => {
            let (qr, qc) = q;
            let ghost qq = (qr as int, qc as int);
            proof {
                assert(is_best_attack(bmid, f, pmid, qq));
                assert(best_attack(bmid, f, pmid) == qq) by {
                    lemma_best_attack_unique(bmid, f, pmid, best_attack(bmid, f, pmid), qq);
                }
                assert(foe_at(bmid, f, qq));
                assert(bmid.occ[qq.0][qq.1] is Some);
            }
            let power: i32 = if f == Faction::Elf {
                elf_power
            } else {
                3
            };
            proof {
                assert(power as int == attack_power(f, elf_power));
                assert(power >= 0);
            }
            let hp = hp_at_cell(b, qr, qc);
            proof {
                assert(b.occ@.len() == b@.rows());
                assert(b@.occ[qr as int] == b.occ@[qr as int].deep_view());
                assert(b.occ@[qr as int]@.len() == b@.cols());
            }
            let j = match b.occ[qr][qc] {
                Some(j) => j,
                None => 0,
            };
            proof {
                assert(bmid.occ[qq.0][qq.1] == Some(j));
                assert(bmid.live(j as int));
                assert(hp == bmid.units[j as int].hp);
                assert(hp <= 200);
                assert(hp > 0);
            }
            let uj = b.units[j];
            let new_hp = hp - power;
            set_unit(b, j, Unit { hp: new_hp, ..uj });
            if new_hp <= 0 {
                set_occ(b, qr, qc, None);
            }
            proof {
                assert(b@ == apply_attack(bmid, qq, power as int));
                lemma_attack_wf(bmid, qq, power as int);
                assert(b@ == do_turn(b0, i as int, elf_power));
            }
        },
        None => {
            proof {
                assert(!has_adj_foe(bmid, f, pmid));
                assert(b@ == do_turn(b0, i as int, elf_power));
            }
        },
    }
}

/// Moving a unit to a free cell keeps the occupancy invariant.
proof fn lemma_move_wf(b: BoardV, i: int, to: (int, int))
    requires
        b.wf(),
        b.live(i),
        b.is_free(to),
    ensures
        move_unit(b, i, to).wf(),
        move_unit(b, i, to).units.len() == b.units.len(),
        move_unit(b, i, to).floor == b.floor,
{
    assert(b.units.len() <= b.area());
    assert(b.area() <= 0x4000_0000) by (nonlinear_arith)
        requires
            b.rows() <= 0x7fff,
            b.cols() <= 0x7fff,
            b.area() == b.rows() * b.cols(),
            0 <= b.rows(),
            0 <= b.cols(),
    ;
    let p = b.unit_pos(i);
    let b2 = move_unit(b, i, to);
    assert(b.is_open(b.unit_pos(i)));
    assert(b.occ[p.0][p.1] == Some(i as usize));
    assert(b.occ[to.0][to.1] is None);
    assert(to != p);
    assert(b2.rows() == b.rows() && b2.cols() == b.cols());
    assert(0 <= i < b.units.len());
    assert(b2.units[i] == Unit { row: to.0 as usize, col: to.1 as usize, ..b.units[i] });
    assert(b2.occ[to.0][to.1] == Some(i as usize));
    assert(b2.occ[p.0][p.1] is None);
    assert forall|r: int| 0 <= r < b2.rows() implies (#[trigger] b2.occ[r]).len()
        == b2.cols() by {}
    assert forall|j: int| b2.live(j) implies b2.is_open(#[trigger] b2.unit_pos(j))
        && b2.occ[b2.unit_pos(j).0][b2.unit_pos(j).1] == Some(j as usize) by {
        if j == i {
            assert(b2.unit_pos(j) == to);
        } else {
            assert(b2.units[j] == b.units[j]);
            assert(b.live(j));
            let q = b.unit_pos(j);
            assert(b.occ[q.0][q.1] == Some(j as usize));
            assert(q != p) by {
                if q == p {
                    assert(b.occ[p.0][p.1] == Some(j as usize));
                    assert(j as usize == i as usize);
                    assert(0 <= j < b.units.len());
                }
            }
            assert(q != to) by {
                if q == to {
                    assert(b.occ[to.0][to.1] == Some(j as usize));
                }
            }
            assert(b2.occ[q.0][q.1] == b.occ[q.0][q.1]);
        }
    }
    assert forall|r: int, c: int|
        0 <= r < b2.rows() && 0 <= c < b2.cols() && #[trigger] b2.occ[r][c] is Some implies {
        let j = b2.occ[r][c].unwrap() as int;
        &&& b2.live(j)
        &&& b2.units[j].row == r
        &&& b2.units[j].col == c
    } by {
        if (r, c) == to {
            assert(b2.occ[r][c] == Some(i as usize));
            assert(b2.occ[r][c].unwrap() as int == i);
            assert(b2.units[i].hp == b.units[i].hp);
        } else if (r, c) == p {
            assert(b2.occ[r][c] is None);
        } else {
            assert(b2.occ[r][c] == b.occ[r][c]);
            let j = b.occ[r][c].unwrap() as int;
            assert(b.live(j));
            assert(b.units[j].row == r && b.units[j].col == c);
            assert(j != i) by {
                if j == i {
                    assert((r, c) == p);
                }
            }
            assert(b2.units[j] == b.units[j]);
        }
    }
    assert forall|j: int| 0 <= j < b2.units.len() implies (#[trigger] b2.units[j]).hp <= 200 by {
        if j != i {
            assert(b2.units[j] == b.units[j]);
        } else {
            assert(b2.units[i].hp == b.units[i].hp);
        }
    }
}

/// Damaging the unit on `q` keeps the occupancy invariant: a unit brought
/// to zero or below leaves the occupancy at once.
proof fn lemma_attack_wf(b: BoardV, q: (int, int), power: int)
    requires
        b.wf(),
        b.in_bounds(q),
        b.occ[q.0][q.1] is Some,
        0 <= power <= 0x7fff_ffff,
    ensures
        apply_attack(b, q, power).wf(),
        apply_attack(b, q, power).units.len() == b.units.len(),
        apply_attack(b, q, power).floor == b.floor,
{
    assert(b.units.len() <= b.area());
    assert(b.area() <= 0x4000_0000) by (nonlinear_arith)
        requires
            b.rows() <= 0x7fff,
            b.cols() <= 0x7fff,
            b.area() == b.rows() * b.cols(),
            0 <= b.rows(),
            0 <= b.cols(),
    ;
    let j = b.occ[q.0][q.1].unwrap() as int;
    let b2 = apply_attack(b, q, power);
    assert(b.live(j));
    assert(b.units[j].row == q.0 && b.units[j].col == q.1);
    assert(b.units[j].hp <= 200);
    let hp2 = b.units[j].hp - power;
    assert(i32::MIN <= hp2 <= 200);
    assert(b2.units[j].hp == hp2 as i32);
    assert(b2.units == b.units.update(j, Unit { hp: hp2 as i32, ..b.units[j] }));
    assert(b2.rows() == b.rows() && b2.cols() == b.cols());
    if hp2 <= 0 {
        assert(b2.occ[q.0][q.1] is None);
        assert(!b2.live(j));
    } else {
        assert(b2.occ == b.occ);
        assert(b2.live(j));
    }
    assert forall|jj: int| b2.live(jj) implies b2.is_open(#[trigger] b2.unit_pos(jj))
        && b2.occ[b2.unit_pos(jj).0][b2.unit_pos(jj).1] == Some(jj as usize) by {
        if jj == j {
            assert(hp2 > 0);
            assert(b2.unit_pos(j) == q);
            assert(b2.occ[q.0][q.1] == b.occ[q.0][q.1]);
        } else {
            assert(b2.units[jj] == b.units[jj]);
            assert(b.live(jj));
            let qq = b.unit_pos(jj);
            assert(b.occ[qq.0][qq.1] == Some(jj as usize));
            assert(qq != q) by {
                if qq == q {
                    assert(b.occ[q.0][q.1] == Some(jj as usize));
                    assert(jj as usize == j as usize);
                    assert(0 <= jj < b.units.len());
                }
            }
            assert(b2.occ[qq.0][qq.1] == b.occ[qq.0][qq.1]);
        }
    }
    assert forall|r: int, c: int|
        0 <= r < b2.rows() && 0 <= c < b2.cols() && #[trigger] b2.occ[r][c] is Some implies {
        let jj = b2.occ[r][c].unwrap() as int;
        &&& b2.live(jj)
        &&& b2.units[jj].row == r
        &&& b2.units[jj].col == c
    } by {
        if (r, c) == q {
            assert(b2.occ[r][c] == b.occ[r][c]);
            assert(b2.occ[r][c].unwrap() as int == j);
            assert(hp2 > 0);
            assert(b2.live(j));
        } else {
            assert(b2.occ[r][c] == b.occ[r][c]);
            let jj = b.occ[r][c].unwrap() as int;
            assert(b.live(jj));
            assert(b.units[jj].row == r && b.units[jj].col == c);
            assert(jj != j) by {
                if jj == j {
                    assert((r, c) == q);
                }
            }
            assert(b2.units[jj] == b.units[jj]);
        }
    }
    assert forall|jj: int| 0 <= jj < b2.units.len() implies (#[trigger] b2.units[jj]).hp
        <= 200 by {
        if jj != j {
            assert(b2.units[jj] == b.units[jj]);
        }
    }
}

/// One full round: every unit present at its start acts in reading order;
/// reports whether combat ended during the round.
fn run_round(b: &mut Battle, elf_power: i32) -> (ended: bool)
    requires
        old(b)@.wf(),
        elf_power >= 0,
    ensures
        final(b)@ == round_of(old(b)@, elf_power).0,
        ended == round_of(old(b)@, elf_power).1,
        final(b)@.wf(),
        final(b)@.units.len() == old(b)@.units.len(),
        final(b)@.floor == old(b)@.floor,
{
    let ghost b0 = old(b)@;
    let order = compute_order(b);
    proof {
        assert(b0.area() >= 0) by (nonlinear_arith)
            requires
                b0.rows() >= 0,
                b0.cols() >= 0,
                b0.area() == b0.rows() * b0.cols(),
        ;
        lemma_order_from_live(b0, 0);
        assert(order@.skip(0) =~= order@);
    }
    let mut j: usize = 0;
    while j < order.len()
        invariant
            b0 == old(b)@,
            j <= order@.len(),
            order@ == turn_order(b0),
            forall|t: int| 0 <= t < order@.len() ==> b0.live(#[trigger] order@[t] as int),
            b@.wf(),
            b@.units.len() == b0.units.len(),
            b@.floor == b0.floor,
            elf_power >= 0,
            run_turns(b0, order@, elf_power) == run_turns(b@, order@.skip(j as int), elf_power),
        decreases order@.len() - j,
    {
        let i = order[j];
        proof {
            assert(b0.live(i as int));
            assert(i < b@.units.len());
            assert(order@.skip(j as int)[0] == order@[j as int]);
            assert(order@.skip(j as int).drop_first() =~= order@.skip(j as int + 1));
        }
        let u = b.units[i];
        if u.hp > 0 {
            let nf = no_foes_check(b, u.faction);
            if nf {
                proof {
                    assert(b@.units[i as int].hp > 0);
                    assert(run_turns(b@, order@.skip(j as int), elf_power) == (b@, true));
                }
                return true;
            }
            let ghost bprev = b@;
            proof {
                assert(b@.live(i as int));
            }
            take_turn(b, i, elf_power);
            proof {
                assert(run_turns(bprev, order@.skip(j as int), elf_power) == run_turns(
                    do_turn(bprev, i as int, elf_power),
                    order@.skip(j as int + 1),
                    elf_power,
                ));
            }
        } else {
            proof {
                assert(run_turns(b@, order@.skip(j as int), elf_power) == run_turns(
                    b@,
                    order@.skip(j as int + 1),
                    elf_power,
                ));
            }
        }
        j = j + 1;
    }
    proof {
        assert(order@.skip(order@.len() as int) =~= Seq::<usize>::empty());
        assert(run_turns(b@, Seq::<usize>::empty(), elf_power) == (b@, false));
    }
    false
}

/// Runs rounds until combat ends: the number of completed rounds. Gives up
/// once the round counter would overflow; a budget below the cap then never
/// suffices.
pub fn run_battle(b: &mut Battle, elf_power: i32) -> (res: Option<u64>)
    requires
        old(b)@.wf(),
        elf_power >= 0,
    ensures
        final(b)@.wf(),
        ({
            match res {
                Some(n) => n < u64::MAX && battle_from(old(b)@, elf_power, n as nat) == Some(
                    (n as nat, final(b)@),
                ),
                None => forall|fuel: nat|
                    fuel < u64::MAX ==> #[trigger] battle_from(old(b)@, elf_power, fuel)
                        is None,
            }
        }),
{
    let ghost b0 = old(b)@;
    let mut any_live = false;
    let mut i: usize = 0;
    let n = b.units.len();
    while i < n
        invariant
            i <= n,
            n == b@.units.len(),
            b@ == old(b)@,
            any_live == exists|j: int| 0 <= j < i && b@.live(j),
        decreases n - i,
    {
        if b.units[i].hp > 0 {
            proof {
                assert(b@.live(i as int));
            }
            any_live = true;
        }
        proof {
            if any_live {
            } else {
                assert forall|j: int| 0 <= j < i + 1 implies !b@.live(j) by {}
            }
        }
        i = i + 1;
    }
    if !any_live {
        // A board with no unit at all never reaches an end of combat.
        proof {
            assert(forall|j: int| !b0.live(j));
            assert forall|fuel: nat| fuel < u64::MAX implies #[trigger] battle_from(
                b0,
                elf_power,
                fuel,
            ) is None by {
                lemma_no_units_never_ends(b0, elf_power, fuel);
            }
        }
        return None;
    }
    let mut rounds: u64 = 0;
    loop
        invariant
            b0 == old(b)@,
            b@.wf(),
            elf_power >= 0,
            forall|fuel: nat|
                #![trigger battle_from(b0, elf_power, (rounds + fuel) as nat)]
                battle_from(b0, elf_power, (rounds + fuel) as nat) == (match battle_from(
                    b@,
                    elf_power,
                    fuel,
                ) {
                    None => None,
                    Some(r) => Some(((r.0 + rounds) as nat, r.1)),
                }),
            forall|fuel: nat|
                fuel < rounds ==> #[trigger] battle_from(b0, elf_power, fuel) is None,
        decreases u64::MAX - rounds,
    {
        if rounds == u64::MAX {
            return None;
        }
        let ghost bprev = b@;
        let ghost oldrounds = rounds as nat;
        let ended = run_round(b, elf_power);
        if ended {
            proof {
                assert(round_of(bprev, elf_power) == (b@, true));
                assert(battle_from(bprev, elf_power, 0nat) == Some((0nat, b@)));
                assert(battle_from(b0, elf_power, (rounds + 0) as nat) == Some(
                    (rounds as nat, b@),
                ));
            }
            return Some(rounds);
        }
        rounds = rounds + 1;
        proof {
            assert(round_of(bprev, elf_power) == (b@, false));
            assert forall|fuel: nat|
                #[trigger] battle_from(b0, elf_power, ((rounds as nat) + fuel) as nat) == (match battle_from(
                    b@,
                    elf_power,
                    fuel,
                ) {
                    None => None,
                    Some(r) => Some(((r.0 + rounds as nat) as nat, r.1)),
                }) by {
                assert(battle_from(b0, elf_power, (oldrounds + (fuel + 1)) as nat) == (
                match battle_from(bprev, elf_power, (fuel + 1) as nat) {
                    None => None,
                    Some(r) => Some(((r.0 + oldrounds) as nat, r.1)),
                }));
                assert(battle_from(bprev, elf_power, (fuel + 1) as nat) == (
                match battle_from(b@, elf_power, fuel) {
                    None => None,
                    Some(r) => Some(((r.0 + 1) as nat, r.1)),
                }));
            }
            assert forall|fuel: nat| fuel < rounds implies #[trigger] battle_from(
                b0,
                elf_power,
                fuel,
            ) is None by {
                if fuel == oldrounds {
                    assert(battle_from(bprev, elf_power, 0nat) is None);
                    assert(battle_from(b0, elf_power, (oldrounds + 0) as nat) is None);
                }
            }
        }
    }
}

/// Reads the battle's report off the final board.
pub fn battle_outcome_of(b: &Battle, rounds: u64) -> (o: Outcome)
    requires
        b@.wf(),
    ensures
        o == outcome_of(b@, rounds as nat),
{
    let ghost units = b@.units;
    let n = b.units.len();
    proof {
        assert(b@.units.len() <= b@.area());
        assert(b@.area() <= 0x4000_0000) by (nonlinear_arith)
            requires
                b@.rows() <= 0x7fff,
                b@.cols() <= 0x7fff,
                b@.area() == b@.rows() * b@.cols(),
                0 <= b@.rows(),
                0 <= b@.cols(),
        ;
    }
    let mut hp_total: u64 = 0;
    let mut elves: u64 = 0;
    let mut goblins: u64 = 0;
    let mut elves_ok = true;
    let mut k: usize = 0;
    while k < n
        invariant
            k <= n,
            n == units.len(),
            units == b@.units,
            n <= 0x4000_0000,
            forall|t: int| 0 <= t < n ==> (#[trigger] units[t]).hp <= 200,
            hp_total == hp_sum(units.take(k as int)),
            hp_total <= 200 * k,
            elves == live_count(units.take(k as int), Faction::Elf),
            goblins == live_count(units.take(k as int), Faction::Goblin),
            elves <= k,
            goblins <= k,
            elves_ok == lossless(units.take(k as int), Faction::Elf),
        decreases n - k,
    {
        proof {
            assert(units.take(k as int + 1).drop_last() =~= units.take(k as int));
            assert(units.take(k as int + 1).last() == units[k as int]);
        }
        let u = b.units[k];
        if u.hp > 0 {
            hp_total = hp_total + (u.hp as u64);
            if u.faction == Faction::Elf {
                elves = elves + 1;
            } else {
                goblins = goblins + 1;
            }
        } else {
            if u.faction == Faction::Elf {
                elves_ok = false;
            }
        }
        proof {
            let tk = units.take(k as int + 1);
            assert(lossless(tk, Faction::Elf) == (lossless(units.take(k as int), Faction::Elf)
                && (units[k as int].faction != Faction::Elf || units[k as int].hp > 0))) by {
                if lossless(units.take(k as int), Faction::Elf) && (units[k as int].faction
                    != Faction::Elf || units[k as int].hp > 0) {
                    assert forall|t: int|
                        0 <= t < tk.len() && (#[trigger] tk[t]).faction == Faction::Elf implies tk[t].hp
                        > 0 by {
                        if t < k as int {
                            assert(tk[t] == units.take(k as int)[t]);
                        }
                    }
                } else if lossless(tk, Faction::Elf) {
                    assert forall|t: int|
                        0 <= t < k && (#[trigger] units.take(k as int)[t]).faction
                            == Faction::Elf implies units.take(k as int)[t].hp > 0 by {
                        assert(tk[t] == units.take(k as int)[t]);
                    }
                    assert(tk[k as int] == units[k as int]);
                }
            }
        }
        k = k + 1;
    }
    proof {
        assert(units.take(n as int) =~= units);
        assert(hp_sum(units) <= 200 * n);
        assert(live_count(units, Faction::Elf) <= n);
    }
    Outcome {
        rounds,
        hp_total,
        elves_alive: elves,
        goblins_alive: goblins,
        elves_lossless: elves_ok,
    }
}

/// The unit list a parsed map gives: elves first, then goblins, each with
/// 200 hit points, at the parsed (column, row) coordinates.
pub open spec fn all_units(e: Seq<(usize, usize)>, g: Seq<(usize, usize)>) -> Seq<Unit> {
    Seq::new(
        e.len() + g.len(),
        |k: int|
            if k < e.len() {
                Unit { faction: Faction::Elf, hp: 200, row: e[k].1, col: e[k].0 }
            } else {
                Unit { faction: Faction::Goblin, hp: 200, row: g[k - e.len()].1, col: g[k
                    - e.len()].0 }
            },
    )
}

/// One more than the largest row among the open cells.
pub open spec fn max_row(sp: Seq<(usize, usize)>) -> nat
    decreases sp.len(),
{
    if sp.len() == 0 {
        0
    } else if max_row(sp.drop_last()) >= sp.last().1 + 1 {
        max_row(sp.drop_last())
    } else {
        (sp.last().1 + 1) as nat
    }
}

/// One more than the largest column among the open cells.
pub open spec fn max_col(sp: Seq<(usize, usize)>) -> nat
    decreases sp.len(),
{
    if sp.len() == 0 {
        0
    } else if max_col(sp.drop_last()) >= sp.last().0 + 1 {
        max_col(sp.drop_last())
    } else {
        (sp.last().0 + 1) as nat
    }
}

/// Whether the cell in row `r`, column `c` is listed as open.
pub open spec fn in_spaces(sp: Seq<(usize, usize)>, r: int, c: int) -> bool {
    exists|k: int| 0 <= k < sp.len() && (#[trigger] sp[k]).0 == c && sp[k].1 == r
}

/// Whether a parsed map can be built into a battlefield: coordinates below
/// the dimension bound, every unit on an open cell, no two units on the
/// same cell, and no more units than cells.
pub open spec fn valid_scan(
    e: Seq<(usize, usize)>,
    g: Seq<(usize, usize)>,
    sp: Seq<(usize, usize)>,
) -> bool {
    let units = all_units(e, g);
    &&& forall|k: int|
        0 <= k < sp.len() ==> (#[trigger] sp[k]).0 < 0x7fff && sp[k].1 < 0x7fff
    &&& forall|k: int|
        0 <= k < units.len() ==> in_spaces(
            sp,
            (#[trigger] units[k]).row as int,
            units[k].col as int,
        )
    &&& forall|k1: int, k2: int|
        0 <= k1 < k2 < units.len() ==> ((#[trigger] units[k1]).row, units[k1].col) != ((
        #[trigger] units[k2]).row, units[k2].col)
    &&& units.len() <= max_row(sp) * max_col(sp)
}

/// Whether `bv` is the battlefield a parsed map describes: the grid spans
/// the listed open cells, and the units stand as parsed.
pub open spec fn board_rel(
    bv: BoardV,
    e: Seq<(usize, usize)>,
    g: Seq<(usize, usize)>,
    sp: Seq<(usize, usize)>,
) -> bool {
    &&& bv.wf()
    &&& bv.rows() == max_row(sp)
    &&& bv.cols() == max_col(sp)
    &&& forall|r: int, c: int|
        0 <= r < bv.rows() && 0 <= c < bv.cols() ==> #[trigger] bv.floor[r][c] == in_spaces(
            sp,
            r,
            c,
        )
    &&& bv.units == all_units(e, g)
}

/// Two battlefields describing the same parsed map are equal: the grids
/// agree pointwise and the occupancy is pinned by the units.
pub proof fn lemma_board_rel_unique(
    b1: BoardV,
    b2: BoardV,
    e: Seq<(usize, usize)>,
    g: Seq<(usize, usize)>,
    sp: Seq<(usize, usize)>,
)
    requires
        board_rel(b1, e, g, sp),
        board_rel(b2, e, g, sp),
    ensures
        b1 == b2,
{
    assert(b1.floor =~~= b2.floor) by {
        assert(b1.floor.len() == b2.floor.len());
        assert forall|r: int| 0 <= r < b1.floor.len() implies (#[trigger] b1.floor[r]).len()
            == b2.floor[r].len() by {}
        assert forall|r: int, c: int|
            0 <= r < b1.floor.len() && 0 <= c < b1.floor[r].len() implies #[trigger] b1.floor[r][c]
            == b2.floor[r][c] by {
            assert(b1.floor[r][c] == in_spaces(sp, r, c));
            assert(b2.floor[r][c] == in_spaces(sp, r, c));
        }
    }
    assert(b1.occ =~~= b2.occ) by {
        assert forall|r: int, c: int|
            0 <= r < b1.rows() && 0 <= c < b1.cols() implies #[trigger] b1.occ[r][c]
            == b2.occ[r][c] by {
            if b1.occ[r][c] is Some {
                let j = b1.occ[r][c].unwrap() as int;
                assert(b1.live(j) && b1.units[j].row == r && b1.units[j].col == c);
                assert(b2.live(j));
                assert(b2.occ[b2.unit_pos(j).0][b2.unit_pos(j).1] == Some(j as usize));
                assert(b2.unit_pos(j) == (r, c));
            }
            if b2.occ[r][c] is Some {
                let j = b2.occ[r][c].unwrap() as int;
                assert(b2.live(j) && b2.units[j].row == r && b2.units[j].col == c);
                assert(b1.live(j));
                assert(b1.occ[b1.unit_pos(j).0][b1.unit_pos(j).1] == Some(j as usize));
                assert(b1.unit_pos(j) == (r, c));
            }
        }
    }
}

/// Every listed open cell lies inside the grid the maxima span.
proof fn lemma_spaces_bounds(sp: Seq<(usize, usize)>)
    ensures
        forall|k: int|
            0 <= k < sp.len() ==> (#[trigger] sp[k]).1 + 1 <= max_row(sp) && sp[k].0 + 1
                <= max_col(sp),
    decreases sp.len(),
{
    if sp.len() > 0 {
        lemma_spaces_bounds(sp.drop_last());
        assert forall|k: int|
            0 <= k < sp.len() implies (#[trigger] sp[k]).1 + 1 <= max_row(sp) && sp[k].0 + 1
            <= max_col(sp) by {
            if k < sp.len() - 1 {
                assert(sp.drop_last()[k] == sp[k]);
            }
        }
    }
}

/// A rows-by-cols grid of walls.
fn make_grid_bool(rows: usize, cols: usize) -> (g: Vec<Vec<bool>>)
    ensures
        g.deep_view().len() == rows,
        forall|r: int| 0 <= r < rows ==> (#[trigger] g.deep_view()[r]).len() == cols,
        forall|r: int, c: int|
            0 <= r < rows && 0 <= c < cols ==> #[trigger] g.deep_view()[r][c] == false,
{
    let mut g: Vec<Vec<bool>> = Vec::new();
    let mut r: usize = 0;
    while r < rows
        invariant
            r <= rows,
            g.deep_view().len() == r,
            forall|rr: int| 0 <= rr < r ==> (#[trigger] g.deep_view()[rr]).len() == cols,
            forall|rr: int, c: int|
                0 <= rr < r && 0 <= c < cols ==> #[trigger] g.deep_view()[rr][c] == false,
        decreases rows - r,
    {
        let mut row: Vec<bool> = Vec::new();
        let mut c: usize = 0;
        while c < cols
            invariant
                c <= cols,
                row@.len() == c,
                forall|cc: int| 0 <= cc < c ==> row@[cc] == false,
            decreases cols - c,
        {
            row.push(false);
            c = c + 1;
        }
        let ghost old_dv = g.deep_view();
        g.push(row);
        proof {
            assert(g.deep_view() =~~= old_dv.push(row.deep_view()));
            assert(row.deep_view().len() == cols);
            assert(forall|cc: int| 0 <= cc < cols ==> #[trigger] row.deep_view()[cc] == false);
        }
        r = r + 1;
    }
    g
}

/// A rows-by-cols grid with no unit anywhere.
fn make_grid_occ(rows: usize, cols: usize) -> (g: Vec<Vec<Option<usize>>>)
    ensures
        g.deep_view().len() == rows,
        forall|r: int| 0 <= r < rows ==> (#[trigger] g.deep_view()[r]).len() == cols,
        forall|r: int, c: int|
            0 <= r < rows && 0 <= c < cols ==> #[trigger] g.deep_view()[r][c] is None,
{
    let mut g: Vec<Vec<Option<usize>>> = Vec::new();
    let mut r: usize = 0;
    while r < rows
        invariant
            r <= rows,
            g.deep_view().len() == r,
            forall|rr: int| 0 <= rr < r ==> (#[trigger] g.deep_view()[rr]).len() == cols,
            forall|rr: int, c: int|
                0 <= rr < r && 0 <= c < cols ==> #[trigger] g.deep_view()[rr][c] is None,
        decreases rows - r,
    {
        let mut row: Vec<Option<usize>> = Vec::new();
        let mut c: usize = 0;
        while c < cols
            invariant
                c <= cols,
                row@.len() == c,
                forall|cc: int| 0 <= cc < c ==> row@[cc] is None,
            decreases cols - c,
        {
            row.push(None);
            c = c + 1;
        }
        let ghost old_dv = g.deep_view();
        g.push(row);
        proof {
            assert(g.deep_view() =~~= old_dv.push(row.deep_view()));
            assert(row.deep_view().len() == cols);
            assert(forall|cc: int| 0 <= cc < cols ==> #[trigger] row.deep_view()[cc] is None);
        }
        r = r + 1;
    }
    g
}

/// Writes one cell of a wall grid.
fn grid_set_bool(g: &mut Vec<Vec<bool>>, r: usize, c: usize, v: bool)
    requires
        r < old(g)@.len(),
        c < old(g)@[r as int]@.len(),
    ensures
        final(g).deep_view() == old(g).deep_view().update(
            r as int,
            old(g).deep_view()[r as int].update(c as int, v),
        ),
{
    let row = &mut g[r];
    row.set(c, v);
    proof {
        assert(final(g).deep_view() =~~= old(g).deep_view().update(
            r as int,
            old(g).deep_view()[r as int].update(c as int, v),
        ));
    }
}

/// Writes one cell of an occupancy grid.
fn grid_set_occ(g: &mut Vec<Vec<Option<usize>>>, r: usize, c: usize, v: Option<usize>)
    requires
        r < old(g)@.len(),
        c < old(g)@[r as int]@.len(),
    ensures
        final(g).deep_view() == old(g).deep_view().update(
            r as int,
            old(g).deep_view()[r as int].update(c as int, v),
        ),
{
    let row = &mut g[r];
    row.set(c, v);
    proof {
        assert(final(g).deep_view() =~~= old(g).deep_view().update(
            r as int,
            old(g).deep_view()[r as int].update(c as int, v),
        ));
    }
}

/// Builds the battlefield a parsed map describes, or nothing when the map
/// cannot be built.
#[verifier::rlimit(100)]
pub fn build_board(
    elves: &Vec<(usize, usize)>,
    goblins: &Vec<(usize, usize)>,
    spaces: &Vec<(usize, usize)>,
) -> (res: Option<Battle>)
    ensures
        (res is Some) == valid_scan(elves@, goblins@, spaces@),
        res is Some ==> board_rel(res.unwrap()@, elves@, goblins@, spaces@),
{
    let ghost e = elves@;
    let ghost g = goblins@;
    let ghost sp = spaces@;
    let mut rows: usize = 0;
    let mut cols: usize = 0;
    let mut k: usize = 0;
    while k < spaces.len()
        invariant
            k <= sp.len(),
            sp == spaces@,
            rows == max_row(sp.take(k as int)),
            cols == max_col(sp.take(k as int)),
            rows <= 0x7fff,
            cols <= 0x7fff,
            forall|t: int| 0 <= t < k ==> (#[trigger] sp[t]).0 < 0x7fff && sp[t].1 < 0x7fff,
        decreases sp.len() - k,
    {
        let (x, y) = spaces[k];
        if x >= 0x7fff || y >= 0x7fff {
            proof {
                assert(!valid_scan(e, g, sp));
            }
            return None;
        }
        proof {
            assert(sp.take(k as int + 1).drop_last() =~= sp.take(k as int));
            assert(sp.take(k as int + 1).last() == sp[k as int]);
        }
        if y + 1 > rows {
            rows = y + 1;
        }
        if x + 1 > cols {
            cols = x + 1;
        }
        k = k + 1;
    }
    proof {
        assert(sp.take(sp.len() as int) =~= sp);
    }
    proof {
        assert((rows as int) * (cols as int) < 0x4000_0000) by (nonlinear_arith)
            requires
                0 <= rows <= 0x7fff,
                0 <= cols <= 0x7fff,
        ;
    }
    let area = rows * cols;
    proof {
        assert(area == max_row(sp) * max_col(sp));
    }
    let ne = elves.len();
    let ng = goblins.len();
    if ne > area || ng > area - ne {
        proof {
            assert(all_units(e, g).len() == e.len() + g.len());
            assert(!valid_scan(e, g, sp));
        }
        return None;
    }
    let total = ne + ng;
    // Mark the open cells.
    let mut floor = make_grid_bool(rows, cols);
    let mut k: usize = 0;
    proof {
        lemma_spaces_bounds(sp);
    }
    while k < spaces.len()
        invariant
            k <= sp.len(),
            sp == spaces@,
            rows == max_row(sp),
            cols == max_col(sp),
            floor.deep_view().len() == rows,
            forall|r: int| 0 <= r < rows ==> (#[trigger] floor.deep_view()[r]).len() == cols,
            forall|t: int|
                0 <= t < sp.len() ==> (#[trigger] sp[t]).1 + 1 <= rows && sp[t].0 + 1 <= cols,
            forall|r: int, c: int|
                0 <= r < rows && 0 <= c < cols ==> #[trigger] floor.deep_view()[r][c]
                    == in_spaces(sp.take(k as int), r, c),
        decreases sp.len() - k,
    {
        let (x, y) = spaces[k];
        proof {
            assert(sp[k as int] == (x, y));
            assert(floor@.len() == floor.deep_view().len());
            assert(floor.deep_view()[y as int] == floor@[y as int].deep_view());
            assert(floor@[y as int]@.len() == cols);
        }
        let ghost fl0 = floor.deep_view();
        grid_set_bool(&mut floor, y, x, true);
        proof {
            assert forall|r: int, c: int|
                0 <= r < rows && 0 <= c < cols implies #[trigger] floor.deep_view()[r][c]
                == in_spaces(sp.take(k as int + 1), r, c) by {
                if (r, c) == (y as int, x as int) {
                    assert(sp.take(k as int + 1)[k as int] == (x, y));
                    assert(in_spaces(sp.take(k as int + 1), r, c));
                } else {
                    assert(floor.deep_view()[r][c] == fl0[r][c]);
                    if in_spaces(sp.take(k as int + 1), r, c) {
                        let t = choose|t: int|
                            0 <= t < sp.take(k as int + 1).len() && (#[trigger] sp.take(
                                k as int + 1,
                            )[t]).0 == c && sp.take(k as int + 1)[t].1 == r;
                        assert(sp.take(k as int)[t] == sp[t]);
                        assert(in_spaces(sp.take(k as int), r, c));
                    }
                    if in_spaces(sp.take(k as int), r, c) {
                        let t = choose|t: int|
                            0 <= t < sp.take(k as int).len() && (#[trigger] sp.take(
                                k as int,
                            )[t]).0 == c && sp.take(k as int)[t].1 == r;
                        assert(sp.take(k as int + 1)[t] == sp[t]);
                        assert(in_spaces(sp.take(k as int + 1), r, c));
                    }
                }
            }
        }
        k = k + 1;
    }
    proof {
        assert(sp.take(sp.len() as int) =~= sp);
    }
    // Place the units.
    let mut occ = make_grid_occ(rows, cols);
    let mut units: Vec<Unit> = Vec::new();
    let ghost au = all_units(e, g);
    let mut k: usize = 0;
    while k < total
        invariant
            k <= total,
            total == ne + ng,
            ne == e.len(),
            ng == g.len(),
            e == elves@,
            g == goblins@,
            sp == spaces@,
            total <= area,
            area == rows * cols,
            rows == max_row(sp),
            cols == max_col(sp),
            rows <= 0x7fff,
            cols <= 0x7fff,
            au == all_units(e, g),
            floor.deep_view().len() == rows,
            forall|r: int| 0 <= r < rows ==> (#[trigger] floor.deep_view()[r]).len() == cols,
            forall|r: int, c: int|
                0 <= r < rows && 0 <= c < cols ==> #[trigger] floor.deep_view()[r][c]
                    == in_spaces(sp, r, c),
            occ.deep_view().len() == rows,
            forall|r: int| 0 <= r < rows ==> (#[trigger] occ.deep_view()[r]).len() == cols,
            units@.len() == k,
            forall|t: int| 0 <= t < k ==> units@[t] == au[t],
            forall|t: int|
                0 <= t < k ==> (#[trigger] units@[t]).row < rows && units@[t].col < cols
                    && floor.deep_view()[units@[t].row as int][units@[t].col as int]
                    && occ.deep_view()[units@[t].row as int][units@[t].col as int] == Some(
                    t as usize,
                ),
            forall|r: int, c: int|
                0 <= r < rows && 0 <= c < cols && #[trigger] occ.deep_view()[r][c] is Some ==> {
                    let t = occ.deep_view()[r][c].unwrap() as int;
                    &&& 0 <= t < k
                    &&& units@[t].row == r
                    &&& units@[t].col == c
                },
        decreases total - k,
    {
        let (x, y) = if k < ne {
            elves[k]
        } else {
            goblins[k - ne]
        };
        let ghost uk = au[k as int];
        proof {
            assert(uk.row == y && uk.col == x);
            assert(uk.hp == 200);
        }
        if y >= rows || x >= cols {
            proof {
                lemma_spaces_bounds(sp);
                assert(!in_spaces(sp, y as int, x as int)) by {
                    if in_spaces(sp, y as int, x as int) {
                        let t = choose|t: int|
                            0 <= t < sp.len() && (#[trigger] sp[t]).0 == x as int && sp[t].1
                                == y as int;
                        assert(sp[t].1 + 1 <= rows && sp[t].0 + 1 <= cols);
                    }
                }
                assert(!valid_scan(e, g, sp));
            }
            return None;
        }
        proof {
            assert(floor@.len() == floor.deep_view().len());
            assert(floor.deep_view()[y as int] == floor@[y as int].deep_view());
            assert(floor@[y as int]@.len() == cols);
            assert(occ@.len() == occ.deep_view().len());
            assert(occ.deep_view()[y as int] == occ@[y as int].deep_view());
            assert(occ@[y as int]@.len() == cols);
        }
        if !floor[y][x] {
            proof {
                assert(floor.deep_view()[y as int][x as int] == floor@[y as int]@[x as int]);
                assert(!in_spaces(sp, y as int, x as int));
                assert(!valid_scan(e, g, sp));
            }
            return None;
        }
        let dup = match occ[y][x] {
            Some(_) => true,
            None => false,
        };
        if dup {
            proof {
                assert(occ.deep_view()[y as int][x as int] == occ@[y as int]@[x as int]);
                let t = occ.deep_view()[y as int][x as int].unwrap() as int;
                assert(units@[t] == au[t]);
                assert((au[t].row, au[t].col) == (au[k as int].row, au[k as int].col));
                assert(!valid_scan(e, g, sp));
            }
            return None;
        }
        proof {
            assert(occ.deep_view()[y as int][x as int] == occ@[y as int]@[x as int]);
        }
        let ghost occ0 = occ.deep_view();
        grid_set_occ(&mut occ, y, x, Some(k));
        units.push(Unit { faction: if k < ne {
            Faction::Elf
        } else {
            Faction::Goblin
        }, hp: 200, row: y, col: x });
        proof {
            assert(units@[k as int] == uk);
            assert forall|t: int|
                0 <= t < k + 1 implies (#[trigger] units@[t]).row < rows && units@[t].col < cols
                && floor.deep_view()[units@[t].row as int][units@[t].col as int]
                && occ.deep_view()[units@[t].row as int][units@[t].col as int] == Some(
                t as usize,
            ) by {
                if t < k {
                    assert(units@[t] == au[t]);
                    assert((units@[t].row as int, units@[t].col as int) != (y as int, x as int))
                        by {
                        if (units@[t].row as int, units@[t].col as int) == (y as int, x as int) {
                            assert(occ0[y as int][x as int] == Some(t as usize));
                        }
                    }
                    assert(occ.deep_view()[units@[t].row as int][units@[t].col as int]
                        == occ0[units@[t].row as int][units@[t].col as int]);
                }
            }
        }
        k = k + 1;
    }
    let b = Battle { floor, occ, units };
    proof {
        assert(b@.rows() == rows && b@.cols() == cols) by {
            if rows > 0 {
                assert(b@.floor[0].len() == cols);
            }
        }
        assert(b@.units =~= au);
        assert(b@.dims_ok());
        assert forall|i: int| b@.live(i) implies b@.is_open(#[trigger] b@.unit_pos(i))
            && b@.occ[b@.unit_pos(i).0][b@.unit_pos(i).1] == Some(i as usize) by {
            assert(units@[i] == au[i]);
        }
        assert forall|r: int, c: int|
            0 <= r < b@.rows() && 0 <= c < b@.cols() && #[trigger] b@.occ[r][c] is Some implies {
            let t = b@.occ[r][c].unwrap() as int;
            &&& b@.live(t)
            &&& b@.units[t].row == r
            &&& b@.units[t].col == c
        } by {}
        assert(b@.wf());
        assert(board_rel(b@, e, g, sp));
        assert(valid_scan(e, g, sp)) by {
            assert forall|k1: int, k2: int|
                0 <= k1 < k2 < au.len() implies ((#[trigger] au[k1]).row, au[k1].col) != ((
            #[trigger] au[k2]).row, au[k2].col) by {
                assert(units@[k1] == au[k1] && units@[k2] == au[k2]);
                if (au[k1].row, au[k1].col) == (au[k2].row, au[k2].col) {
                    assert(b@.occ[au[k1].row as int][au[k1].col as int] == Some(k1 as usize));
                    assert(b@.occ[au[k2].row as int][au[k2].col as int] == Some(k2 as usize));
                }
            }
            assert forall|t: int|
                0 <= t < au.len() implies in_spaces(
                sp,
                (#[trigger] au[t]).row as int,
                au[t].col as int,
            ) by {
                assert(units@[t] == au[t]);
                assert(floor.deep_view()[au[t].row as int][au[t].col as int]);
            }
        }
    }
    Some(b)
}

/// A board with no live unit has an empty turn order.
proof fn lemma_order_from_empty(b: BoardV, k: nat)
    requires
        b.wf(),
        forall|j: int| !b.live(j),
        k <= b.area(),
    ensures
        order_from(b, k) == Seq::<usize>::empty(),
    decreases b.area() - k,
{
    if k < b.area() {
        lemma_order_from_empty(b, k + 1);
        let r = (k as int) / b.cols();
        let c = (k as int) % b.cols();
        assert(b.cols() > 0) by (nonlinear_arith)
            requires
                0 <= k < b.area(),
                b.area() == b.rows() * b.cols(),
                b.rows() >= 0,
                b.cols() >= 0,
        ;
        assert(0 <= r < b.rows() && 0 <= c < b.cols()) by (nonlinear_arith)
            requires
                0 <= k < b.area(),
                b.area() == b.rows() * b.cols(),
                b.cols() > 0,
                r == (k as int) / b.cols(),
                c == (k as int) % b.cols(),
        ;
        if b.occ[r][c] is Some {
            assert(b.live(b.occ[r][c].unwrap() as int));
        }
    }
}

/// A board with no live unit never reaches an end of combat: every round
/// passes without any unit finding the field empty of foes.
proof fn lemma_no_units_never_ends(b: BoardV, elf_power: i32, fuel: nat)
    requires
        b.wf(),
        forall|j: int| !b.live(j),
    ensures
        battle_from(b, elf_power, fuel) is None,
    decreases fuel,
{
    assert(b.area() >= 0) by (nonlinear_arith)
        requires
            b.rows() >= 0,
            b.cols() >= 0,
            b.area() == b.rows() * b.cols(),
    ;
    lemma_order_from_empty(b, 0);
    assert(round_of(b, elf_power) == (b, false));
    if fuel > 0 {
        lemma_no_units_never_ends(b, elf_power, (fuel - 1) as nat);
    }
}

} // verus!
