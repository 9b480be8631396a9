//! The mathematical model of a battle: per-turn decisions under
//! reading-order tie-breaks, rounds, and the battle as a function of the
//! starting board, the elf attack power, and a round budget.

use vstd::prelude::*;
use crate::combat::{adjacent, rd_le, BoardV, Faction, Unit};
use crate::combat::paths::{min_dist, reachable, step_ok};

verus! {

/// What a finished battle reports.
#[derive(PartialEq, Eq, Structural, Clone, Copy, Debug)]
pub struct Outcome {
    /// Completed rounds: a round in which combat ends before every unit has
    /// acted is not counted.
    pub rounds: u64,
    /// The sum of the remaining hit points of all live units.
    pub hp_total: u64,
    pub elves_alive: u64,
    pub goblins_alive: u64,
    /// Whether every elf survived.
    pub elves_lossless: bool,
}

impl Outcome {
    /// The battle score: completed rounds times remaining hit points.
    pub open spec fn spec_score(self) -> int {
        self.rounds * self.hp_total
    }
}

/// Whether a live foe of faction-`f` units stands on cell `q`.
pub open spec fn foe_at(b: BoardV, f: Faction, q: (int, int)) -> bool {
    b.in_bounds(q) && match b.occ[q.0][q.1] {
        Some(j) => b.live(j as int) && b.units[j as int].faction != f,
        None => false,
    }
}

/// Whether a faction-`f` unit standing on `p` has a live foe in reach.
pub open spec fn has_adj_foe(b: BoardV, f: Faction, p: (int, int)) -> bool {
    exists|q: (int, int)| adjacent(p, q) && foe_at(b, f, q)
}

/// Whether no live foe of faction `f` remains anywhere.
pub open spec fn no_foes(b: BoardV, f: Faction) -> bool {
    forall|j: int| b.live(j) ==> (#[trigger] b.units[j]).faction == f
}

/// Whether `t` is a move target for faction `f`: a free cell next to a
/// live foe.
pub open spec fn is_target(b: BoardV, f: Faction, t: (int, int)) -> bool {
    b.is_free(t) && exists|q: (int, int)| adjacent(t, q) && foe_at(b, f, q)
}

/// Whether a reachable move target exists at all.
pub open spec fn some_dest(b: BoardV, f: Faction, p: (int, int)) -> bool {
    exists|t: (int, int)| is_target(b, f, t) && reachable(b, p, t)
}

/// Whether `t` is the chosen destination: among the reachable targets at
/// minimal distance, the first in reading order.
pub open spec fn is_best_dest(b: BoardV, f: Faction, p: (int, int), t: (int, int)) -> bool {
    &&& is_target(b, f, t)
    &&& reachable(b, p, t)
    &&& forall|u: (int, int)|
        #[trigger] is_target(b, f, u) && reachable(b, p, u) ==> min_dist(b, p, t) < min_dist(
            b,
            p,
            u,
        ) || (min_dist(b, p, t) == min_dist(b, p, u) && rd_le(t, u))
}

/// The chosen destination, when one exists.
pub open spec fn best_dest(b: BoardV, f: Faction, p: (int, int)) -> (int, int) {
    choose|t: (int, int)| is_best_dest(b, f, p, t)
}

/// Whether `s` is the chosen first step towards `dest`: among the free
/// neighbours of `p` one step closer to `dest`, the first in reading order.
pub open spec fn is_best_step(b: BoardV, p: (int, int), dest: (int, int), s: (int, int)) -> bool {
    &&& step_ok(b, p, s)
    &&& min_dist(b, s, dest) + 1 == min_dist(b, p, dest)
    &&& forall|s2: (int, int)|
        #[trigger] step_ok(b, p, s2) && min_dist(b, s2, dest) + 1 == min_dist(b, p, dest)
            ==> rd_le(s, s2)
}

/// The chosen first step towards `dest`.
pub open spec fn best_step(b: BoardV, p: (int, int), dest: (int, int)) -> (int, int) {
    choose|s: (int, int)| is_best_step(b, p, dest, s)
}

/// Whether `q` is the chosen attack target for a faction-`f` unit on `p`:
/// among adjacent live foes, fewest hit points first, then reading order.
pub open spec fn is_best_attack(b: BoardV, f: Faction, p: (int, int), q: (int, int)) -> bool {
    &&& adjacent(p, q)
    &&& foe_at(b, f, q)
    &&& forall|q2: (int, int)|
        adjacent(p, q2) && #[trigger] foe_at(b, f, q2) ==> hp_at(b, q) < hp_at(b, q2) || (hp_at(
            b,
            q,
        ) == hp_at(b, q2) && rd_le(q, q2))
}

/// The hit points of the unit standing on `q`.
pub open spec fn hp_at(b: BoardV, q: (int, int)) -> int {
    b.units[b.occ[q.0][q.1].unwrap() as int].hp as int
}

/// The chosen attack target.
pub open spec fn best_attack(b: BoardV, f: Faction, p: (int, int)) -> (int, int) {
    choose|q: (int, int)| is_best_attack(b, f, p, q)
}

/// The attack power a unit of faction `f` deals; goblins always deal 3.
pub open spec fn attack_power(f: Faction, elf_power: i32) -> int {
    if f is Elf {
        elf_power as int
    } else {
        3
    }
}

/// The board with one occupancy cell rewritten.
pub open spec fn occ_set(b: BoardV, p: (int, int), v: Option<usize>) -> BoardV {
    BoardV { occ: b.occ.update(p.0, b.occ[p.0].update(p.1, v)), ..b }
}

/// The board after unit `i` moves to the free cell `to`.
pub open spec fn move_unit(b: BoardV, i: int, to: (int, int)) -> BoardV {
    let p = b.unit_pos(i);
    let b1 = occ_set(occ_set(b, p, None), to, Some(i as usize));
    BoardV {
        units: b1.units.update(
            i,
            Unit { row: to.0 as usize, col: to.1 as usize, ..b.units[i] },
        ),
        ..b1
    }
}

/// The board after the unit on `q` takes `power` damage: its hit points
/// drop, and on reaching zero or below it leaves the occupancy at once.
pub open spec fn apply_attack(b: BoardV, q: (int, int), power: int) -> BoardV {
    let j = b.occ[q.0][q.1].unwrap() as int;
    let u = b.units[j];
    let hp2 = u.hp - power;
    let b1 = BoardV { units: b.units.update(j, Unit { hp: hp2 as i32, ..u }), ..b };
    if hp2 <= 0 {
        occ_set(b1, q, None)
    } else {
        b1
    }
}

/// One unit's turn: move towards the nearest reachable target cell unless
/// already next to a foe, then attack the weakest adjacent foe, if any.
pub open spec fn do_turn(b: BoardV, i: int, elf_power: i32) -> BoardV {
    let f = b.units[i].faction;
    let p = b.unit_pos(i);
    let moved = !has_adj_foe(b, f, p) && some_dest(b, f, p);
    let b1 = if moved {
        move_unit(b, i, best_step(b, p, best_dest(b, f, p)))
    } else {
        b
    };
    let p1 = if moved {
        best_step(b, p, best_dest(b, f, p))
    } else {
        p
    };
    if has_adj_foe(b1, f, p1) {
        apply_attack(b1, best_attack(b1, f, p1), attack_power(f, elf_power))
    } else {
        b1
    }
}

/// The units standing on cells at or after row-major cell index `k`, in
/// reading order of their cells.
pub open spec fn order_from(b: BoardV, k: nat) -> Seq<usize>
    decreases b.area() - k,
    when k <= b.area()
{
    if k >= b.area() {
        Seq::empty()
    } else {
        let r = (k as int) / b.cols();
        let c = (k as int) % b.cols();
        let rest = order_from(b, k + 1);
        match b.occ[r][c] {
            Some(i) => seq![i] + rest,
            None => rest,
        }
    }
}

/// The turn order of a round: every unit present, by the reading order of
/// its cell at the round's start.
pub open spec fn turn_order(b: BoardV) -> Seq<usize> {
    order_from(b, 0)
}

/// Runs the turns of the units listed in `s`. A unit that died earlier in
/// the round is skipped; when a unit about to act has no foes left, the
/// round stops at once and reports that combat has ended.
pub open spec fn run_turns(b: BoardV, s: Seq<usize>, elf_power: i32) -> (BoardV, bool)
    decreases s.len(),
{
    if s.len() == 0 {
        (b, false)
    } else {
        let i = s[0] as int;
        if !(0 <= i < b.units.len()) || b.units[i].hp <= 0 {
            run_turns(b, s.drop_first(), elf_power)
        } else if no_foes(b, b.units[i].faction) {
            (b, true)
        } else {
            run_turns(do_turn(b, i, elf_power), s.drop_first(), elf_power)
        }
    }
}

/// One round: the units act in the reading order of their starting cells.
pub open spec fn round_of(b: BoardV, elf_power: i32) -> (BoardV, bool) {
    run_turns(b, turn_order(b), elf_power)
}

/// Runs rounds until combat ends, allowing at most `fuel` further rounds
/// after the current one: the count of completed rounds and the final
/// board, or nothing when the budget runs out first. The round in which
/// combat ends is not counted.
pub open spec fn battle_from(b: BoardV, elf_power: i32, fuel: nat) -> Option<(nat, BoardV)>
    decreases fuel,
{
    let r = round_of(b, elf_power);
    if r.1 {
        Some((0, r.0))
    } else if fuel == 0 {
        None
    } else {
        match battle_from(r.0, elf_power, (fuel - 1) as nat) {
            None => None,
            Some((n, bf)) => Some(((n + 1) as nat, bf)),
        }
    }
}

/// The sum of the hit points of the live units.
pub open spec fn hp_sum(units: Seq<Unit>) -> int
    decreases units.len(),
{
    if units.len() == 0 {
        0
    } else {
        hp_sum(units.drop_last()) + if units.last().hp > 0 {
            units.last().hp as int
        } else {
            0
        }
    }
}

/// How many units of faction `f` are alive.
pub open spec fn live_count(units: Seq<Unit>, f: Faction) -> nat
    decreases units.len(),
{
    if units.len() == 0 {
        0
    } else {
        live_count(units.drop_last(), f) + if units.last().hp > 0 && units.last().faction == f {
            1nat
        } else {
            0nat
        }
    }
}

/// Whether every unit of faction `f` is alive.
pub open spec fn lossless(units: Seq<Unit>, f: Faction) -> bool {
    forall|i: int|
        0 <= i < units.len() && (#[trigger] units[i]).faction == f ==> units[i].hp > 0
}

/// The report of a battle that ended on board `b` after `rounds` completed
/// rounds.
pub open spec fn outcome_of(b: BoardV, rounds: nat) -> Outcome {
    Outcome {
        rounds: rounds as u64,
        hp_total: hp_sum(b.units) as u64,
        elves_alive: live_count(b.units, Faction::Elf) as u64,
        goblins_alive: live_count(b.units, Faction::Goblin) as u64,
        elves_lossless: lossless(b.units, Faction::Elf),
    }
}

/// The battle's report under a round budget of `fuel`.
pub open spec fn battle_result(b: BoardV, elf_power: i32, fuel: nat) -> Option<Outcome> {
    match battle_from(b, elf_power, fuel) {
        None => None,
        Some((n, bf)) => Some(outcome_of(bf, n)),
    }
}

/// Raising the round budget of a finished battle changes nothing.
pub proof fn lemma_battle_from_mono(b: BoardV, elf_power: i32, f1: nat, f2: nat)
    requires
        f1 <= f2,
        battle_from(b, elf_power, f1) is Some,
    ensures
        battle_from(b, elf_power, f2) == battle_from(b, elf_power, f1),
    decreases f1,
{
    let r = round_of(b, elf_power);
    if r.1 {
    } else {
        lemma_battle_from_mono(r.0, elf_power, (f1 - 1) as nat, (f2 - 1) as nat);
    }
}

/// Determinism: the battle is a function of the board and the elf attack
/// power alone. Any two round budgets that let it finish report the same
/// rounds, the same score, and the same survivors.
pub proof fn lemma_battle_deterministic(b: BoardV, elf_power: i32, f1: nat, f2: nat)
    requires
        battle_result(b, elf_power, f1) is Some,
        battle_result(b, elf_power, f2) is Some,
    ensures
        battle_result(b, elf_power, f1) == battle_result(b, elf_power, f2),
{
    if f1 <= f2 {
        lemma_battle_from_mono(b, elf_power, f1, f2);
    } else {
        lemma_battle_from_mono(b, elf_power, f2, f1);
    }
}

/// A unit brought to zero hit points or below leaves the occupancy at once,
/// counts as dead, and a later turn of its own in the same round does
/// nothing: it can neither be targeted nor act.
pub proof fn lemma_dead_unit_removed(
    b: BoardV,
    q: (int, int),
    power: int,
    rest: Seq<usize>,
    elf_power: i32,
)
    requires
        b.wf(),
        b.in_bounds(q),
        b.occ[q.0][q.1] is Some,
        power >= hp_at(b, q),
        hp_at(b, q) - power >= i32::MIN,
    ensures
        ({
            let j = b.occ[q.0][q.1].unwrap() as int;
            let b2 = apply_attack(b, q, power);
            &&& b2.occ[q.0][q.1] is None
            &&& !b2.live(j)
            &&& forall|f2: Faction| !foe_at(b2, f2, q)
            &&& run_turns(b2, seq![j as usize].add(rest), elf_power) == run_turns(
                b2,
                rest,
                elf_power,
            )
        }),
{
    let j = b.occ[q.0][q.1].unwrap() as int;
    let b2 = apply_attack(b, q, power);
    assert(b2.occ[q.0][q.1] is None);
    assert(seq![j as usize].add(rest).drop_first() =~= rest);
    assert(seq![j as usize].add(rest)[0] == j as usize);
}

/// The chosen destination is unique.
pub proof fn lemma_best_dest_unique(
    b: BoardV,
    f: Faction,
    p: (int, int),
    t1: (int, int),
    t2: (int, int),
)
    requires
        is_best_dest(b, f, p, t1),
        is_best_dest(b, f, p, t2),
    ensures
        t1 == t2,
{
    assert(is_target(b, f, t1) && reachable(b, p, t1));
    assert(is_target(b, f, t2) && reachable(b, p, t2));
    assert(min_dist(b, p, t1) < min_dist(b, p, t2) || (min_dist(b, p, t1) == min_dist(b, p, t2)
        && rd_le(t1, t2)));
    assert(min_dist(b, p, t2) < min_dist(b, p, t1) || (min_dist(b, p, t2) == min_dist(b, p, t1)
        && rd_le(t2, t1)));
}

/// The chosen first step is unique.
pub proof fn lemma_best_step_unique(
    b: BoardV,
    p: (int, int),
    dest: (int, int),
    s1: (int, int),
    s2: (int, int),
)
    requires
        is_best_step(b, p, dest, s1),
        is_best_step(b, p, dest, s2),
    ensures
        s1 == s2,
{
    assert(step_ok(b, p, s1) && min_dist(b, s1, dest) + 1 == min_dist(b, p, dest));
    assert(step_ok(b, p, s2) && min_dist(b, s2, dest) + 1 == min_dist(b, p, dest));
    assert(rd_le(s1, s2));
    assert(rd_le(s2, s1));
}

/// The chosen attack target is unique.
pub proof fn lemma_best_attack_unique(
    b: BoardV,
    f: Faction,
    p: (int, int),
    q1: (int, int),
    q2: (int, int),
)
    requires
        is_best_attack(b, f, p, q1),
        is_best_attack(b, f, p, q2),
    ensures
        q1 == q2,
{
    assert(adjacent(p, q1) && foe_at(b, f, q1));
    assert(adjacent(p, q2) && foe_at(b, f, q2));
    assert(hp_at(b, q1) < hp_at(b, q2) || (hp_at(b, q1) == hp_at(b, q2) && rd_le(q1, q2)));
    assert(hp_at(b, q2) < hp_at(b, q1) || (hp_at(b, q2) == hp_at(b, q1) && rd_le(q2, q1)));
}

/// The battle's report when some round budget below the cap lets it finish;
/// by determinism the budget chosen does not matter.
pub open spec fn capped_battle(b: BoardV, elf_power: i32) -> Option<Outcome> {
    if exists|f: nat| f < u64::MAX && #[trigger] battle_result(b, elf_power, f) is Some {
        battle_result(
            b,
            elf_power,
            choose|f: nat| f < u64::MAX && #[trigger] battle_result(b, elf_power, f) is Some,
        )
    } else {
        None
    }
}

/// The binary search for the least elf attack power that wins without elf
/// losses: it keeps the report of the lowest lossless power probed, and
/// fails when a probed battle does not finish.
pub open spec fn search_min_power(b: BoardV, lo: int, hi: int, best: Option<Outcome>) -> Option<
    Outcome,
>
    decreases hi - lo,
{
    if hi <= lo + 1 {
        best
    } else {
        let m = (lo + hi) / 2;
        match capped_battle(b, m as i32) {
            None => None,
            Some(o) => {
                if o.elves_lossless {
                    search_min_power(b, lo, m, Some(o))
                } else {
                    search_min_power(b, m, hi, best)
                }
            },
        }
    }
}

/// A round in which combat ends before every unit has acted is not
/// counted: whatever round budget remains, such a battle reports zero
/// further rounds beyond those already completed.
pub proof fn lemma_early_end_round_not_counted(b: BoardV, elf_power: i32, fuel: nat)
    requires
        round_of(b, elf_power).1,
    ensures
        battle_result(b, elf_power, fuel) == Some(outcome_of(round_of(b, elf_power).0, 0)),
{
}

} // verus!
