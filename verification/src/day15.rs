//! The goblins-versus-elves battle: parsing the map, running the combat
//! simulator at a fixed elf attack power, and searching for the least elf
//! attack power that wins without elf losses.

use vstd::prelude::*;
use crate::combat::BoardV;
use crate::combat::model::{
    battle_result, capped_battle, lemma_battle_deterministic, search_min_power, Outcome,
};
use crate::combat::sim::{
    battle_outcome_of, board_rel, build_board, lemma_board_rel_unique, run_battle, valid_scan,
};
use crate::text::{dec_digits, split_on, u128_to_string};

verus! {

/// Whether a map character marks a passable cell.
pub open spec fn is_ground(c: char) -> bool {
    c == '.' || c == 'G' || c == 'E'
}

/// The `(column, row)` pairs of the cells of one row, from column `x` on,
/// holding character `ch`.
pub open spec fn row_marks(line: Seq<char>, x: nat, y: usize, ch: char) -> Seq<(usize, usize)>
    decreases line.len() - x,
    when x <= line.len()
{
    if x >= line.len() {
        Seq::empty()
    } else {
        (if line[x as int] == ch {
            seq![(x as usize, y)]
        } else {
            Seq::empty()
        }) + row_marks(line, x + 1, y, ch)
    }
}

/// The `(column, row)` pairs of the passable cells of one row, from column
/// `x` on.
pub open spec fn row_grounds(line: Seq<char>, x: nat, y: usize) -> Seq<(usize, usize)>
    decreases line.len() - x,
    when x <= line.len()
{
    if x >= line.len() {
        Seq::empty()
    } else {
        (if is_ground(line[x as int]) {
            seq![(x as usize, y)]
        } else {
            Seq::empty()
        }) + row_grounds(line, x + 1, y)
    }
}

/// All cells holding `ch`, in reading order, from row `y` on.
pub open spec fn marks_of(lines: Seq<Seq<char>>, y: nat, ch: char) -> Seq<(usize, usize)>
    decreases lines.len() - y,
    when y <= lines.len()
{
    if y >= lines.len() {
        Seq::empty()
    } else {
        row_marks(lines[y as int], 0, y as usize, ch) + marks_of(lines, y + 1, ch)
    }
}

/// All passable cells, in reading order, from row `y` on.
pub open spec fn grounds_of(lines: Seq<Seq<char>>, y: nat) -> Seq<(usize, usize)>
    decreases lines.len() - y,
    when y <= lines.len()
{
    if y >= lines.len() {
        Seq::empty()
    } else {
        row_grounds(lines[y as int], 0, y as usize) + grounds_of(lines, y + 1)
    }
}

/// The battle map solver: the parsed unit and floor positions.
pub struct PuzzleSolver {
    goblins: Vec<(usize, usize)>,
    elves: Vec<(usize, usize)>,
    spaces: Vec<(usize, usize)>,
}

/// The score text a finished search or battle yields; empty when none.
pub open spec fn score_text(res: Option<Outcome>) -> Seq<char> {
    match res {
        Some(o) => dec_digits((o.rounds * o.hp_total) as nat),
        None => Seq::empty(),
    }
}

impl PuzzleSolver {
    /// The parsed map: elf cells, goblin cells, and passable cells, each as
    /// `(column, row)` pairs in reading order.
    pub closed spec fn parsed(self) -> (Seq<(usize, usize)>, Seq<(usize, usize)>, Seq<
        (usize, usize),
    >) {
        (self.elves@, self.goblins@, self.spaces@)
    }

    /// Reads the map: `.` is floor, `G` a goblin on floor, `E` an elf on
    /// floor; everything else is wall.
    pub fn presolve(&mut self, input: &str)
        ensures
            final(self).parsed() == ({
                let lines = split_on(input@, '\n');
                (marks_of(lines, 0, 'E'), marks_of(lines, 0, 'G'), grounds_of(lines, 0))
            }),
    {
        let lines = crate::text::split_char(input, '\n');
        let ghost ls = split_on(input@, '\n');
        let mut elves: Vec<(usize, usize)> = Vec::new();
        let mut goblins: Vec<(usize, usize)> = Vec::new();
        let mut spaces: Vec<(usize, usize)> = Vec::new();
        let mut y: usize = 0;
        proof {
            assert(lines.deep_view() == ls);
        }
        while y < lines.len()
            invariant
                y <= lines@.len(),
                lines.deep_view() == ls,
                ls == split_on(input@, '\n'),
                marks_of(ls, 0, 'E') == elves@ + marks_of(ls, y as nat, 'E'),
                marks_of(ls, 0, 'G') == goblins@ + marks_of(ls, y as nat, 'G'),
                grounds_of(ls, 0) == spaces@ + grounds_of(ls, y as nat),
            decreases lines@.len() - y,
        {
            let line = lines[y].as_str();
            proof {
                assert(line@ == ls[y as int]);
            }
            let n = line.unicode_len();
            let mut x: usize = 0;
            while x < n
                invariant
                    x <= n,
                    y < lines@.len(),
                    lines.deep_view() == ls,
                    ls == split_on(input@, '\n'),
                    line@ == ls[y as int],
                    n == line@.len(),
                    marks_of(ls, 0, 'E') == elves@ + row_marks(line@, x as nat, y, 'E')
                        + marks_of(ls, y as nat + 1, 'E'),
                    marks_of(ls, 0, 'G') == goblins@ + row_marks(line@, x as nat, y, 'G')
                        + marks_of(ls, y as nat + 1, 'G'),
                    grounds_of(ls, 0) == spaces@ + row_grounds(line@, x as nat, y)
                        + grounds_of(ls, y as nat + 1),
                decreases n - x,
            {
                let c = line.get_char(x);
                let ghost e0 = elves@;
                let ghost g0 = goblins@;
                let ghost s0 = spaces@;
                if c == '.' {
                    spaces.push((x, y));
                } else if c == 'G' {
                    spaces.push((x, y));
                    goblins.push((x, y));
                } else if c == 'E' {
                    spaces.push((x, y));
                    elves.push((x, y));
                }
                proof {
                    assert(row_marks(line@, x as nat, y, 'E') == (if line@[x as int] == 'E' {
                        seq![(x, y)]
                    } else {
                        Seq::empty()
                    }) + row_marks(line@, x as nat + 1, y, 'E'));
                    assert(row_marks(line@, x as nat, y, 'G') == (if line@[x as int] == 'G' {
                        seq![(x, y)]
                    } else {
                        Seq::empty()
                    }) + row_marks(line@, x as nat + 1, y, 'G'));
                    assert(row_grounds(line@, x as nat, y) == (if is_ground(line@[x as int]) {
                        seq![(x, y)]
                    } else {
                        Seq::empty()
                    }) + row_grounds(line@, x as nat + 1, y));
                    assert(elves@ + row_marks(line@, x as nat + 1, y, 'E') =~= e0 + row_marks(
                        line@,
                        x as nat,
                        y,
                        'E',
                    ));
                    assert(goblins@ + row_marks(line@, x as nat + 1, y, 'G') =~= g0 + row_marks(
                        line@,
                        x as nat,
                        y,
                        'G',
                    ));
                    assert(spaces@ + row_grounds(line@, x as nat + 1, y) =~= s0 + row_grounds(
                        line@,
                        x as nat,
                        y,
                    ));
                }
                x = x + 1;
            }
            proof {
                assert(row_marks(line@, n as nat, y, 'E') =~= Seq::<(usize, usize)>::empty());
                assert(row_marks(line@, n as nat, y, 'G') =~= Seq::<(usize, usize)>::empty());
                assert(row_grounds(line@, n as nat, y) =~= Seq::<(usize, usize)>::empty());
                assert(elves@ + marks_of(ls, y as nat + 1, 'E') =~= elves@ + row_marks(
                    line@,
                    n as nat,
                    y,
                    'E',
                ) + marks_of(ls, y as nat + 1, 'E'));
                assert(goblins@ + marks_of(ls, y as nat + 1, 'G') =~= goblins@ + row_marks(
                    line@,
                    n as nat,
                    y,
                    'G',
                ) + marks_of(ls, y as nat + 1, 'G'));
                assert(spaces@ + grounds_of(ls, y as nat + 1) =~= spaces@ + row_grounds(
                    line@,
                    n as nat,
                    y,
                ) + grounds_of(ls, y as nat + 1));
            }
            y = y + 1;
        }
        proof {
            assert(marks_of(ls, y as nat, 'E') =~= Seq::<(usize, usize)>::empty());
            assert(marks_of(ls, y as nat, 'G') =~= Seq::<(usize, usize)>::empty());
            assert(grounds_of(ls, y as nat) =~= Seq::<(usize, usize)>::empty());
            assert(elves@ + Seq::<(usize, usize)>::empty() =~= elves@);
            assert(goblins@ + Seq::<(usize, usize)>::empty() =~= goblins@);
            assert(spaces@ + Seq::<(usize, usize)>::empty() =~= spaces@);
        }
        self.elves = elves;
        self.goblins = goblins;
        self.spaces = spaces;
    }

    /// Runs the battle at the given elf attack power: the report of the
    /// finished battle, or nothing when the map cannot be built or the
    /// battle outlasts the round cap. A negative power would raise hit
    /// points without bound, so it is excluded.
    pub fn simulate_battle(&self, elf_power: i32) -> (res: Option<Outcome>)
        requires
            elf_power >= 0,
        ensures
            ({
                let (e, g, sp) = self.parsed();
                match res {
                    Some(o) => valid_scan(e, g, sp) && forall|bv: BoardV|
                        board_rel(bv, e, g, sp) ==> exists|fuel: nat|
                            fuel < u64::MAX && #[trigger] battle_result(bv, elf_power, fuel)
                                == Some(o),
                    None => !valid_scan(e, g, sp) || forall|bv: BoardV, fuel: nat|
                        board_rel(bv, e, g, sp) && fuel < u64::MAX
                            ==> #[trigger] battle_result(bv, elf_power, fuel) is None,
                }
            }),
    {
        let ghost e = self.elves@;
        let ghost g = self.goblins@;
        let ghost sp = self.spaces@;
        match build_board(&self.elves, &self.goblins, &self.spaces) {
            None => None,
            Some(mut battle) => {
                let ghost b0 = battle@;
                proof {
                    assert(board_rel(b0, e, g, sp));
                }
                match run_battle(&mut battle, elf_power) {
                    None => {
                        proof {
                            assert forall|bv: BoardV, fuel: nat|
                                board_rel(bv, e, g, sp) && fuel < u64::MAX implies #[trigger] battle_result(
                                bv,
                                elf_power,
                                fuel,
                            ) is None by {
                                lemma_board_rel_unique(bv, b0, e, g, sp);
                            }
                        }
                        None
                    },
                    Some(n) => {
                        let o = battle_outcome_of(&battle, n);
                        proof {
                            assert(battle_result(b0, elf_power, n as nat) == Some(o));
                            assert forall|bv: BoardV|
                                board_rel(bv, e, g, sp) implies exists|fuel: nat|
                                fuel < u64::MAX && #[trigger] battle_result(bv, elf_power, fuel)
                                    == Some(o) by {
                                lemma_board_rel_unique(bv, b0, e, g, sp);
                                assert((n as nat) < u64::MAX && battle_result(
                                    bv,
                                    elf_power,
                                    n as nat,
                                ) == Some(o));
                            }
                        }
                        Some(o)
                    },
                }
            },
        }
    }

    /// The battle score at the default elf attack power of 3, in decimal;
    /// empty when the map cannot be built or the battle does not finish.
    pub fn solve_part_one(&self) -> (r: String)
        ensures
            ({
                let (e, g, sp) = self.parsed();
                &&& valid_scan(e, g, sp) ==> forall|bv: BoardV|
                    board_rel(bv, e, g, sp) ==> r@ == score_text(
                        #[trigger] capped_battle(bv, 3),
                    )
                &&& !valid_scan(e, g, sp) ==> r@ =~= Seq::<char>::empty()
            }),
    {
        let ghost e = self.elves@;
        let ghost g = self.goblins@;
        let ghost sp = self.spaces@;
        let res = self.simulate_battle(3);
        match res {
            Some(o) => {
                proof {
                    assert forall|bv: BoardV| board_rel(bv, e, g, sp) implies capped_battle(
                        bv,
                        3,
                    ) == Some(o) by {
                        lemma_capped_agrees(bv, 3, o);
                    }
                }
                proof {
                    assert((o.rounds as int) * (o.hp_total as int)
                        < 0x1_0000_0000_0000_0000_0000_0000_0000_0000) by (nonlinear_arith)
                        requires
                            o.rounds < 0x1_0000_0000_0000_0000,
                            o.hp_total < 0x1_0000_0000_0000_0000,
                    ;
                }
                let score: u128 = (o.rounds as u128) * (o.hp_total as u128);
                u128_to_string(score)
            },
            None => {
                proof {
                    if valid_scan(e, g, sp) {
                        assert forall|bv: BoardV| board_rel(bv, e, g, sp) implies capped_battle(
                            bv,
                            3,
                        ) is None by {
                            if capped_battle(bv, 3) is Some {
                                let f0 = choose|f: nat|
                                    f < u64::MAX && #[trigger] battle_result(bv, 3, f) is Some;
                                assert(battle_result(bv, 3, f0) is None);
                            }
                        }
                    }
                }
                String::new()
            },
        }
    }

    /// The battle score at the least lossless elf attack power found by
    /// binary search between 3 and 201, in decimal; empty when the map
    /// cannot be built, a probed battle does not finish, or no probed
    /// power is lossless.
    pub fn solve_part_two(&self) -> (r: String)
        ensures
            ({
                let (e, g, sp) = self.parsed();
                &&& valid_scan(e, g, sp) ==> forall|bv: BoardV|
                    board_rel(bv, e, g, sp) ==> r@ == score_text(
                        #[trigger] search_min_power(bv, 3, 201, None),
                    )
                &&& !valid_scan(e, g, sp) ==> r@ =~= Seq::<char>::empty()
            }),
    {
        let ghost e = self.elves@;
        let ghost g = self.goblins@;
        let ghost sp = self.spaces@;
        let mut lo: i32 = 3;
        let mut hi: i32 = 201;
        let mut best: Option<Outcome> = None;
        while hi > lo + 1
            invariant
                3 <= lo < hi <= 201,
                (hi < 201 || lo > 3) ==> valid_scan(e, g, sp),
                e == self.elves@,
                g == self.goblins@,
                sp == self.spaces@,
                valid_scan(e, g, sp) ==> forall|bv: BoardV|
                    board_rel(bv, e, g, sp) ==> #[trigger] search_min_power(bv, 3, 201, None)
                        == search_min_power(bv, lo as int, hi as int, best),
            decreases hi - lo,
        {
            let m = (lo + hi) / 2;
            let ghost lo0 = lo as int;
            let ghost hi0 = hi as int;
            let ghost best0 = best;
            let res = self.simulate_battle(m);
            match res {
                None => {
                    proof {
                        if valid_scan(e, g, sp) {
                            assert forall|bv: BoardV|
                                board_rel(bv, e, g, sp) implies search_min_power(
                                bv,
                                3,
                                201,
                                None,
                            ) is None by {
                                assert(capped_battle(bv, m as i32) is None) by {
                                    if capped_battle(bv, m as i32) is Some {
                                        let f0 = choose|f: nat|
                                            f < u64::MAX && #[trigger] battle_result(
                                                bv,
                                                m as i32,
                                                f,
                                            ) is Some;
                                        assert(battle_result(bv, m as i32, f0) is None);
                                    }
                                }
                                assert(search_min_power(bv, lo0, hi0, best0) is None);
                            }
                        }
                    }
                    return String::new();
                },
                Some(o) => {
                    proof {
                        if valid_scan(e, g, sp) {
                            assert forall|bv: BoardV|
                                board_rel(bv, e, g, sp) implies #[trigger] capped_battle(
                                bv,
                                m as i32,
                            ) == Some(o) by {
                                lemma_capped_agrees(bv, m as i32, o);
                            }
                        }
                    }
                    if o.elves_lossless {
                        hi = m;
                        best = Some(o);
                    } else {
                        lo = m;
                    }
                    proof {
                        assert(valid_scan(e, g, sp));
                        assert forall|bv: BoardV|
                            board_rel(bv, e, g, sp) implies #[trigger] search_min_power(
                            bv,
                            3,
                            201,
                            None,
                        ) == search_min_power(bv, lo as int, hi as int, best) by {
                            assert(search_min_power(bv, lo0, hi0, best0) == (
                            if o.elves_lossless {
                                search_min_power(bv, lo0, m as int, Some(o))
                            } else {
                                search_min_power(bv, m as int, hi0, best0)
                            }));
                        }
                    }
                },
            }
        }
        match best {
            Some(o) => {
                proof {
                    assert((o.rounds as int) * (o.hp_total as int)
                        < 0x1_0000_0000_0000_0000_0000_0000_0000_0000) by (nonlinear_arith)
                        requires
                            o.rounds < 0x1_0000_0000_0000_0000,
                            o.hp_total < 0x1_0000_0000_0000_0000,
                    ;
                }
                let score: u128 = (o.rounds as u128) * (o.hp_total as u128);
                u128_to_string(score)
            },
            None => String::new(),
        }
    }
}

/// When one round budget below the cap finishes the battle with report `o`,
/// the capped battle reports exactly `o`.
proof fn lemma_capped_agrees(bv: BoardV, elf_power: i32, o: Outcome)
    requires
        exists|fuel: nat|
            fuel < u64::MAX && #[trigger] battle_result(bv, elf_power, fuel) == Some(o),
    ensures
        capped_battle(bv, elf_power) == Some(o),
{
    let fuel = choose|fuel: nat|
        fuel < u64::MAX && #[trigger] battle_result(bv, elf_power, fuel) == Some(o);
    let f0 = choose|f: nat| f < u64::MAX && #[trigger] battle_result(bv, elf_power, f) is Some;
    assert(battle_result(bv, elf_power, fuel) is Some);
    assert(battle_result(bv, elf_power, f0) is Some);
    lemma_battle_deterministic(bv, elf_power, f0, fuel);
}

/// A fresh solver with no map read yet.
pub fn solver() -> (s: PuzzleSolver)
    ensures
        s.parsed() == (
            Seq::<(usize, usize)>::empty(),
            Seq::<(usize, usize)>::empty(),
            Seq::<(usize, usize)>::empty(),
        ),
{
    PuzzleSolver { goblins: Vec::new(), elves: Vec::new(), spaces: Vec::new() }
}

} // verus!
