//! The combat simulator on its provided examples, plus edge and behaviour
//! checks: determinism, immediate removal of dead units, a board with no
//! possible moves, and survivor counts under a raised attack power.

use aoc2018::day15::solver;

#[test]
fn day15_provided_example_1() {
    let mut s = solver();
    s.presolve(
        "#######
#.G...#
#...EG#
#.#.#G#
#..G#E#
#.....#
#######
",
    );
    assert_eq!("27730", s.solve_part_one());
    assert_eq!("4988", s.solve_part_two());
}

#[test]
fn day15_provided_example_2() {
    let mut s = solver();
    s.presolve(
        "#######
#G..#E#
#E#E.E#
#G.##.#
#...#E#
#...E.#
#######
",
    );
    assert_eq!("36334", s.solve_part_one());
}

#[test]
fn day15_provided_example_3() {
    let mut s = solver();
    s.presolve(
        "#######
#E..EG#
#.#G.E#
#E.##E#
#G..#.#
#..E#.#
#######
",
    );
    assert_eq!("39514", s.solve_part_one());
    assert_eq!("31284", s.solve_part_two());
}

#[test]
fn day15_provided_example_4() {
    let mut s = solver();
    s.presolve(
        "#######
#E.G#.#
#.#G..#
#G.#.G#
#G..#.#
#...E.#
#######
",
    );
    assert_eq!("27755", s.solve_part_one());
    assert_eq!("3478", s.solve_part_two());
}

#[test]
fn day15_provided_example_5() {
    let mut s = solver();
    s.presolve(
        "#######
#.E...#
#.#..G#
#.###.#
#E#G#G#
#...#G#
#######
",
    );
    assert_eq!("28944", s.solve_part_one());
    assert_eq!("6474", s.solve_part_two());
}

#[test]
fn provided_example_6() {
    let mut s = solver();
    s.presolve(
        "#########
#G......#
#.E.#...#
#..##..G#
#...##..#
#...#...#
#.G...G.#
#.....G.#
#########
",
    );
    assert_eq!("18740", s.solve_part_one());
    assert_eq!("1140", s.solve_part_two());
}

#[test]
fn day15_no_moves_possible() {
    // A corridor where both units are already adjacent: nobody can move,
    // yet the battle terminates with an exact score. The goblin is struck
    // first each round and falls in round 67, leaving the elf at 2 hit
    // points: 67 * 2 = 134.
    let mut s = solver();
    s.presolve(
        "####
#EG#
####
",
    );
    assert_eq!("134", s.solve_part_one());
}

#[test]
fn day15_one_sided_battle_ends_at_once() {
    // With no enemies at all, combat ends before any round completes.
    let mut s = solver();
    s.presolve(
        "#####
#G.G#
#####
",
    );
    assert_eq!("0", s.solve_part_one());
}

#[test]
fn day15_determinism() {
    let map = "#######
#.G...#
#...EG#
#.#.#G#
#..G#E#
#.....#
#######
";
    let mut s1 = solver();
    s1.presolve(map);
    let mut s2 = solver();
    s2.presolve(map);
    let a1 = s1.simulate_battle(3).unwrap();
    let a2 = s2.simulate_battle(3).unwrap();
    assert_eq!(a1, a2);
    assert_eq!(s1.solve_part_one(), s2.solve_part_one());
}

#[test]
fn day15_dead_unit_removed_at_zero() {
    // With a huge elf power the goblin falls in the elf's first blow and
    // is gone at once: it never strikes back, even though its own turn in
    // that round was still to come. The round completes with only the elf,
    // still at full health.
    let mut s = solver();
    s.presolve(
        "####
#EG#
####
",
    );
    let o = s.simulate_battle(200).unwrap();
    assert_eq!(o.goblins_alive, 0);
    assert_eq!(o.elves_alive, 1);
    assert!(o.elves_lossless);
    assert_eq!(o.hp_total, 200);
    assert_eq!(o.rounds, 1);
}

#[test]
fn day15_more_power_no_fewer_elves() {
    // Raising the elf attack power does not decrease elf survivors on the
    // sample maps.
    let map = "#######
#.G...#
#...EG#
#.#.#G#
#..G#E#
#.....#
#######
";
    let mut s = solver();
    s.presolve(map);
    let mut last = 0u64;
    for power in [3i32, 10, 20, 50, 200] {
        let o = s.simulate_battle(power).unwrap();
        assert!(o.elves_alive >= last);
        last = o.elves_alive;
    }
}

#[test]
fn day15_goblins_win_the_first_sample() {
    let mut s = solver();
    s.presolve(
        "#######
#.G...#
#...EG#
#.#.#G#
#..G#E#
#.....#
#######
",
    );
    let o = s.simulate_battle(3).unwrap();
    assert!(!o.elves_lossless);
    assert_eq!(o.elves_alive, 0);
    assert_eq!(o.goblins_alive, 4);
    assert_eq!(o.rounds, 47);
    assert_eq!(o.hp_total, 590);
}

#[test]
fn day15_malformed_empty_map() {
    let mut s = solver();
    s.presolve("");
    assert_eq!("", s.solve_part_one());
    assert_eq!("", s.solve_part_two());
}
