//! The plant-row solver on its provided example and edges.

use aoc2018::day12::solver;

#[test]
fn day12_provided_example_1() {
    let mut s = solver();
    s.presolve(
        "initial state: #..#.#..##......###...###

...## => #
..#.. => #
.#... => #
.#.#. => #
.#.## => #
.##.. => #
.#### => #
#.#.# => #
#.### => #
##.#. => #
##.## => #
###.. => #
###.# => #
####. => #
",
    );
    assert_eq!("325", s.solve_part_one());
}

#[test]
fn day12_gliding_row() {
    // A single plant that steps one pot to the right each generation: after
    // fifty billion generations it sits at pot fifty billion.
    let mut s = solver();
    s.presolve(
        "initial state: #

.#... => #
",
    );
    assert_eq!("20", s.solve_part_one());
    assert_eq!("50000000000", s.solve_part_two());
}

#[test]
fn day12_dying_row() {
    // No rule ever fires, so the row dies out at once.
    let mut s = solver();
    s.presolve(
        "initial state: #

..... => .
",
    );
    assert_eq!("", s.solve_part_one());
}

#[test]
fn day12_malformed_rule_line() {
    let mut s = solver();
    s.presolve(
        "initial state: #

#
",
    );
    assert_eq!("", s.solve_part_one());
}
