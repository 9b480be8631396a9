//! The polymer solver on its provided examples and edges.

use aoc2018::day05::solver;

#[test]
fn day05_provided_example() {
    let mut s = solver();
    s.presolve("dabAcCaCBAcCcaDA");
    assert_eq!("10", s.solve_part_one());
}

#[test]
fn day05_provided_example_with_nl() {
    let mut s = solver();
    s.presolve("dabAcCaCBAcCcaDA\n");
    assert_eq!("4", s.solve_part_two());
}

#[test]
fn day05_annihilates_completely() {
    let mut s = solver();
    s.presolve("abBA");
    assert_eq!("0", s.solve_part_one());
}

#[test]
fn day05_empty_input() {
    let mut s = solver();
    s.presolve("");
    assert_eq!("0", s.solve_part_one());
}
