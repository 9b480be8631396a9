//! The license-tree solver on its provided example and edges.

use aoc2018::day08::solver;

#[test]
fn day08_provided_example() {
    let mut s = solver();
    s.presolve("2 3 0 3 10 11 12 1 1 0 1 99 2 1 1 2");
    assert_eq!("138", s.solve_part_one());
    assert_eq!("66", s.solve_part_two());
}

#[test]
fn day08_leaf_only() {
    let mut s = solver();
    s.presolve("0 3 4 5 6");
    assert_eq!("15", s.solve_part_one());
    assert_eq!("15", s.solve_part_two());
}

#[test]
fn day08_out_of_range_metadata_counts_nothing() {
    // One child, one metadata entry referencing a child that is not there.
    let mut s = solver();
    s.presolve("1 1 0 1 7 2");
    assert_eq!("9", s.solve_part_one());
    assert_eq!("0", s.solve_part_two());
}

#[test]
fn day08_malformed_input() {
    let mut s = solver();
    s.presolve("2 3 0");
    assert_eq!("", s.solve_part_one());
    assert_eq!("", s.solve_part_two());
}
