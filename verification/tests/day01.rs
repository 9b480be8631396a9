//! The frequency-drift solver on its provided examples and edges.

use aoc2018::day01::solver;

#[test]
fn day01_provided_example() {
    let example = "+1
+1
+1
";
    let mut s = solver();
    s.presolve(example);
    assert_eq!("3", s.solve_part_one());
}

#[test]
fn day01_provided_example_two() {
    let example = "+7
+7
-2
-7
-4
";
    let mut s = solver();
    s.presolve(example);
    assert_eq!("14", s.solve_part_two());
}

#[test]
fn day01_negative_sum() {
    let mut s = solver();
    s.presolve("+3\n-10");
    assert_eq!("-7", s.solve_part_one());
}

#[test]
fn day01_malformed_input() {
    let mut s = solver();
    s.presolve("abc");
    assert_eq!("", s.solve_part_one());
    assert_eq!("", s.solve_part_two());
}

#[test]
fn day01_repeat_crosses_laps() {
    // The first repeated running total only appears on the second lap.
    let mut s = solver();
    s.presolve("+1\n-2\n+3");
    // totals: 1, -1, 2, 3, 1 -> first repeat is 1
    assert_eq!("1", s.solve_part_two());
}
