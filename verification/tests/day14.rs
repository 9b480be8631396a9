//! The recipe-scoreboard solver on its provided examples and edges.

use aoc2018::day14::solver;

#[test]
fn day14_provided_example_1() {
    let mut s = solver();
    s.presolve("9");
    assert_eq!("5158916779", s.solve_part_one());
}

#[test]
fn day14_provided_example_2() {
    let mut s = solver();
    s.presolve("5");
    assert_eq!("0124515891", s.solve_part_one());
}

#[test]
fn day14_provided_example_3() {
    let mut s = solver();
    s.presolve("18");
    assert_eq!("9251071085", s.solve_part_one());
}

#[test]
fn day14_provided_example_4() {
    let mut s = solver();
    s.presolve("2018");
    assert_eq!("5941429882", s.solve_part_one());
}

#[test]
fn day14_provided_example_5() {
    let mut s = solver();
    s.presolve("51589");
    assert_eq!("9", s.solve_part_two());
}

#[test]
fn provided_example_7() {
    let mut s = solver();
    s.presolve("92510");
    assert_eq!("18", s.solve_part_two());
}

#[test]
fn provided_example_8() {
    let mut s = solver();
    s.presolve("59414");
    assert_eq!("2018", s.solve_part_two());
}

#[test]
fn day14_malformed_input() {
    let mut s = solver();
    s.presolve("recipes");
    assert_eq!("", s.solve_part_one());
    assert_eq!("", s.solve_part_two());
}
