//! The box-identifier solver on its provided examples and edges.

use aoc2018::day02::solver;

#[test]
fn day02_provided_example() {
    let example = "abcdef
bababc
abbcde
abcccd
aabcdd
abcdee
ababab
";
    let mut s = solver();
    s.presolve(example);
    assert_eq!("12", s.solve_part_one());
}

#[test]
fn day02_provided_example_two() {
    let example = "abcde
fghij
klmno
pqrst
fguij
axcye
wvxyz
";
    let mut s = solver();
    s.presolve(example);
    assert_eq!("fgij", s.solve_part_two());
}

#[test]
fn day02_no_pair() {
    let mut s = solver();
    s.presolve("abc\nxyz");
    assert_eq!("", s.solve_part_two());
}

#[test]
fn day02_empty_checksum() {
    let mut s = solver();
    s.presolve("");
    assert_eq!("0", s.solve_part_one());
}
