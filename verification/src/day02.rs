//! Box-identifier scan: a checksum counting identifiers with doubled and
//! tripled letters, and the common letters of the one pair of identifiers
//! differing in a single position.

use vstd::prelude::*;
use crate::text::{dec_digits, split_char, split_on, trim, trim_str, u128_to_string};

verus! {

/// Solver state: the identifier lines of the input.
pub struct Day1Solver {
    input: Vec<String>,
}

/// How many characters of `s` equal `c`.
pub open spec fn count_eq(s: Seq<char>, c: char) -> nat
    decreases s.len(),
{
    if s.len() == 0 {
        0
    } else {
        count_eq(s.drop_last(), c) + if s.last() == c {
            1nat
        } else {
            0nat
        }
    }
}

/// Whether some character occurs exactly `m` times in `s`.
pub open spec fn has_rep(s: Seq<char>, m: nat) -> bool {
    exists|c: char| count_eq(s, c) == m
}

/// How many of `lines` have a character occurring exactly `m` times.
pub open spec fn count_with_rep(lines: Seq<Seq<char>>, m: nat) -> nat
    decreases lines.len(),
{
    if lines.len() == 0 {
        0
    } else {
        count_with_rep(lines.drop_last(), m) + if has_rep(lines.last(), m) {
            1nat
        } else {
            0nat
        }
    }
}

/// The characters shared position by position by two equally long strings.
pub open spec fn ccm(a: Seq<char>, b: Seq<char>) -> Seq<char>
    decreases a.len(),
{
    if a.len() == 0 || b.len() == 0 {
        Seq::empty()
    } else {
        ccm(a.drop_last(), b.drop_last()) + if a.last() == b.last() {
            seq![a.last()]
        } else {
            Seq::empty()
        }
    }
}

/// The characters of `a` equal to the character of `b` at the same position,
/// in order: what zipping the two strings keeps.
pub open spec fn common_chars(a: Seq<char>, b: Seq<char>) -> Seq<char> {
    let m = if a.len() <= b.len() {
        a.len()
    } else {
        b.len()
    };
    ccm(a.take(m as int), b.take(m as int))
}

/// Whether lines `i` and `j` form a reported pair: their common characters
/// leave exactly one character of line `j` unmatched.
pub open spec fn found_pair(lines: Seq<Seq<char>>, i: int, j: int) -> bool {
    common_chars(lines[i], lines[j]).len() + 1 == lines[j].len()
}

/// Whether `(i, j)` is the first reported pair in scan order: `i` outer,
/// `j` inner.
pub open spec fn is_first_pair(lines: Seq<Seq<char>>, i: int, j: int) -> bool {
    &&& 0 <= i < lines.len()
    &&& 0 <= j < lines.len()
    &&& found_pair(lines, i, j)
    &&& forall|i2: int, j2: int|
        0 <= i2 < lines.len() && 0 <= j2 < lines.len() && (i2 < i || (i2 == i && j2 < j))
            ==> !found_pair(lines, i2, j2)
}

impl Day1Solver {
    /// The identifier lines this solver holds.
    pub closed spec fn lines(self) -> Seq<Seq<char>> {
        self.input.deep_view()
    }

    /// Reads one identifier per line.
    pub fn presolve(&mut self, input: &str)
        ensures
            final(self).lines() == split_on(trim(input@), '\n'),
    {
        let t = trim_str(input);
        self.input = split_char(t, '\n');
    }

    /// The checksum: the number of lines with a doubled character times the
    /// number of lines with a tripled character, in decimal.
    pub fn solve_part_one(&self) -> (r: String)
        ensures
            r@ == dec_digits(
                count_with_rep(self.lines(), 2) * count_with_rep(self.lines(), 3),
            ),
    {
        let ghost lines = self.lines();
        let mut with_two: usize = 0;
        let mut with_three: usize = 0;
        let mut i: usize = 0;
        let n = self.input.len();
        while i < n
            invariant
                i <= n,
                n == self.input@.len(),
                lines == self.input.deep_view(),
                lines == self.lines(),
                lines.len() == n,
                with_two == count_with_rep(lines.take(i as int), 2),
                with_three == count_with_rep(lines.take(i as int), 3),
                with_two <= i,
                with_three <= i,
            decreases n - i,
        {
            proof {
                assert(lines.take(i + 1).drop_last() =~= lines.take(i as int));
                assert(lines[i as int] == self.input@[i as int]@);
            }
            if has_rep_str(self.input[i].as_str(), 2) {
                with_two = with_two + 1;
            }
            if has_rep_str(self.input[i].as_str(), 3) {
                with_three = with_three + 1;
            }
            i = i + 1;
        }
        proof {
            assert(lines.take(n as int) =~= lines);
            assert((with_two as int) * (with_three as int)
                < 0x1_0000_0000_0000_0000_0000_0000_0000_0000) by (nonlinear_arith)
                requires
                    with_two < 0x1_0000_0000_0000_0000,
                    with_three < 0x1_0000_0000_0000_0000,
            ;
        }
        let product: u128 = (with_three as u128) * (with_two as u128);
        proof {
            assert((with_three as int) * (with_two as int) == (with_two as int) * (
            with_three as int)) by (nonlinear_arith);
            assert(product as nat == count_with_rep(self.lines(), 2) * count_with_rep(
                self.lines(),
                3,
            ));
        }
        u128_to_string(product)
    }

    /// The common characters of the first pair of lines that differ in
    /// exactly one position of the second line; empty when no pair of lines
    /// does.
    pub fn solve_part_two(&self) -> (r: String)
        ensures
            forall|i: int, j: int|
                is_first_pair(self.lines(), i, j) ==> r@ == common_chars(
                    self.lines()[i],
                    self.lines()[j],
                ),
            (forall|i: int, j: int|
                0 <= i < self.lines().len() && 0 <= j < self.lines().len()
                    ==> !found_pair(self.lines(), i, j)) ==> r@ =~= Seq::<char>::empty(),
    {
        let ghost lines = self.lines();
        let n = self.input.len();
        let mut i: usize = 0;
        while i < n
            invariant
                i <= n,
                n == self.input@.len(),
                lines == self.input.deep_view(),
                lines == self.lines(),
                lines.len() == n,
                forall|i2: int, j2: int|
                    0 <= i2 < i && 0 <= j2 < n ==> !found_pair(lines, i2, j2),
            decreases n - i,
        {
            let mut j: usize = 0;
            while j < n
                invariant
                    i < n,
                    j <= n,
                    n == self.input@.len(),
                    lines == self.input.deep_view(),
                    lines == self.lines(),
                    lines.len() == n,
                    forall|i2: int, j2: int|
                        0 <= i2 < i && 0 <= j2 < n ==> !found_pair(lines, i2, j2),
                    forall|j2: int| 0 <= j2 < j ==> !found_pair(lines, i as int, j2),
                decreases n - j,
            {
                proof {
                    assert(lines[i as int] == self.input@[i as int]@);
                    assert(lines[j as int] == self.input@[j as int]@);
                }
                let common = common_str(self.input[i].as_str(), self.input[j].as_str());
                let blen = self.input[j].as_str().unicode_len();
                let clen = common.as_str().unicode_len();
                if blen >= 1 && clen == blen - 1 {
                    proof {
                        assert(found_pair(lines, i as int, j as int));
                        assert(found_pair(self.lines(), i as int, j as int));
                        assert forall|i2: int, j2: int|
                            is_first_pair(lines, i2, j2) implies common@ == common_chars(
                            lines[i2],
                            lines[j2],
                        ) by {
                            if i2 > i as int || (i2 == i as int && j2 > j as int) {
                                assert(!found_pair(lines, i as int, j as int));
                            }
                            assert(i2 == i as int && j2 == j as int);
                        }
                    }
                    return common;
                }
                j = j + 1;
            }
            i = i + 1;
        }
        String::new()
    }
}

/// Whether some character occurs exactly `m` times in `s`.
fn has_rep_str(s: &str, m: usize) -> (b: bool)
    requires
        m >= 1,
    ensures
        b == has_rep(s@, m as nat),
{
    let n = s.unicode_len();
    let mut i: usize = 0;
    while i < n
        invariant
            i <= n,
            n == s@.len(),
            forall|k: int| 0 <= k < i ==> count_eq(s@, s@[k]) != m,
        decreases n - i,
    {
        let c = s.get_char(i);
        let cnt = count_char(s, c);
        if cnt == m {
            return true;
        }
        i = i + 1;
    }
    proof {
        if has_rep(s@, m as nat) {
            let c = choose|c: char| count_eq(s@, c) == m;
            lemma_count_eq_contains(s@, c);
            let k = choose|k: int| 0 <= k < s@.len() && s@[k] == c;
            assert(count_eq(s@, s@[k]) != m);
        }
    }
    false
}

proof fn lemma_count_eq_contains(s: Seq<char>, c: char)
    requires
        count_eq(s, c) > 0,
    ensures
        exists|k: int| 0 <= k < s.len() && s[k] == c,
    decreases s.len(),
{
    if s.len() > 0 {
        if s.last() == c {
            assert(s[s.len() - 1] == c);
        } else {
            lemma_count_eq_contains(s.drop_last(), c);
            let k = choose|k: int| 0 <= k < s.len() - 1 && s.drop_last()[k] == c;
            assert(s[k] == c);
        }
    }
}

/// How many characters of `s` equal `c`.
fn count_char(s: &str, c: char) -> (cnt: usize)
    ensures
        cnt == count_eq(s@, c),
{
    let n = s.unicode_len();
    let mut cnt: usize = 0;
    let mut i: usize = 0;
    while i < n
        invariant
            i <= n,
            n == s@.len(),
            cnt == count_eq(s@.take(i as int), c),
            cnt <= i,
        decreases n - i,
    {
        proof {
            assert(s@.take(i + 1).drop_last() =~= s@.take(i as int));
        }
        if s.get_char(i) == c {
            cnt = cnt + 1;
        }
        i = i + 1;
    }
    proof {
        assert(s@.take(n as int) =~= s@);
    }
    cnt
}

/// The characters of `a` matching `b` position by position.
fn common_str(a: &str, b: &str) -> (r: String)
    ensures
        r@ == common_chars(a@, b@),
{
    let alen = a.unicode_len();
    let blen = b.unicode_len();
    let m = if alen <= blen {
        alen
    } else {
        blen
    };
    let mut r = String::new();
    let mut k: usize = 0;
    while k < m
        invariant
            k <= m,
            m == if a@.len() <= b@.len() {
                a@.len()
            } else {
                b@.len()
            },
            r@ == ccm(a@.take(k as int), b@.take(k as int)),
        decreases m - k,
    {
        proof {
            assert(a@.take(k + 1).drop_last() =~= a@.take(k as int));
            assert(b@.take(k + 1).drop_last() =~= b@.take(k as int));
        }
        if a.get_char(k) == b.get_char(k) {
            let piece = a.substring_char(k, k + 1);
            proof {
                assert(piece@ =~= seq![a@[k as int]]);
            }
            r.append(piece);
        }
        k = k + 1;
    }
    proof {
        let mi = if a@.len() <= b@.len() {
            a@.len() as int
        } else {
            b@.len() as int
        };
        assert(a@.take(mi) == a@.take(mi));
        assert(r@ == ccm(a@.take(mi), b@.take(mi)));
    }
    r
}

/// A fresh solver with no input read yet.
pub fn solver() -> (s: Day1Solver)
    ensures
        s.lines() =~= Seq::<Seq<char>>::empty(),
{
    Day1Solver { input: Vec::new() }
}

} // verus!
