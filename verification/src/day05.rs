//! Polymer reduction: adjacent units of the same type and opposite polarity
//! annihilate, repeatedly, until none remain; and the shortest polymer
//! obtainable by first deleting all units of one type.

use vstd::prelude::*;
use crate::text::{dec_digits, trim, trim_str, u128_to_string};

verus! {

/// Whether two adjacent units react: the same letter, one lower case and
/// one upper case.
pub open spec fn reacts(a: char, b: char) -> bool {
    (97 <= a as u32 <= 122 && b as u32 + 32 == a as u32) || (97 <= b as u32 <= 122 && a as u32
        + 32 == b as u32)
}

/// The first index whose unit reacts with its successor, at or after `i`;
/// the length when none does.
pub open spec fn find_react(s: Seq<char>, i: nat) -> nat
    decreases s.len() - i,
    when i <= s.len()
{
    if i + 1 >= s.len() {
        s.len()
    } else if reacts(s[i as int], s[i as int + 1]) {
        i
    } else {
        find_react(s, i + 1)
    }
}

/// The polymer after all reactions have run to completion, removing the
/// first reacting pair at each step.
pub open spec fn reduce_full(s: Seq<char>) -> Seq<char>
    decreases s.len(),
{
    if s.len() < 2 {
        s
    } else {
        let f = find_react(s, 0);
        if f + 1 >= s.len() {
            s
        } else {
            reduce_full(s.remove(f as int + 1).remove(f as int))
        }
    }
}

/// The polymer with every unit of the letter `l` (given in lower case)
/// removed, either polarity.
pub open spec fn strip(s: Seq<char>, l: int) -> Seq<char>
    decreases s.len(),
{
    if s.len() == 0 {
        Seq::empty()
    } else {
        strip(s.drop_last(), l) + (if s.last() as u32 == l || s.last() as u32 + 32 == l {
            Seq::empty()
        } else {
            seq![s.last()]
        })
    }
}

/// The shortest fully reduced length over the letters from index `idx` to
/// the letter before `z`, as the original scanned them.
pub open spec fn min_reduced(s: Seq<char>, idx: nat) -> int
    decreases 25 - idx,
    when idx <= 25
{
    if idx >= 25 {
        usize::MAX as int
    } else {
        let len = reduce_full(strip(s, 97 + idx as int)).len() as int;
        let rest = min_reduced(s, idx + 1);
        if len <= rest {
            len
        } else {
            rest
        }
    }
}

/// The polymer solver: the parsed unit sequence.
pub struct PuzzleSolver {
    units: Vec<char>,
}

impl PuzzleSolver {
    /// The polymer this solver holds.
    pub closed spec fn polymer(self) -> Seq<char> {
        self.units@
    }

    /// Reads the polymer, trimmed of surrounding whitespace.
    pub fn presolve(&mut self, input: &str)
        ensures
            final(self).polymer() == trim(input@),
    {
        let t = trim_str(input);
        let n = t.unicode_len();
        let mut units: Vec<char> = Vec::new();
        let mut i: usize = 0;
        while i < n
            invariant
                i <= n,
                n == t@.len(),
                units@ == t@.take(i as int),
            decreases n - i,
        {
            units.push(t.get_char(i));
            proof {
                assert(units@ =~= t@.take(i as int + 1));
            }
            i = i + 1;
        }
        proof {
            assert(t@.take(n as int) =~= t@);
        }
        self.units = units;
    }

    /// The length of the fully reacted polymer, in decimal.
    pub fn solve_part_one(&self) -> (r: String)
        ensures
            r@ == dec_digits(reduce_full(self.polymer()).len()),
    {
        let mut v = clone_chars(&self.units);
        reduce_vec(&mut v);
        u128_to_string(v.len() as u128)
    }

    /// The shortest fully reacted length over all removable unit letters,
    /// in decimal.
    pub fn solve_part_two(&self) -> (r: String)
        ensures
            r@ == dec_digits(min_reduced(self.polymer(), 0) as nat),
    {
        let mut best: usize = usize::MAX;
        let mut idx: u32 = 0;
        proof {
            lemma_min_reduced_le(self.polymer(), 0);
        }
        while idx < 25
            invariant
                idx <= 25,
                ({
                    let rest = min_reduced(self.polymer(), idx as nat);
                    min_reduced(self.polymer(), 0) == (if best <= rest {
                        best as int
                    } else {
                        rest
                    })
                }),
            decreases 25 - idx,
        {
            let ghost before = min_reduced(self.polymer(), idx as nat);
            proof {
                lemma_min_reduced_le(self.polymer(), idx as nat + 1);
            }
            let mut v = strip_vec(&self.units, 97 + idx);
            reduce_vec(&mut v);
            let len = v.len();
            proof {
                assert(before == (if (len as int) <= min_reduced(
                    self.polymer(),
                    idx as nat + 1,
                ) {
                    len as int
                } else {
                    min_reduced(self.polymer(), idx as nat + 1)
                }));
            }
            if len < best {
                best = len;
            }
            idx = idx + 1;
        }
        proof {
            assert(min_reduced(self.polymer(), 25) == usize::MAX as int);
        }
        u128_to_string(best as u128)
    }
}

/// The least reduced length never exceeds its seed.
proof fn lemma_min_reduced_le(s: Seq<char>, idx: nat)
    requires
        idx <= 25,
    ensures
        0 <= min_reduced(s, idx) <= usize::MAX as int,
    decreases 25 - idx,
{
    if idx < 25 {
        lemma_min_reduced_le(s, idx + 1);
    }
}

/// A copy of a unit list.
fn clone_chars(v: &Vec<char>) -> (r: Vec<char>)
    ensures
        r@ == v@,
{
    let mut r: Vec<char> = Vec::new();
    let mut i: usize = 0;
    while i < v.len()
        invariant
            i <= v@.len(),
            r@ == v@.take(i as int),
        decreases v@.len() - i,
    {
        r.push(v[i]);
        proof {
            assert(r@ =~= v@.take(i as int + 1));
        }
        i = i + 1;
    }
    proof {
        assert(v@.take(v@.len() as int) =~= v@);
    }
    r
}

/// Whether two units react.
fn reacts_ex(a: char, b: char) -> (r: bool)
    ensures
        r == reacts(a, b),
{
    let au = a as u32;
    let bu = b as u32;
    (97 <= au && au <= 122 && bu + 32 == au) || (97 <= bu && bu <= 122 && au + 32 == bu)
}

/// Runs the polymer to completion in place.
fn reduce_vec(v: &mut Vec<char>)
    ensures
        final(v)@ == reduce_full(old(v)@),
{
    loop
        invariant
            reduce_full(v@) == reduce_full(old(v)@),
        ensures
            reduce_full(v@) == reduce_full(old(v)@),
            v@ == reduce_full(v@),
        decreases v@.len(),
    {
        let n = v.len();
        let lim = if n == 0 {
            0
        } else {
            n - 1
        };
        let mut i: usize = 0;
        let mut found = n;
        while i < lim && found == n
            invariant
                i <= lim,
                lim + 1 == n || (lim == 0 && n == 0),
                n == v@.len(),
                found == n || (found == i && found + 1 < n && reacts(
                    v@[found as int],
                    v@[found as int + 1],
                )),
                forall|k: int| 0 <= k < i ==> !#[trigger] reacts(v@[k], v@[k + 1]),
            decreases found, lim - i,
        {
            if reacts_ex(v[i], v[i + 1]) {
                found = i;
            } else {
                i = i + 1;
            }
        }
        if found == n {
            proof {
                lemma_find_react_none(v@, 0);
                assert(v@ == reduce_full(v@));
            }
            break;
        }
        proof {
            lemma_find_react_fixed(v@, 0, found as nat);
        }
        let ghost v0 = v@;
        v.remove(found + 1);
        v.remove(found);
        proof {
            assert(v@ == v0.remove(found as int + 1).remove(found as int));
            assert(reduce_full(v0) == reduce_full(v@));
        }
    }
}

proof fn lemma_find_react_fixed(s: Seq<char>, i: nat, f: nat)
    requires
        i <= f,
        f + 1 < s.len(),
        forall|k: int| i <= k < f ==> !#[trigger] reacts(s[k], s[k + 1]),
        reacts(s[f as int], s[f as int + 1]),
    ensures
        find_react(s, i) == f,
    decreases f - i,
{
    if i < f {
        lemma_find_react_fixed(s, i + 1, f);
    }
}

proof fn lemma_find_react_none(s: Seq<char>, i: nat)
    requires
        i <= s.len(),
        forall|k: int| i <= k && k + 1 < s.len() ==> !#[trigger] reacts(s[k], s[k + 1]),
    ensures
        find_react(s, i) >= s.len(),
    decreases s.len() - i,
{
    if i + 1 < s.len() {
        lemma_find_react_none(s, i + 1);
    }
}

/// The polymer with both polarities of one letter removed.
fn strip_vec(v: &Vec<char>, l: u32) -> (r: Vec<char>)
    requires
        97 <= l <= 122,
    ensures
        r@ == strip(v@, l as int),
{
    let mut r: Vec<char> = Vec::new();
    let mut i: usize = 0;
    while i < v.len()
        invariant
            97 <= l <= 122,
            i <= v@.len(),
            r@ == strip(v@.take(i as int), l as int),
        decreases v@.len() - i,
    {
        proof {
            assert(v@.take(i as int + 1).drop_last() =~= v@.take(i as int));
            assert(v@.take(i as int + 1).last() == v@[i as int]);
        }
        let c = v[i];
        let cu = c as u32;
        if !(cu == l || cu == l - 32) {
            r.push(c);
            proof {
                assert(r@ =~= strip(v@.take(i as int + 1), l as int));
            }
        } else {
            proof {
                assert(r@ =~= strip(v@.take(i as int + 1), l as int));
            }
        }
        i = i + 1;
    }
    proof {
        assert(v@.take(v@.len() as int) =~= v@);
    }
    r
}

/// A fresh solver with no input read yet.
pub fn solver() -> (s: PuzzleSolver)
    ensures
        s.polymer() =~= Seq::<char>::empty(),
{
    PuzzleSolver { units: Vec::new() }
}

} // verus!
