//! The recipe scoreboard: two cooks combine the scores of their current
//! recipes to append new ones, and the puzzle asks for the ten scores after
//! a given count, and for where a given score sequence first appears.

use vstd::prelude::*;
use crate::text::{dec_int, digit_char, parse_i64, push_digit, trim};

verus! {

/// The scoreboard and the two cooks' positions after `k` brewing steps.
pub open spec fn brew_step(st: (Seq<u8>, int, int)) -> (Seq<u8>, int, int) {
    let (board, e1, e2) = st;
    let sum = board[e1] + board[e2];
    let board2 = if sum > 9 {
        board.push(1).push((sum - 10) as u8)
    } else {
        board.push(sum as u8)
    };
    let n1 = (e1 + 1 + board[e1]) % (board2.len() as int);
    let n2 = (e2 + 1 + board[e2]) % (board2.len() as int);
    (board2, n1, n2)
}

/// The state after `k` brewing steps, from the starting scores 3 and 7.
pub open spec fn brew_state(k: nat) -> (Seq<u8>, int, int)
    decreases k,
{
    if k == 0 {
        (seq![3u8, 7u8], 0int, 1int)
    } else {
        brew_step(brew_state((k - 1) as nat))
    }
}

/// Every state is sound: digits below ten, positions on the board, and the
/// board grows by one or two per step.
pub proof fn lemma_brew_wf(k: nat)
    ensures
        ({
            let (board, e1, e2) = brew_state(k);
            &&& forall|i: int| 0 <= i < board.len() ==> #[trigger] board[i] < 10
            &&& 0 <= e1 < board.len()
            &&& 0 <= e2 < board.len()
            &&& k + 2 <= board.len() <= 2 * k + 2
        }),
    decreases k,
{
    if k > 0 {
        lemma_brew_wf((k - 1) as nat);
    }
}

/// The board only ever grows: an earlier board is a prefix of a later one.
pub proof fn lemma_brew_prefix(k1: nat, k2: nat)
    requires
        k1 <= k2,
    ensures
        brew_state(k1).0.len() <= brew_state(k2).0.len(),
        brew_state(k1).0 == brew_state(k2).0.take(brew_state(k1).0.len() as int),
    decreases k2,
{
    if k1 < k2 {
        lemma_brew_prefix(k1, (k2 - 1) as nat);
        let b1 = brew_state(k1).0;
        let st = brew_state((k2 - 1) as nat);
        let bp = st.0;
        let b2 = brew_state(k2).0;
        lemma_brew_wf(k1);
        lemma_brew_wf((k2 - 1) as nat);
        let sum = bp[st.1] + bp[st.2];
        if sum > 9 {
            assert(b2 == bp.push(1).push((sum - 10) as u8));
        } else {
            assert(b2 == bp.push(sum as u8));
        }
        assert(bp.len() <= b2.len());
        assert forall|t: int| 0 <= t < bp.len() implies b2[t] == bp[t] by {}
        assert(b1 =~= b2.take(b1.len() as int)) by {
            assert forall|t: int| 0 <= t < b1.len() implies b1[t] == b2[t] by {
                assert(b1[t] == bp.take(b1.len() as int)[t]);
                assert(bp.take(b1.len() as int)[t] == bp[t]);
            }
        }
    } else {
        assert(brew_state(k1).0 =~= brew_state(k2).0.take(brew_state(k1).0.len() as int));
    }
}

/// The decimal digits of `n`, most significant first; empty for zero, as
/// the original search pattern is built.
pub open spec fn pattern_digits(n: nat) -> Seq<u8>
    decreases n,
{
    if n == 0 {
        Seq::empty()
    } else {
        pattern_digits(n / 10).push((n % 10) as u8)
    }
}

/// Whether `pat` occurs in `board` starting at `i`.
pub open spec fn matches_at(board: Seq<u8>, pat: Seq<u8>, i: int) -> bool {
    0 <= i && i + pat.len() <= board.len() && board.subrange(i as int, i + pat.len()) =~= pat
}

/// Whether `pat` ever occurs at `i`, however long the board is brewed.
pub open spec fn matches_ever(pat: Seq<u8>, i: int) -> bool {
    exists|k: nat| matches_at(#[trigger] brew_state(k).0, pat, i)
}

/// Whether `i` is the first position at which `pat` ever occurs.
pub open spec fn first_match(pat: Seq<u8>, i: int) -> bool {
    matches_ever(pat, i) && forall|j: int| 0 <= j < i ==> !matches_ever(pat, j)
}

/// A completed window never changes its mind: whether `pat` matches at `i`
/// is settled as soon as the board covers the window.
proof fn lemma_match_settled(pat: Seq<u8>, i: int, k1: nat, k2: nat)
    requires
        0 <= i,
        i + pat.len() <= brew_state(k1).0.len(),
        k1 <= k2,
    ensures
        matches_at(brew_state(k1).0, pat, i) == matches_at(brew_state(k2).0, pat, i),
{
    lemma_brew_prefix(k1, k2);
    let b1 = brew_state(k1).0;
    let b2 = brew_state(k2).0;
    assert(b1 == b2.take(b1.len() as int));
    assert(b1.subrange(i, i + pat.len()) =~= b2.subrange(i, i + pat.len())) by {
        assert forall|t: int| 0 <= t < pat.len() implies #[trigger] b1[i + t] == b2[i + t] by {
            assert(b1[i + t] == b2.take(b1.len() as int)[i + t]);
        }
    }
}

/// The solver state: how many recipes the puzzle asks about.
pub struct PuzzleSolver {
    recipes: usize,
    ok: bool,
}

/// The digit characters of a score sequence.
pub open spec fn digits_chars(ds: Seq<u8>) -> Seq<char> {
    Seq::new(ds.len(), |i: int| digit_char(ds[i] as int))
}

impl PuzzleSolver {
    /// The parsed recipe count, when the input parsed.
    pub closed spec fn parsed(self) -> Option<usize> {
        if self.ok {
            Some(self.recipes)
        } else {
            None
        }
    }

    /// Reads the recipe count.
    pub fn presolve(&mut self, input: &str)
        ensures
            final(self).parsed() == (match parse_i64(trim(input@)) {
                Some(v) => if v >= 0 && v <= usize::MAX {
                    Some(v as usize)
                } else {
                    None::<usize>
                },
                None => None,
            }),
    {
        let t = crate::text::trim_str(input);
        match crate::text::parse_i64_str(t) {
            Some(v) => {
                if v >= 0 && v as u64 <= usize::MAX as u64 {
                    self.recipes = v as usize;
                    self.ok = true;
                } else {
                    self.recipes = 0;
                    self.ok = false;
                }
            },
            None => {
                self.recipes = 0;
                self.ok = false;
            },
        }
    }

    /// The ten scores after the first `recipes` ones, as digits. The count
    /// must leave room for the ten-score window below the address space.
    pub fn solve_part_one(&self) -> (r: String)
        requires
            self.parsed() is Some ==> self.parsed().unwrap() < usize::MAX - 16,
        ensures
            ({
                match self.parsed() {
                    Some(n) => exists|k: nat|
                        (#[trigger] brew_state(k).0).len() >= n + 10 && r@ == digits_chars(
                            brew_state(k).0.subrange(n as int, n as int + 10),
                        ),
                    None => r@ =~= Seq::<char>::empty(),
                }
            }),
    {
        if !self.ok {
            return String::new();
        }
        let n = self.recipes;
        let mut data: Vec<u8> = Vec::new();
        data.push(3);
        data.push(7);
        let mut e1: usize = 0;
        let mut e2: usize = 1;
        let ghost mut k: nat = 0nat;
        proof {
            assert(data@ =~= brew_state(0).0);
        }
        while data.len() < n + 10
            invariant
                n < usize::MAX - 16,
                (data@, e1 as int, e2 as int) == brew_state(k),
            decreases (if data@.len() >= n + 10 {
                0int
            } else {
                n + 10 - data@.len()
            }),
        {
            proof {
                lemma_brew_wf(k);
            }
            brew_once(&mut data, &mut e1, &mut e2, Ghost(k));
            proof {
                k = k + 1;
            }
        }
        proof {
            lemma_brew_wf(k);
        }
        let mut r = String::new();
        let mut i: usize = n;
        while i < n + 10
            invariant
                n < usize::MAX - 16,
                n <= i <= n + 10,
                n + 10 <= data@.len(),
                (data@, e1 as int, e2 as int) == brew_state(k),
                forall|t: int| 0 <= t < data@.len() ==> #[trigger] data@[t] < 10,
                r@ == digits_chars(data@.subrange(n as int, i as int)),
            decreases n + 10 - i,
        {
            let d = data[i];
            push_digit(&mut r, d);
            proof {
                assert(r@ =~= digits_chars(data@.subrange(n as int, i as int + 1)));
            }
            i = i + 1;
        }
        proof {
            assert(r@ == digits_chars(brew_state(k).0.subrange(n as int, n as int + 10)));
        }
        r
    }

    /// How many scores precede the first occurrence of the recipe count's
    /// digits on the board, in decimal; empty when the input was malformed
    /// or no occurrence appears within the board the machine can hold.
    pub fn solve_part_two(&self) -> (r: String)
        ensures
            ({
                match self.parsed() {
                    Some(n) => {
                        &&& forall|v: int|
                            first_match(pattern_digits(n as nat), v) && v
                                < usize::MAX - 24 ==> r@ == dec_int(v)
                        &&& r@ =~= Seq::<char>::empty() ==> forall|v: int|
                            v < usize::MAX - 24 ==> !first_match(pattern_digits(n as nat), v)
                    },
                    None => r@ =~= Seq::<char>::empty(),
                }
            }),
    {
        if !self.ok {
            return String::new();
        }
        let ghost pat = pattern_digits(self.recipes as nat);
        let pattern = pattern_of(self.recipes);
        let plen = pattern.len();
        proof {
            assert(pat.len() <= 20) by {
                lemma_pattern_len(self.recipes as nat);
            }
        }
        let mut data: Vec<u8> = Vec::new();
        data.push(3);
        data.push(7);
        let mut e1: usize = 0;
        let mut e2: usize = 1;
        let mut next: usize = 0;
        let ghost mut k: nat = 0nat;
        proof {
            assert(data@ =~= brew_state(0).0);
        }
        loop
            invariant
                pat == pattern_digits(self.recipes as nat),
                pattern@ == pat,
                plen == pat.len(),
                plen <= 20,
                (data@, e1 as int, e2 as int) == brew_state(k),
                next <= data@.len(),
                next <= usize::MAX - 25,
                forall|j: int| 0 <= j < next ==> !matches_ever(pat, j),
                self.parsed() == Some(self.recipes),
            ensures
                (data@, e1 as int, e2 as int) == brew_state(k),
                pat == pattern_digits(self.recipes as nat),
                next + plen <= data@.len(),
                matches_at(data@, pat, next as int),
                forall|j: int| 0 <= j < next ==> !matches_ever(pat, j),
                self.parsed() == Some(self.recipes),
            decreases usize::MAX - 24 - next, usize::MAX - data@.len(),
        {
            if next + plen <= data.len() {
                let hit = window_eq(&data, &pattern, next);
                if hit {
                    proof {
                        assert(matches_at(data@, pat, next as int));
                    }
                    break;
                }
                proof {
                    assert(!matches_at(brew_state(k).0, pat, next as int));
                    assert forall|j: int| 0 <= j < next + 1 implies !matches_ever(pat, j) by {
                        if j == next {
                            if matches_ever(pat, j) {
                                let k2 = choose|k2: nat|
                                    matches_at(#[trigger] brew_state(k2).0, pat, j);
                                if k2 <= k {
                                    lemma_match_settled(pat, j, k2, k);
                                } else {
                                    lemma_match_settled(pat, j, k, k2);
                                }
                            }
                        }
                    }
                }
                if next >= usize::MAX - 25 {
                    // No match within any board the machine can hold.
                    proof {
                        assert forall|v: int| v < usize::MAX - 24 implies !first_match(
                            pat,
                            v,
                        ) by {
                            if first_match(pat, v) {
                                assert(0 <= v);
                                assert(!matches_ever(pat, v));
                            }
                        }
                    }
                    return String::new();
                }
                next = next + 1;
            } else {
                proof {
                    lemma_brew_wf(k);
                    assert(data@.len() < usize::MAX) by {
                        assert(next <= usize::MAX - 25);
                        assert(data@.len() < next + plen);
                    }
                }
                brew_once(&mut data, &mut e1, &mut e2, Ghost(k));
                proof {
                    k = k + 1;
                }
            }
        }
        proof {
            assert(matches_ever(pat, next as int)) by {
                assert(matches_at(brew_state(k).0, pat, next as int));
            }
            assert(first_match(pat, next as int));
            assert forall|v: int|
                first_match(pat, v) && v < usize::MAX - 24 implies dec_int(v) == dec_int(
                next as int,
            ) by {
                lemma_first_match_unique(pat, v, next as int);
            }
            assert(dec_int(next as int).len() >= 1) by {
                crate::day01::lemma_dec_digits_nonempty((next as int) as nat);
            }
        }
        crate::text::i128_to_string(next as i128)
    }
}

/// The first occurrence point of a pattern is unique.
proof fn lemma_first_match_unique(pat: Seq<u8>, v1: int, v2: int)
    requires
        first_match(pat, v1),
        first_match(pat, v2),
    ensures
        v1 == v2,
{
    if v1 < v2 {
        assert(!matches_ever(pat, v1));
    } else if v2 < v1 {
        assert(!matches_ever(pat, v2));
    }
}

/// Powers of ten.
pub open spec fn ten_pow(d: nat) -> int
    decreases d,
{
    if d == 0 {
        1
    } else {
        10 * ten_pow((d - 1) as nat)
    }
}

/// A decimal pattern has at most twenty digits.
proof fn lemma_pattern_len(n: nat)
    requires
        n <= 0xffff_ffff_ffff_ffff,
    ensures
        pattern_digits(n).len() <= 20,
{
    assert(ten_pow(20) == 100_000_000_000_000_000_000) by {
        reveal_with_fuel(ten_pow, 21);
    }
    lemma_pattern_len_rec(n, 20);
}

proof fn lemma_pattern_len_rec(n: nat, depth: nat)
    requires
        n < ten_pow(depth),
    ensures
        pattern_digits(n).len() <= depth,
    decreases depth,
{
    if n > 0 {
        assert(depth > 0);
        assert(n / 10 < ten_pow((depth - 1) as nat)) by (nonlinear_arith)
            requires
                n < ten_pow(depth),
                ten_pow(depth) == 10 * ten_pow((depth - 1) as nat),
                n >= 0,
        ;
        lemma_pattern_len_rec(n / 10, (depth - 1) as nat);
    }
}

/// One brewing step on the live board.
fn brew_once(data: &mut Vec<u8>, e1: &mut usize, e2: &mut usize, Ghost(k): Ghost<nat>)
    requires
        (old(data)@, *old(e1) as int, *old(e2) as int) == brew_state(k),
        old(data)@.len() < usize::MAX - 1,
    ensures
        (final(data)@, *final(e1) as int, *final(e2) as int) == brew_state((k + 1) as nat),
        old(data)@.len() < final(data)@.len() <= old(data)@.len() + 2,
{
    proof {
        lemma_brew_wf(k);
    }
    let a = data[*e1];
    let b = data[*e2];
    let sum = a + b;
    if sum > 9 {
        data.push(1);
        data.push(sum - 10);
    } else {
        data.push(sum);
    }
    let len = data.len();
    *e1 = (((*e1 as u128) + 1 + (a as u128)) % (len as u128)) as usize;
    *e2 = (((*e2 as u128) + 1 + (b as u128)) % (len as u128)) as usize;
    proof {
        assert(final(data)@ == brew_state((k + 1) as nat).0);
        assert(*final(e1) as int == brew_state((k + 1) as nat).1);
        assert(*final(e2) as int == brew_state((k + 1) as nat).2);
    }
}

/// The decimal digits of `n`, most significant first; empty for zero.
fn pattern_of(n: usize) -> (pat: Vec<u8>)
    ensures
        pat@ == pattern_digits(n as nat),
{
    let mut rev: Vec<u8> = Vec::new();
    let mut m = n;
    proof {
        assert(rev_pat(rev@) =~= Seq::<u8>::empty());
        assert(pattern_digits(n as nat) + rev_pat(rev@) =~= pattern_digits(n as nat));
    }
    while m > 0
        invariant
            pattern_digits(n as nat) == pattern_digits(m as nat) + rev_pat(rev@),
        decreases m,
    {
        let ghost rev0 = rev@;
        let ghost m0 = m as nat;
        let d = (m % 10) as u8;
        rev.push(d);
        m = m / 10;
        proof {
            assert(pattern_digits(m0) == pattern_digits(m0 / 10).push(d));
            assert(rev_pat(rev@) =~= seq![d] + rev_pat(rev0));
            assert(pattern_digits(m as nat) + rev_pat(rev@) =~= pattern_digits(m0)
                + rev_pat(rev0));
        }
    }
    proof {
        assert(pattern_digits(0) =~= Seq::<u8>::empty());
        assert(pattern_digits(0) + rev_pat(rev@) =~= rev_pat(rev@));
    }
    let mut pat: Vec<u8> = Vec::new();
    let mut i = rev.len();
    while i > 0
        invariant
            i <= rev@.len(),
            pat@ == rev_pat(rev@).take(rev@.len() - i),
            pattern_digits(n as nat) == rev_pat(rev@),
        decreases i,
    {
        i = i - 1;
        pat.push(rev[i]);
        proof {
            assert(rev_pat(rev@)[rev@.len() - 1 - i] == rev@[i as int]);
            assert(pat@ =~= rev_pat(rev@).take(rev@.len() - i));
        }
    }
    proof {
        assert(pat@ =~= pattern_digits(n as nat));
    }
    pat
}

/// The reversal of a digit list.
pub open spec fn rev_pat(ds: Seq<u8>) -> Seq<u8> {
    Seq::new(ds.len(), |i: int| ds[ds.len() - 1 - i])
}

/// Whether the window of `data` at `i` equals `pat`.
fn window_eq(data: &Vec<u8>, pat: &Vec<u8>, i: usize) -> (hit: bool)
    requires
        i + pat@.len() <= data@.len(),
    ensures
        hit == matches_at(data@, pat@, i as int),
{
    let dl = data.len();
    let mut t: usize = 0;
    while t < pat.len()
        invariant
            t <= pat@.len(),
            i + pat@.len() <= data@.len(),
            dl == data@.len(),
            forall|u: int| 0 <= u < t ==> data@[i + u] == pat@[u],
        decreases pat@.len() - t,
    {
        proof {
            assert(i + t < data@.len());
        }
        if data[i + t] != pat[t] {
            proof {
                assert(data@.subrange(i as int, i + pat@.len())[t as int] != pat@[t as int]);
            }
            return false;
        }
        t = t + 1;
    }
    proof {
        assert(data@.subrange(i as int, i + pat@.len()) =~= pat@);
    }
    true
}

/// A fresh solver with no input read yet.
pub fn solver() -> (s: PuzzleSolver)
    ensures
        s.parsed() is None,
{
    PuzzleSolver { recipes: 0, ok: false }
}

} // verus!
