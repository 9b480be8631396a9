//! Frequency drift: summing a list of signed changes, and finding the first
//! running total that is reached twice when the list repeats forever.

use vstd::prelude::*;
use crate::text::{dec_digits, dec_int, digit_char, i128_to_string, parse_i64_list, parse_i64_list_str};

verus! {

/// Solver state: the parsed list of frequency changes, when the input parsed.
pub struct Day1Solver {
    input: Vec<i64>,
    ok: bool,
}

/// The sum of a list of changes.
pub open spec fn sum_of(vs: Seq<i64>) -> int
    decreases vs.len(),
{
    if vs.len() == 0 {
        0
    } else {
        sum_of(vs.drop_last()) + vs.last()
    }
}

/// The running total after `k` changes, where the list repeats forever.
pub open spec fn cyc_sum(vs: Seq<i64>, k: nat) -> int
    decreases k,
{
    if k == 0 || vs.len() == 0 {
        0
    } else {
        cyc_sum(vs, (k - 1) as nat) + vs[((k - 1) as int) % (vs.len() as int)]
    }
}

/// Whether the running total after `j` changes equals an earlier one
/// (after at least one change).
pub open spec fn repeat_at(vs: Seq<i64>, j: nat) -> bool {
    j >= 1 && exists|i: nat| 1 <= i < j && cyc_sum(vs, i) == cyc_sum(vs, j)
}

/// Whether `j` is the first point at which a running total repeats.
pub open spec fn is_first_repeat(vs: Seq<i64>, j: nat) -> bool {
    repeat_at(vs, j) && forall|j2: nat| 1 <= j2 < j ==> !repeat_at(vs, j2)
}

/// Whether every running total up to `j` changes fits in an `i64`.
pub open spec fn sums_fit(vs: Seq<i64>, j: nat) -> bool {
    forall|k: nat| k <= j ==> i64::MIN <= #[trigger] cyc_sum(vs, k) <= i64::MAX
}

proof fn lemma_sum_bounds(vs: Seq<i64>)
    ensures
        -(vs.len() as int) * 0x8000_0000_0000_0000 <= sum_of(vs),
        sum_of(vs) <= (vs.len() as int) * 0x7fff_ffff_ffff_ffff,
    decreases vs.len(),
{
    if vs.len() > 0 {
        lemma_sum_bounds(vs.drop_last());
        assert((vs.len() as int) * 0x8000_0000_0000_0000 == (vs.len() - 1)
            * 0x8000_0000_0000_0000 + 0x8000_0000_0000_0000) by (nonlinear_arith);
        assert((vs.len() as int) * 0x7fff_ffff_ffff_ffff == (vs.len() - 1)
            * 0x7fff_ffff_ffff_ffff + 0x7fff_ffff_ffff_ffff) by (nonlinear_arith);
    }
}

impl Day1Solver {
    /// The parsed input this solver holds, when parsing succeeded.
    pub closed spec fn parsed(self) -> Option<Seq<i64>> {
        if self.ok {
            Some(self.input@)
        } else {
            None
        }
    }

    /// Reads one signed integer per line.
    pub fn presolve(&mut self, input: &str)
        ensures
            final(self).parsed() == parse_i64_list(input@, '\n'),
    {
        match parse_i64_list_str(input, '\n') {
            Some(v) => {
                self.input = v;
                self.ok = true;
            },
            None => {
                self.input = Vec::new();
                self.ok = false;
            },
        }
    }

    /// The sum of all changes, in decimal; empty when the input was malformed.
    pub fn solve_part_one(&self) -> (r: String)
        ensures
            match self.parsed() {
                Some(vs) => r@ == dec_int(sum_of(vs)),
                None => r@ =~= Seq::<char>::empty(),
            },
    {
        if !self.ok {
            return String::new();
        }
        let mut acc: i128 = 0;
        let mut i: usize = 0;
        let n = self.input.len();
        while i < n
            invariant
                i <= n,
                n == self.input@.len(),
                acc == sum_of(self.input@.take(i as int)),
            decreases n - i,
        {
            proof {
                lemma_sum_bounds(self.input@.take(i + 1));
                assert(self.input@.take(i + 1).drop_last() =~= self.input@.take(i as int));
                assert((self.input@.len() as int) * 0x8000_0000_0000_0000 < 0x8000_0000_0000_0000_0000_0000_0000_0000 && (self.input@.len() as int)
                    * 0x7fff_ffff_ffff_ffff < 0x8000_0000_0000_0000_0000_0000_0000_0000)
                    by (nonlinear_arith)
                    requires self.input@.len() < 0x1_0000_0000_0000_0000;
                lemma_sum_bounds(self.input@.take(i as int));
            }
            acc = acc + self.input[i] as i128;
            i = i + 1;
        }
        proof {
            assert(self.input@.take(n as int) =~= self.input@);
        }
        i128_to_string(acc)
    }

    /// The first running total reached twice, in decimal; empty when the
    /// input was malformed, a running total left the `i64` range before any
    /// repeat, or no repeat appeared within the step cap.
    pub fn solve_part_two(&self) -> (r: String)
        ensures
            match self.parsed() {
                Some(vs) => {
                    &&& forall|j: nat|
                        is_first_repeat(vs, j) && sums_fit(vs, j) && j < u64::MAX ==> r@
                            == dec_int(cyc_sum(vs, j))
                    &&& r@ =~= Seq::<char>::empty() ==> forall|j: nat|
                        j < u64::MAX ==> !(is_first_repeat(vs, j) && sums_fit(vs, j))
                },
                None => r@ =~= Seq::<char>::empty(),
            },
    {
        if !self.ok {
            return String::new();
        }
        let ghost vs = self.input@;
        let n = self.input.len();
        if n == 0 {
            proof {
                lemma_cyc_sum_empty(vs, 1);
                lemma_cyc_sum_empty(vs, 2);
                assert(repeat_at(vs, 2)) by {
                    assert(1 <= 1nat < 2nat && cyc_sum(vs, 1nat) == cyc_sum(vs, 2nat));
                }
                assert(is_first_repeat(vs, 2nat));
                assert forall|j: nat|
                    is_first_repeat(vs, j) && sums_fit(vs, j) && j < u64::MAX implies dec_int(
                    cyc_sum(vs, j),
                ) == dec_int(0) by {
                    lemma_first_repeat_unique(vs, j, 2nat);
                    lemma_cyc_sum_empty(vs, j);
                }
                assert(dec_digits(0) =~= seq![digit_char(0)]);
            }
            return i128_to_string(0);
        }
        let mut freq: i64 = 0;
        let mut seen: Vec<i64> = Vec::new();
        let mut idx: usize = 0;
        let mut k: u64 = 0;
        let ghost mut lap: int = 0;
        loop
            invariant
                n == vs.len(),
                n == self.input@.len(),
                vs == self.input@,
                self.parsed() == Some(vs),
                0 < n,
                idx < n,
                lap >= 0,
                k as int == lap * (n as int) + idx,
                freq == cyc_sum(vs, k as nat),
                seen@.len() == k,
                forall|t: int| 0 <= t < k ==> seen@[t] == cyc_sum(vs, (t + 1) as nat),
                forall|j: nat| 1 <= j <= k ==> !repeat_at(vs, j),
                sums_fit(vs, k as nat),
            decreases u64::MAX - k,
        {
            if k >= u64::MAX - 1 {
                // No repeat within any feasible number of steps; stop so the
                // step counter cannot overflow.
                return String::new();
            }
            let v = self.input[idx];
            proof {
                vstd::arithmetic::div_mod::lemma_fundamental_div_mod_converse(
                    k as int,
                    n as int,
                    lap,
                    idx as int,
                );
                assert(cyc_sum(vs, (k + 1) as nat) == cyc_sum(vs, k as nat) + vs[(k as int) % (
                n as int)]);
            }
            if (v > 0 && freq > i64::MAX - v) || (v < 0 && freq < i64::MIN - v) {
                proof {
                    assert(!(i64::MIN <= cyc_sum(vs, (k + 1) as nat) <= i64::MAX));
                    assert forall|j: nat|
                        j < u64::MAX implies !(is_first_repeat(vs, j) && sums_fit(vs, j)) by {
                        if is_first_repeat(vs, j) && sums_fit(vs, j) {
                            if j <= k {
                                assert(!repeat_at(vs, j));
                            } else {
                                assert(k + 1 <= j);
                                assert(i64::MIN <= cyc_sum(vs, (k + 1) as nat) <= i64::MAX);
                            }
                        }
                    }
                }
                return String::new();
            }
            freq = freq + v;
            k = k + 1;
            let found = contains_i64(&seen, freq);
            if found {
                proof {
                    let t = choose|t: int| 0 <= t < seen@.len() && seen@[t] == freq;
                    assert(cyc_sum(vs, (t + 1) as nat) == cyc_sum(vs, k as nat));
                    assert(repeat_at(vs, k as nat));
                    assert(is_first_repeat(vs, k as nat));
                    assert forall|j: nat|
                        is_first_repeat(vs, j) && sums_fit(vs, j) && j < u64::MAX implies dec_int(
                        cyc_sum(vs, j),
                    ) == dec_int(cyc_sum(vs, k as nat)) by {
                        lemma_first_repeat_unique(vs, j, k as nat);
                    }
                    assert(i64::MIN <= cyc_sum(vs, k as nat) <= i64::MAX);
                    lemma_dec_int_nonempty(freq as int);
                }
                return i128_to_string(freq as i128);
            }
            proof {
                assert forall|j: nat| 1 <= j <= k implies !repeat_at(vs, j) by {
                    if j == k {
                        if repeat_at(vs, k as nat) {
                            let i0 = choose|i0: nat|
                                1 <= i0 < k && cyc_sum(vs, i0) == cyc_sum(vs, k as nat);
                            assert(seen@[i0 - 1] == cyc_sum(vs, i0));
                            assert(seen@.contains(freq)) by {
                                assert(seen@[i0 - 1] == freq);
                            }
                        }
                    }
                }
            }
            seen.push(freq);
            idx = idx + 1;
            if idx == n {
                idx = 0;
                proof {
                    assert((lap + 1) * (n as int) == lap * (n as int) + n) by (nonlinear_arith);
                    lap = lap + 1;
                }
            }
        }
    }
}

/// A decimal rendering is never the empty string.
proof fn lemma_dec_int_nonempty(v: int)
    ensures
        dec_int(v).len() >= 1,
{
    if v < 0 {
        lemma_dec_digits_nonempty((-v) as nat);
    } else {
        lemma_dec_digits_nonempty(v as nat);
    }
}

pub proof fn lemma_dec_digits_nonempty(n: nat)
    ensures
        dec_digits(n).len() >= 1,
    decreases n,
{
    if n >= 10 {
        lemma_dec_digits_nonempty(n / 10);
    }
}

proof fn lemma_cyc_sum_empty(vs: Seq<i64>, j: nat)
    requires
        vs.len() == 0,
    ensures
        cyc_sum(vs, j) == 0,
    decreases j,
{
    if j > 0 {
        lemma_cyc_sum_empty(vs, (j - 1) as nat);
    }
}

proof fn lemma_first_repeat_unique(vs: Seq<i64>, j1: nat, j2: nat)
    requires
        is_first_repeat(vs, j1),
        is_first_repeat(vs, j2),
    ensures
        j1 == j2,
{
    if j1 < j2 {
        assert(!repeat_at(vs, j1));
    } else if j2 < j1 {
        assert(!repeat_at(vs, j2));
    }
}

/// Whether `x` occurs in `v`.
fn contains_i64(v: &Vec<i64>, x: i64) -> (b: bool)
    ensures
        b == v@.contains(x),
{
    let mut i: usize = 0;
    while i < v.len()
        invariant
            i <= v@.len(),
            forall|t: int| 0 <= t < i ==> v@[t] != x,
        decreases v@.len() - i,
    {
        if v[i] == x {
            return true;
        }
        i = i + 1;
    }
    false
}

/// A fresh solver with no input read yet.
pub fn solver() -> (s: Day1Solver)
    ensures
        s.parsed() is None,
{
    Day1Solver { input: Vec::new(), ok: false }
}

} // verus!
