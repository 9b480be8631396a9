//! The plant rows: pots along an infinite row hold plants, a rule table
//! maps each five-pot neighbourhood to the next generation, and the puzzle
//! sums the numbers of the potted plants after many generations.

use vstd::prelude::*;
use crate::text::{dec_int, i128_to_string, split_on};

verus! {

/// Whether position `x` holds a plant.
pub open spec fn has_pot(s: Seq<int>, x: int) -> bool {
    exists|t: int| 0 <= t < s.len() && s[t] == x
}

/// The rule-table index of the five-pot neighbourhood around `p`.
pub open spec fn pat_idx(s: Seq<int>, p: int) -> int {
    (if has_pot(s, p - 2) {
        1int
    } else {
        0int
    }) + (if has_pot(s, p - 1) {
        2int
    } else {
        0int
    }) + (if has_pot(s, p) {
        4int
    } else {
        0int
    }) + (if has_pot(s, p + 1) {
        8int
    } else {
        0int
    }) + (if has_pot(s, p + 2) {
        16int
    } else {
        0int
    })
}

/// The potted positions from `p` to `hi` of the next generation, ascending.
pub open spec fn grow(s: Seq<int>, rs: Seq<bool>, p: int, hi: int) -> Seq<int>
    decreases hi + 1 - p,
    when p <= hi + 1
{
    if p > hi {
        Seq::empty()
    } else {
        (if rs[pat_idx(s, p)] {
            seq![p]
        } else {
            Seq::empty()
        }) + grow(s, rs, p + 1, hi)
    }
}

/// The next generation: only pots within two of the current extremes can
/// sprout, scanned in ascending order.
pub open spec fn next_gen(s: Seq<int>, rs: Seq<bool>) -> Seq<int> {
    grow(s, rs, s[0] - 2, s.last() + 2)
}

/// The state after `n` generations; nothing once a generation dies out,
/// whose extremes the original could not take.
pub open spec fn iterate(s: Seq<int>, rs: Seq<bool>, n: nat) -> Option<Seq<int>>
    decreases n,
{
    if n == 0 {
        Some(s)
    } else if s.len() == 0 {
        None
    } else {
        iterate(next_gen(s, rs), rs, (n - 1) as nat)
    }
}

/// The positions shifted right by `d`.
pub open spec fn shifted(s: Seq<int>, d: int) -> Seq<int> {
    s.map_values(|x: int| x + d)
}

/// The sum of the potted positions.
pub open spec fn sum_pos(s: Seq<int>) -> int
    decreases s.len(),
{
    if s.len() == 0 {
        0
    } else {
        sum_pos(s.drop_last()) + s.last()
    }
}

/// Shifting the row shifts every neighbourhood with it.
proof fn lemma_has_pot_shift(s: Seq<int>, d: int, x: int)
    ensures
        has_pot(shifted(s, d), x) == has_pot(s, x - d),
{
    if has_pot(s, x - d) {
        let t = choose|t: int| 0 <= t < s.len() && s[t] == x - d;
        assert(shifted(s, d)[t] == x);
    }
    if has_pot(shifted(s, d), x) {
        let t = choose|t: int| 0 <= t < shifted(s, d).len() && shifted(s, d)[t] == x;
        assert(s[t] == x - d);
    }
}

proof fn lemma_pat_idx_shift(s: Seq<int>, d: int, p: int)
    ensures
        pat_idx(shifted(s, d), p) == pat_idx(s, p - d),
{
    lemma_has_pot_shift(s, d, p - 2);
    lemma_has_pot_shift(s, d, p - 1);
    lemma_has_pot_shift(s, d, p);
    lemma_has_pot_shift(s, d, p + 1);
    lemma_has_pot_shift(s, d, p + 2);
}

proof fn lemma_grow_shift(s: Seq<int>, rs: Seq<bool>, d: int, p: int, hi: int)
    requires
        p <= hi + 1,
    ensures
        grow(shifted(s, d), rs, p, hi) == shifted(grow(s, rs, p - d, hi - d), d),
    decreases hi + 1 - p,
{
    if p > hi {
        assert(grow(shifted(s, d), rs, p, hi) =~= shifted(grow(s, rs, p - d, hi - d), d));
    } else {
        lemma_grow_shift(s, rs, d, p + 1, hi);
        lemma_pat_idx_shift(s, d, p);
        assert(grow(s, rs, p - d, hi - d) == (if rs[pat_idx(s, p - d)] {
            seq![p - d]
        } else {
            Seq::empty()
        }) + grow(s, rs, p - d + 1, hi - d));
        assert(grow(shifted(s, d), rs, p, hi) =~= shifted(grow(s, rs, p - d, hi - d), d));
    }
}

/// Everything grown lies between the scan bounds, in ascending order.
proof fn lemma_grow_sorted(s: Seq<int>, rs: Seq<bool>, p: int, hi: int)
    requires
        p <= hi + 1,
    ensures
        forall|t: int| 0 <= t < grow(s, rs, p, hi).len() ==> p <= #[trigger] grow(s, rs, p, hi)[t]
            <= hi,
        forall|t1: int, t2: int|
            0 <= t1 < t2 < grow(s, rs, p, hi).len() ==> grow(s, rs, p, hi)[t1] < grow(
                s,
                rs,
                p,
                hi,
            )[t2],
    decreases hi + 1 - p,
{
    if p <= hi {
        lemma_grow_sorted(s, rs, p + 1, hi);
        let g = grow(s, rs, p, hi);
        let rest = grow(s, rs, p + 1, hi);
        assert forall|t: int| 0 <= t < g.len() implies p <= #[trigger] g[t] <= hi by {
            if rs[pat_idx(s, p)] {
                if t > 0 {
                    assert(g[t] == rest[t - 1]);
                }
            } else {
                assert(g[t] == rest[t]);
            }
        }
        assert forall|t1: int, t2: int|
            0 <= t1 < t2 < g.len() implies g[t1] < g[t2] by {
            if rs[pat_idx(s, p)] {
                if t1 > 0 {
                    assert(g[t1] == rest[t1 - 1] && g[t2] == rest[t2 - 1]);
                } else {
                    assert(g[t2] == rest[t2 - 1]);
                }
            } else {
                assert(g[t1] == rest[t1] && g[t2] == rest[t2]);
            }
        }
    }
}

/// The automaton commutes with shifting: growing a shifted row gives the
/// shifted growth.
proof fn lemma_next_gen_shift(s: Seq<int>, rs: Seq<bool>, d: int)
    requires
        s.len() > 0,
        s[0] <= s.last(),
    ensures
        next_gen(shifted(s, d), rs) == shifted(next_gen(s, rs), d),
{
    assert(shifted(s, d)[0] == s[0] + d);
    assert(shifted(s, d).last() == s.last() + d);
    lemma_grow_shift(s, rs, d, s[0] + d - 2, s.last() + d + 2);
}

/// Once one generation is the previous one shifted right by one, every
/// later generation keeps shifting: the row glides unchanged.
pub proof fn lemma_glide(s: Seq<int>, rs: Seq<bool>, m: nat)
    requires
        s.len() > 0,
        s[0] <= s.last(),
        next_gen(s, rs) == shifted(s, 1),
    ensures
        iterate(s, rs, m) == Some(shifted(s, m as int)),
    decreases m,
{
    if m == 0 {
        assert(shifted(s, 0) =~= s);
    } else {
        lemma_glide(s, rs, (m - 1) as nat);
        lemma_grow_sorted(s, rs, s[0] - 2, s.last() + 2);
        lemma_iterate_shift(s, rs, 1, (m - 1) as nat);
        assert(iterate(s, rs, m) == iterate(next_gen(s, rs), rs, (m - 1) as nat));
        assert(shifted(shifted(s, 1), m - 1) =~= shifted(s, m as int));
    }
}

/// Iterating a shifted row gives the shifted iterate.
proof fn lemma_iterate_shift(s: Seq<int>, rs: Seq<bool>, d: int, m: nat)
    requires
        s.len() > 0 ==> s[0] <= s.last(),
    ensures
        iterate(shifted(s, d), rs, m) == (match iterate(s, rs, m) {
            None => None::<Seq<int>>,
            Some(f) => Some(shifted(f, d)),
        }),
    decreases m,
{
    if m > 0 && s.len() > 0 {
        lemma_next_gen_shift(s, rs, d);
        lemma_grow_sorted(s, rs, s[0] - 2, s.last() + 2);
        lemma_iterate_shift(next_gen(s, rs), rs, d, (m - 1) as nat);
    }
}

/// Whether the positions are strictly ascending.
pub open spec fn sorted_pos(s: Seq<int>) -> bool {
    forall|t1: int, t2: int| 0 <= t1 < t2 < s.len() ==> s[t1] < s[t2]
}

/// The lines of the input, with the one trailing empty piece a final line
/// break leaves dropped, as `str::lines` reads them.
pub open spec fn eff_lines(input: Seq<char>) -> Seq<Seq<char>> {
    let ls = split_on(input, '\n');
    if ls.len() > 0 && ls.last().len() == 0 {
        ls.drop_last()
    } else {
        ls
    }
}

/// The potted positions the initial-state line declares from column `i` on,
/// numbered from the end of the `initial state: ` prefix.
pub open spec fn init_pots(line: Seq<char>, i: nat) -> Seq<int>
    decreases line.len() - i,
    when i <= line.len()
{
    if i >= line.len() {
        Seq::empty()
    } else {
        (if line[i as int] == '#' {
            seq![i - 15]
        } else {
            Seq::empty()
        }) + init_pots(line, i + 1)
    }
}

/// The potted positions of the initial-state line: what follows the
/// fifteen-character prefix.
pub open spec fn initial_state(line: Seq<char>) -> Seq<int> {
    if line.len() <= 15 {
        Seq::empty()
    } else {
        init_pots(line, 15)
    }
}

/// Whether a rule line declares the neighbourhood with table index `idx`
/// to sprout a plant.
pub open spec fn rule_bit(line: Seq<char>, idx: int) -> bool {
    &&& line.len() >= 10
    &&& line[9] == '#'
    &&& line[0] == (if idx % 2 == 1 { '#' } else { '.' })
    &&& line[1] == (if (idx / 2) % 2 == 1 { '#' } else { '.' })
    &&& line[2] == (if (idx / 4) % 2 == 1 { '#' } else { '.' })
    &&& line[3] == (if (idx / 8) % 2 == 1 { '#' } else { '.' })
    &&& line[4] == (if (idx / 16) % 2 == 1 { '#' } else { '.' })
}

/// The rule table: entry `idx` is set when some rule line declares it.
pub open spec fn rules_of(lines: Seq<Seq<char>>) -> Seq<bool> {
    Seq::new(32, |idx: int| exists|k: int| 2 <= k < lines.len() && rule_bit(#[trigger] lines[k], idx))
}

/// Whether the input parses: a first line short enough to index, and every
/// rule line long enough to read.
pub open spec fn parse_ok(lines: Seq<Seq<char>>) -> bool {
    &&& lines.len() >= 1
    &&& lines[0].len() <= 0x7fff_ffff
    &&& forall|k: int| 2 <= k < lines.len() ==> (#[trigger] lines[k]).len() >= 10
}

/// The plant solver: the parsed initial pots and rule table.
pub struct PuzzleSolver {
    state: Vec<i64>,
    rules: Vec<bool>,
    ok: bool,
}

impl PuzzleSolver {
    /// Whether the held fields form a usable row: a full rule table and
    /// ascending pot positions within the parser's bound.
    closed spec fn fields_ok(self) -> bool {
        &&& self.rules@.len() == 32
        &&& forall|t1: int, t2: int|
            0 <= t1 < t2 < self.state@.len() ==> self.state@[t1] < self.state@[t2]
        &&& forall|t: int| 0 <= t < self.state@.len() ==> 0 <= #[trigger] self.state@[t]
            <= 0x7fff_ffff
    }

    /// The parsed pots and rules, when the input parsed.
    pub closed spec fn parsed(self) -> Option<(Seq<int>, Seq<bool>)> {
        if self.ok && self.fields_ok() {
            Some((self.state@.map_values(|x: i64| x as int), self.rules@))
        } else {
            None
        }
    }

    /// Reads the initial state line and the rule lines.
    pub fn presolve(&mut self, input: &str)
        ensures
            final(self).parsed() == (if parse_ok(eff_lines(input@)) {
                Some((initial_state(eff_lines(input@)[0]), rules_of(eff_lines(input@))))
            } else {
                None
            }),
    {
        let mut lines = crate::text::split_char(input, '\n');
        let ghost ls0 = split_on(input@, '\n');
        if lines.len() > 0 && lines[lines.len() - 1].as_str().unicode_len() == 0 {
            proof {
                assert(lines.deep_view().last() == ls0.last());
            }
            let _ = lines.pop();
            proof {
                assert(lines.deep_view() =~= ls0.drop_last());
            }
        }
        let ghost ls = eff_lines(input@);
        proof {
            assert(lines.deep_view() == ls);
        }
        if lines.len() == 0 {
            self.state = Vec::new();
            self.rules = Vec::new();
            self.ok = false;
            return;
        }
        let line0 = lines[0].as_str();
        proof {
            assert(line0@ == ls[0]);
        }
        let n0 = line0.unicode_len();
        if n0 > 0x7fff_ffff {
            self.state = Vec::new();
            self.rules = Vec::new();
            self.ok = false;
            return;
        }
        let mut state: Vec<i64> = Vec::new();
        let mut i: usize = if n0 < 15 {
            n0
        } else {
            15
        };
        let ghost start = i as nat;
        proof {
            if n0 <= 15 {
                assert(initial_state(line0@) =~= Seq::<int>::empty());
            } else {
                assert(initial_state(line0@) == init_pots(line0@, 15));
            }
        }
        while i < n0
            invariant
                start <= i <= n0,
                start == 15 || start == n0,
                n0 == line0@.len(),
                n0 <= 0x7fff_ffff,
                state@.map_values(|x: i64| x as int) + init_pots(line0@, i as nat) == init_pots(
                    line0@,
                    start,
                ),
            decreases n0 - i,
        {
            let c = line0.get_char(i);
            let ghost sm0 = state@.map_values(|x: i64| x as int);
            if c == '#' {
                state.push((i - 15) as i64);
                proof {
                    assert(state@.map_values(|x: i64| x as int) =~= sm0.push(i - 15));
                    assert(sm0.push(i - 15) + init_pots(line0@, i as nat + 1) =~= sm0 + (seq![
                        i - 15 as int,
                    ] + init_pots(line0@, i as nat + 1)));
                }
            } else {
                proof {
                    assert(sm0 + init_pots(line0@, i as nat + 1) =~= sm0 + (
                    Seq::<int>::empty() + init_pots(line0@, i as nat + 1)));
                }
            }
            i = i + 1;
        }
        proof {
            assert(init_pots(line0@, n0 as nat) =~= Seq::<int>::empty());
            assert(state@.map_values(|x: i64| x as int) + Seq::<int>::empty() =~= state@.map_values(
                |x: i64| x as int,
            ));
            assert(state@.map_values(|x: i64| x as int) == initial_state(line0@)) by {
                if n0 <= 15 {
                    assert(state@.map_values(|x: i64| x as int) =~= Seq::<int>::empty());
                }
            }
        }
        // The rule table.
        let mut rules: Vec<bool> = Vec::new();
        let mut t: usize = 0;
        while t < 32
            invariant
                t <= 32,
                rules@.len() == t,
                forall|u: int| 0 <= u < t ==> !rules@[u],
            decreases 32 - t,
        {
            rules.push(false);
            t = t + 1;
        }
        let mut k: usize = 2;
        if lines.len() < 2 {
            k = lines.len();
            proof {
                assert(ls.len() < 2);
            }
        }
        while k < lines.len()
            invariant
                2 <= k <= lines@.len() || (k == lines@.len() && lines@.len() < 2),
                lines.deep_view() == ls,
                ls == eff_lines(input@),
                rules@.len() == 32,
                forall|kk: int| 2 <= kk < k ==> (#[trigger] ls[kk]).len() >= 10,
                forall|idx: int|
                    0 <= idx < 32 ==> rules@[idx] == exists|kk: int|
                        2 <= kk < k && rule_bit(#[trigger] ls[kk], idx),
            decreases lines@.len() - k,
        {
            let line = lines[k].as_str();
            proof {
                assert(line@ == ls[k as int]);
            }
            let ln = line.unicode_len();
            if ln < 10 {
                proof {
                    assert(!parse_ok(ls));
                }
                self.state = Vec::new();
                self.rules = Vec::new();
                self.ok = false;
                return;
            }
            if line.get_char(9) == '#' {
                let c0 = line.get_char(0);
                let c1 = line.get_char(1);
                let c2 = line.get_char(2);
                let c3 = line.get_char(3);
                let c4 = line.get_char(4);
                let all_pots = (c0 == '#' || c0 == '.') && (c1 == '#' || c1 == '.') && (c2 == '#'
                    || c2 == '.') && (c3 == '#' || c3 == '.') && (c4 == '#' || c4 == '.');
                if all_pots {
                    let idx: usize = (if c0 == '#' {
                        1
                    } else {
                        0
                    }) + (if c1 == '#' {
                        2
                    } else {
                        0
                    }) + (if c2 == '#' {
                        4
                    } else {
                        0
                    }) + (if c3 == '#' {
                        8
                    } else {
                        0
                    }) + (if c4 == '#' {
                        16
                    } else {
                        0
                    });
                    let ghost rules0 = rules@;
                    rules.set(idx, true);
                    proof {
                        assert(rule_bit(ls[k as int], idx as int));
                        assert forall|idx2: int|
                            0 <= idx2 < 32 implies rules@[idx2] == exists|kk: int|
                            2 <= kk < k + 1 && rule_bit(#[trigger] ls[kk], idx2) by {
                            if idx2 == idx {
                            } else {
                                assert(rules@[idx2] == rules0[idx2]);
                                if rule_bit(ls[k as int], idx2) {
                                    assert(idx2 == idx as int);
                                }
                            }
                        }
                    }
                } else {
                    proof {
                        assert forall|idx2: int|
                            0 <= idx2 < 32 implies rules@[idx2] == exists|kk: int|
                            2 <= kk < k + 1 && rule_bit(#[trigger] ls[kk], idx2) by {
                            if rule_bit(ls[k as int], idx2) {
                                assert(ls[k as int][0] == '#' || ls[k as int][0] == '.');
                                assert(ls[k as int][1] == '#' || ls[k as int][1] == '.');
                                assert(ls[k as int][2] == '#' || ls[k as int][2] == '.');
                                assert(ls[k as int][3] == '#' || ls[k as int][3] == '.');
                                assert(ls[k as int][4] == '#' || ls[k as int][4] == '.');
                            }
                        }
                    }
                }
            } else {
                proof {
                    assert forall|idx2: int|
                        0 <= idx2 < 32 implies rules@[idx2] == exists|kk: int|
                        2 <= kk < k + 1 && rule_bit(#[trigger] ls[kk], idx2) by {
                        if rule_bit(ls[k as int], idx2) {
                            assert(ls[k as int][9] == '#');
                        }
                    }
                }
            }
            k = k + 1;
        }
        proof {
            assert(parse_ok(ls));
            assert(rules@ =~= rules_of(ls));
            if start == 15 {
                lemma_init_pots_sorted(line0@, 15);
            }
            let sm = state@.map_values(|x: i64| x as int);
            assert forall|t1: int, t2: int|
                0 <= t1 < t2 < state@.len() implies state@[t1] < state@[t2] by {
                assert(sm[t1] == state@[t1] as int && sm[t2] == state@[t2] as int);
            }
            assert forall|t: int| 0 <= t < state@.len() implies 0 <= #[trigger] state@[t]
                <= 0x7fff_ffff by {
                assert(sm[t] == state@[t] as int);
            }
        }
        self.state = state;
        self.rules = rules;
        self.ok = true;
    }
}

/// The declared pots ascend and lie within the line.
proof fn lemma_init_pots_sorted(line: Seq<char>, i: nat)
    requires
        i <= line.len(),
        i >= 15,
    ensures
        forall|t: int| 0 <= t < init_pots(line, i).len() ==> i - 15 <= #[trigger] init_pots(
            line,
            i,
        )[t] <= line.len(),
        forall|t1: int, t2: int|
            0 <= t1 < t2 < init_pots(line, i).len() ==> init_pots(line, i)[t1] < init_pots(
                line,
                i,
            )[t2],
    decreases line.len() - i,
{
    if i < line.len() {
        lemma_init_pots_sorted(line, i + 1);
        let g = init_pots(line, i);
        let rest = init_pots(line, i + 1);
        assert forall|t: int| 0 <= t < g.len() implies i - 15 <= #[trigger] g[t]
            <= line.len() by {
            if line[i as int] == '#' {
                if t > 0 {
                    assert(g[t] == rest[t - 1]);
                }
            } else {
                assert(g[t] == rest[t]);
            }
        }
        assert forall|t1: int, t2: int| 0 <= t1 < t2 < g.len() implies g[t1] < g[t2] by {
            if line[i as int] == '#' {
                if t1 > 0 {
                    assert(g[t1] == rest[t1 - 1] && g[t2] == rest[t2 - 1]);
                } else {
                    assert(g[t2] == rest[t2 - 1]);
                }
            } else {
                assert(g[t1] == rest[t1] && g[t2] == rest[t2]);
            }
        }
    }
}

/// Whether position `x` holds a plant.
fn has_pot_at(v: &Vec<i64>, x: i64) -> (b: bool)
    ensures
        b == has_pot(v@.map_values(|y: i64| y as int), x as int),
{
    let ghost m = v@.map_values(|y: i64| y as int);
    let mut t: usize = 0;
    while t < v.len()
        invariant
            t <= v@.len(),
            m == v@.map_values(|y: i64| y as int),
            forall|u: int| 0 <= u < t ==> m[u] != x as int,
        decreases v@.len() - t,
    {
        if v[t] == x {
            proof {
                assert(m[t as int] == x as int);
            }
            return true;
        }
        t = t + 1;
    }
    proof {
        if has_pot(m, x as int) {
            let u = choose|u: int| 0 <= u < m.len() && m[u] == x as int;
            assert(m[u] != x as int);
        }
    }
    false
}

/// One generation: scans the reachable window in ascending order.
fn step_row(v: &Vec<i64>, rules: &Vec<bool>) -> (r: Vec<i64>)
    requires
        v@.len() > 0,
        rules@.len() == 32,
        forall|t: int| 0 <= t < v@.len() ==> -0x1000_0000_0000_0000 <= #[trigger] v@[t]
            <= 0x1000_0000_0000_0000,
        v@[0] as int <= v@[v@.len() - 1] as int,
    ensures
        r@.map_values(|y: i64| y as int) == next_gen(
            v@.map_values(|y: i64| y as int),
            rules@,
        ),
        forall|t: int| 0 <= t < r@.len() ==> v@[0] - 2 <= #[trigger] r@[t] <= v@[v@.len() - 1]
            + 2,
{
    let ghost m = v@.map_values(|y: i64| y as int);
    let lo = v[0] - 2;
    let hi = v[v.len() - 1] + 2;
    proof {
        assert(m[0] == v@[0] as int && m[m.len() - 1] == v@[v@.len() - 1] as int);
    }
    let mut r: Vec<i64> = Vec::new();
    let mut p = lo;
    proof {
        assert(Seq::<int>::empty() + grow(m, rules@, lo as int, hi as int) =~= grow(
            m,
            rules@,
            lo as int,
            hi as int,
        ));
    }
    while p <= hi
        invariant
            lo <= p <= hi + 1,
            lo == v@[0] - 2,
            hi == v@[v@.len() - 1] + 2,
            -0x1000_0000_0000_0002 <= lo,
            hi <= 0x1000_0000_0000_0002,
            v@.len() > 0,
            rules@.len() == 32,
            m == v@.map_values(|y: i64| y as int),
            r@.map_values(|y: i64| y as int) + grow(m, rules@, p as int, hi as int) == grow(
                m,
                rules@,
                lo as int,
                hi as int,
            ),
            forall|t: int| 0 <= t < r@.len() ==> lo <= #[trigger] r@[t] <= hi,
        decreases hi + 1 - p,
    {
        let b0 = has_pot_at(v, p - 2);
        let b1 = has_pot_at(v, p - 1);
        let b2 = has_pot_at(v, p);
        let b3 = has_pot_at(v, p + 1);
        let b4 = has_pot_at(v, p + 2);
        let idx: usize = (if b0 {
            1
        } else {
            0
        }) + (if b1 {
            2
        } else {
            0
        }) + (if b2 {
            4
        } else {
            0
        }) + (if b3 {
            8
        } else {
            0
        }) + (if b4 {
            16
        } else {
            0
        });
        proof {
            assert(idx as int == pat_idx(m, p as int));
        }
        let ghost rm0 = r@.map_values(|y: i64| y as int);
        if rules[idx] {
            r.push(p);
            proof {
                assert(r@.map_values(|y: i64| y as int) =~= rm0.push(p as int));
                assert(rm0.push(p as int) + grow(m, rules@, p as int + 1, hi as int) =~= rm0 + (
                seq![p as int] + grow(m, rules@, p as int + 1, hi as int)));
            }
        } else {
            proof {
                assert(rm0 + grow(m, rules@, p as int + 1, hi as int) =~= rm0 + (
                Seq::<int>::empty() + grow(m, rules@, p as int + 1, hi as int)));
            }
        }
        p = p + 1;
    }
    proof {
        assert(grow(m, rules@, p as int, hi as int) =~= Seq::<int>::empty());
        assert(r@.map_values(|y: i64| y as int) + Seq::<int>::empty() =~= r@.map_values(
            |y: i64| y as int,
        ));
    }
    r
}

/// The sum of the potted positions, exactly.
fn sum_row(v: &Vec<i64>) -> (s: i128)
    ensures
        s as int == sum_pos(v@.map_values(|y: i64| y as int)),
{
    let ghost m = v@.map_values(|y: i64| y as int);
    let mut s: i128 = 0;
    let mut t: usize = 0;
    while t < v.len()
        invariant
            t <= v@.len(),
            m == v@.map_values(|y: i64| y as int),
            s as int == sum_pos(m.take(t as int)),
            -(t as int) * 0x8000_0000_0000_0000 <= s as int <= (t as int)
                * 0x7fff_ffff_ffff_ffff,
        decreases v@.len() - t,
    {
        proof {
            assert(m.take(t as int + 1).drop_last() =~= m.take(t as int));
            assert(m.take(t as int + 1).last() == v@[t as int] as int);
            assert((t as int + 1) * 0x8000_0000_0000_0000 == (t as int) * 0x8000_0000_0000_0000
                + 0x8000_0000_0000_0000) by (nonlinear_arith);
            assert((t as int + 1) * 0x7fff_ffff_ffff_ffff == (t as int) * 0x7fff_ffff_ffff_ffff
                + 0x7fff_ffff_ffff_ffff) by (nonlinear_arith);
            assert((t as int) * 0x8000_0000_0000_0000 < 0x8000_0000_0000_0000_0000_0000_0000_0000
                && (t as int) * 0x7fff_ffff_ffff_ffff
                < 0x8000_0000_0000_0000_0000_0000_0000_0000) by (nonlinear_arith)
                requires
                    0 <= t < 0x1_0000_0000_0000_0000,
            ;
        }
        s = s + (v[t] as i128);
        t = t + 1;
    }
    proof {
        assert(m.take(v@.len() as int) =~= m);
    }
    s
}

impl PuzzleSolver {
    /// The sum of the potted positions after twenty generations, in
    /// decimal; empty when the input was malformed or a generation dies
    /// out.
    pub fn solve_part_one(&self) -> (r: String)
        ensures
            ({
                match self.parsed() {
                    Some((st, rs)) => match iterate(st, rs, 20) {
                        Some(f) => r@ == dec_int(sum_pos(f)),
                        None => r@ =~= Seq::<char>::empty(),
                    },
                    None => r@ =~= Seq::<char>::empty(),
                }
            }),
    {
        if !self.ok {
            return String::new();
        }
        let ghost st0 = self.state@.map_values(|x: i64| x as int);
        let ghost rs = self.rules@;
        if !fields_check(&self.state, &self.rules) {
            return String::new();
        }
        let mut cur = clone_row(&self.state);
        let mut k: u64 = 0;
        while k < 20
            invariant
                k <= 20,
                rs.len() == 32,
                rs == self.rules@,
                st0 == self.state@.map_values(|x: i64| x as int),
                self.parsed() == Some((st0, rs)),
                iterate(st0, rs, 20) == iterate(
                    cur@.map_values(|x: i64| x as int),
                    rs,
                    (20 - k) as nat,
                ),
                forall|t: int| 0 <= t < cur@.len() ==> -0x8000_0000_0000 - 2 * (k as int)
                    <= #[trigger] cur@[t] <= 0x8000_0000_0000 + 2 * (k as int),
                forall|t1: int, t2: int|
                    0 <= t1 < t2 < cur@.len() ==> cur@[t1] < cur@[t2],
            decreases 20 - k,
        {
            if cur.len() == 0 {
                proof {
                    assert(iterate(cur@.map_values(|x: i64| x as int), rs, (20 - k) as nat)
                        is None);
                }
                return String::new();
            }
            let ghost cm = cur@.map_values(|x: i64| x as int);
            proof {
                assert(cm[0] == cur@[0] as int && cm[cm.len() - 1] == cur@[cur@.len()
                    - 1] as int);
                if cur@.len() > 1 {
                    assert(cur@[0] < cur@[cur@.len() - 1]);
                }
            }
            let next = step_row(&cur, &self.rules);
            proof {
                lemma_grow_sorted(cm, rs, cm[0] - 2, cm[cm.len() - 1] + 2);
                assert forall|t1: int, t2: int|
                    0 <= t1 < t2 < next@.len() implies next@[t1] < next@[t2] by {
                    let nm = next@.map_values(|x: i64| x as int);
                    assert(nm[t1] == next@[t1] as int && nm[t2] == next@[t2] as int);
                }
            }
            cur = next;
            k = k + 1;
        }
        let total = sum_row(&cur);
        proof {
            assert(iterate(cur@.map_values(|x: i64| x as int), rs, 0) == Some(
                cur@.map_values(|x: i64| x as int),
            ));
        }
        i128_to_string(total)
    }

    /// The sum of the potted positions after fifty billion generations, in
    /// decimal, found by detecting when the row starts gliding; empty when
    /// the input was malformed or a generation dies out.
    pub fn solve_part_two(&self) -> (r: String)
        ensures
            ({
                match self.parsed() {
                    Some((st, rs)) => match iterate(st, rs, 50_000_000_000) {
                        Some(f) => r@ == dec_int(sum_pos(f)),
                        None => r@ =~= Seq::<char>::empty(),
                    },
                    None => r@ =~= Seq::<char>::empty(),
                }
            }),
    {
        if !self.ok {
            return String::new();
        }
        let ghost st0 = self.state@.map_values(|x: i64| x as int);
        let ghost rs = self.rules@;
        if !fields_check(&self.state, &self.rules) {
            return String::new();
        }
        let total: u64 = 50_000_000_000;
        let mut cur = clone_row(&self.state);
        let mut k: u64 = 0;
        while k < total
            invariant
                k <= total,
                total == 50_000_000_000,
                rs.len() == 32,
                rs == self.rules@,
                st0 == self.state@.map_values(|x: i64| x as int),
                self.parsed() == Some((st0, rs)),
                iterate(st0, rs, total as nat) == iterate(
                    cur@.map_values(|x: i64| x as int),
                    rs,
                    (total - k) as nat,
                ),
                forall|t: int| 0 <= t < cur@.len() ==> -0x8000_0000_0000 - 2 * (k as int)
                    <= #[trigger] cur@[t] <= 0x8000_0000_0000 + 2 * (k as int),
                forall|t1: int, t2: int|
                    0 <= t1 < t2 < cur@.len() ==> cur@[t1] < cur@[t2],
            decreases total - k,
        {
            if cur.len() == 0 {
                proof {
                    assert(iterate(cur@.map_values(|x: i64| x as int), rs, (total - k) as nat)
                        is None);
                }
                return String::new();
            }
            let ghost cm = cur@.map_values(|x: i64| x as int);
            proof {
                assert(cm[0] == cur@[0] as int && cm[cm.len() - 1] == cur@[cur@.len()
                    - 1] as int);
                if cur@.len() > 1 {
                    assert(cur@[0] < cur@[cur@.len() - 1]);
                }
            }
            let next = step_row(&cur, &self.rules);
            let ghost nm = next@.map_values(|x: i64| x as int);
            proof {
                lemma_grow_sorted(cm, rs, cm[0] - 2, cm[cm.len() - 1] + 2);
                assert forall|t1: int, t2: int|
                    0 <= t1 < t2 < next@.len() implies next@[t1] < next@[t2] by {
                    assert(nm[t1] == next@[t1] as int && nm[t2] == next@[t2] as int);
                }
            }
            // Detect the gliding row: the new generation is the old one
            // shifted right by one.
            let mut gliding = next.len() == cur.len();
            let mut t: usize = 0;
            while gliding && t < next.len()
                invariant
                    t <= next@.len(),
                    gliding ==> next@.len() == cur@.len(),
                    gliding ==> forall|u: int| 0 <= u < t ==> #[trigger] next@[u] == cur@[u] + 1,
                    forall|u: int| 0 <= u < cur@.len() ==> -0x8000_0000_0000 - 2 * (k as int)
                        <= #[trigger] cur@[u] <= 0x8000_0000_0000 + 2 * (k as int),
                    k < total,
                    total == 50_000_000_000,
                decreases next@.len() - t + (if gliding {
                    1int
                } else {
                    0int
                }),
            {
                if next[t] != cur[t] + 1 {
                    gliding = false;
                } else {
                    t = t + 1;
                }
            }
            if gliding && t == next.len() {
                proof {
                    assert(nm =~= shifted(cm, 1)) by {
                        assert forall|u: int| 0 <= u < nm.len() implies nm[u] == shifted(
                            cm,
                            1,
                        )[u] by {
                            assert(next@[u] == cur@[u] + 1);
                        }
                    }
                    assert(next_gen(cm, rs) == shifted(cm, 1));
                    lemma_glide(cm, rs, (total - k) as nat);
                    assert(iterate(st0, rs, total as nat) == Some(
                        shifted(cm, (total - k) as int),
                    ));
                }
                let rem = total - k;
                let out = shift_row(&cur, rem as i64, Ghost((total - k) as int));
                let totalsum = sum_row(&out);
                return i128_to_string(totalsum);
            }
            cur = next;
            k = k + 1;
        }
        let totalsum = sum_row(&cur);
        proof {
            assert(iterate(cur@.map_values(|x: i64| x as int), rs, 0) == Some(
                cur@.map_values(|x: i64| x as int),
            ));
        }
        i128_to_string(totalsum)
    }
}

/// Whether the held fields form a usable row, decided at run time.
fn fields_check(state: &Vec<i64>, rules: &Vec<bool>) -> (b: bool)
    ensures
        b == ({
            &&& rules@.len() == 32
            &&& forall|t1: int, t2: int|
                0 <= t1 < t2 < state@.len() ==> state@[t1] < state@[t2]
            &&& forall|t: int| 0 <= t < state@.len() ==> 0 <= #[trigger] state@[t] <= 0x7fff_ffff
        }),
{
    if rules.len() != 32 {
        return false;
    }
    let mut t: usize = 0;
    while t < state.len()
        invariant
            t <= state@.len(),
            forall|u1: int, u2: int| 0 <= u1 < u2 < t ==> state@[u1] < state@[u2],
            forall|u: int| 0 <= u < t ==> 0 <= #[trigger] state@[u] <= 0x7fff_ffff,
        decreases state@.len() - t,
    {
        if !(0 <= state[t] && state[t] <= 0x7fff_ffff) {
            return false;
        }
        if t > 0 && state[t - 1] >= state[t] {
            return false;
        }
        proof {
            assert forall|u1: int, u2: int| 0 <= u1 < u2 < t + 1 implies state@[u1]
                < state@[u2] by {
                if u2 == t {
                    if u1 < t - 1 {
                        assert(state@[u1] < state@[t - 1]);
                    }
                }
            }
        }
        t = t + 1;
    }
    true
}

/// A copy of a pot row.
fn clone_row(v: &Vec<i64>) -> (r: Vec<i64>)
    ensures
        r@ == v@,
{
    let mut r: Vec<i64> = Vec::new();
    let mut t: usize = 0;
    while t < v.len()
        invariant
            t <= v@.len(),
            r@ == v@.take(t as int),
        decreases v@.len() - t,
    {
        r.push(v[t]);
        proof {
            assert(r@ =~= v@.take(t as int + 1));
        }
        t = t + 1;
    }
    proof {
        assert(v@.take(v@.len() as int) =~= v@);
    }
    r
}

/// The row shifted right by `d`.
fn shift_row(v: &Vec<i64>, d: i64, Ghost(gd): Ghost<int>) -> (r: Vec<i64>)
    requires
        d as int == gd,
        0 <= gd <= 0x10_0000_0000_0000,
        forall|t: int| 0 <= t < v@.len() ==> -0x1000_0000_0000_0000 <= #[trigger] v@[t]
            <= 0x1000_0000_0000_0000,
    ensures
        r@.map_values(|y: i64| y as int) == shifted(v@.map_values(|y: i64| y as int), gd),
{
    let ghost m = v@.map_values(|y: i64| y as int);
    let mut r: Vec<i64> = Vec::new();
    let mut t: usize = 0;
    while t < v.len()
        invariant
            t <= v@.len(),
            d as int == gd,
            0 <= gd <= 0x10_0000_0000_0000,
            m == v@.map_values(|y: i64| y as int),
            forall|u: int| 0 <= u < v@.len() ==> -0x1000_0000_0000_0000 <= #[trigger] v@[u]
                <= 0x1000_0000_0000_0000,
            r@.map_values(|y: i64| y as int) == shifted(m, gd).take(t as int),
        decreases v@.len() - t,
    {
        let ghost rm0 = r@.map_values(|y: i64| y as int);
        let nv = v[t] + d;
        r.push(nv);
        proof {
            assert(r@.map_values(|y: i64| y as int) =~= rm0.push(nv as int));
            assert(shifted(m, gd)[t as int] == m[t as int] + gd);
            assert(m[t as int] == v@[t as int] as int);
            assert(rm0.push(nv as int) =~= shifted(m, gd).take(t as int + 1));
        }
        t = t + 1;
    }
    proof {
        assert(shifted(m, gd).take(v@.len() as int) =~= shifted(m, gd));
    }
    r
}

/// A fresh solver with no input read yet.
pub fn solver() -> (s: PuzzleSolver)
    ensures
        s.parsed() is None,
{
    PuzzleSolver { state: Vec::new(), rules: Vec::new(), ok: false }
}

} // verus!
