//! The license tree: a flat list of numbers encodes a tree, each node a
//! child count, a metadata count, the children, then the metadata. One part
//! sums all metadata; the other values nodes by metadata-indexed children.

use vstd::prelude::*;
use crate::day01::sum_of;
use crate::text::{dec_int, i128_to_string, parse_i64_list, parse_i64_list_str};

verus! {

/// The sum of the child values a metadata list selects: an entry `m` picks
/// the `m`-th child value, and out-of-range entries count nothing.
pub open spec fn indexed_sum(metas: Seq<i64>, vals: Seq<int>) -> int
    decreases metas.len(),
{
    if metas.len() == 0 {
        0
    } else {
        indexed_sum(metas.drop_last(), vals) + ({
            let m = metas.last() as int;
            if 1 <= m <= vals.len() {
                vals[m - 1]
            } else {
                0
            }
        })
    }
}

/// Whether `v` fits the machine integers the sums are taken in.
pub open spec fn fits(v: int) -> bool {
    i64::MIN <= v <= i64::MAX
}

/// Whether every running metadata sum stays in range.
pub open spec fn meta_prefixes_fit(metas: Seq<i64>) -> bool {
    forall|j: int| 0 <= j <= metas.len() ==> fits(sum_of(#[trigger] metas.take(j)))
}

/// Whether every running indexed sum stays in range.
pub open spec fn indexed_prefixes_fit(metas: Seq<i64>, vals: Seq<int>) -> bool {
    forall|j: int| 0 <= j <= metas.len() ==> fits(indexed_sum(#[trigger] metas.take(j), vals))
}

/// Parses one node at the head of `s`: the total metadata sum below it, its
/// value, and how many numbers it spans. Nothing when the list is malformed
/// or a running sum leaves the machine range.
pub open spec fn parse_node(s: Seq<i64>) -> Option<(int, int, nat)>
    decreases s.len(), 0nat,
{
    if s.len() < 2 {
        None
    } else {
        let nc = s[0] as int;
        let nm = s[1] as int;
        if nc < 0 || nm < 0 {
            None
        } else {
            match parse_children(s.skip(2), nc, 0) {
                None => None,
                Some((vals, msum, szc)) => {
                    let size = 2 + szc + nm;
                    if size > s.len() {
                        None
                    } else {
                        let metas = s.subrange(2 + szc as int, 2 + szc as int + nm);
                        let m_here = sum_of(metas);
                        let value = if nc == 0 {
                            m_here
                        } else {
                            indexed_sum(metas, vals)
                        };
                        if meta_prefixes_fit(metas) && fits(msum + m_here) && (nc == 0
                            || indexed_prefixes_fit(metas, vals)) {
                            Some((msum + m_here, value, size as nat))
                        } else {
                            None
                        }
                    }
                },
            }
        }
    }
}

/// Parses `count` sibling nodes at the head of `s`, folding their metadata
/// totals into the running sum `acc`: their values in order, the final
/// running sum, and their combined span.
pub open spec fn parse_children(s: Seq<i64>, count: int, acc: int) -> Option<(Seq<int>, int, nat)>
    decreases s.len(), count + 1,
{
    if count <= 0 {
        Some((Seq::empty(), acc, 0))
    } else {
        match parse_node(s) {
            None => None,
            Some((m, v, sz)) => {
                if !fits(acc + m) {
                    None
                } else {
                    let sz2: int = if sz > s.len() {
                        s.len() as int
                    } else {
                        sz as int
                    };
                    match parse_children(s.skip(sz2), count - 1, acc + m) {
                        None => None,
                        Some((vals, ms, szs)) => Some((seq![v] + vals, ms, (sz + szs) as nat)),
                    }
                }
            },
        }
    }
}

/// A parsed node spans at least its two header numbers and at most the
/// whole list, and its sums fit the machine range.
pub proof fn lemma_parse_node_bounds(s: Seq<i64>)
    requires
        parse_node(s) is Some,
    ensures
        ({
            let (m, v, sz) = parse_node(s).unwrap();
            &&& 2 <= sz <= s.len()
            &&& fits(m)
            &&& fits(v)
        }),
    decreases s.len(), 0nat,
{
    let nc = s[0] as int;
    lemma_parse_children_bounds(s.skip(2), nc, 0);
    let metas = s.subrange(
        2 + parse_children(s.skip(2), nc, 0).unwrap().2 as int,
        2 + parse_children(s.skip(2), nc, 0).unwrap().2 as int + s[1] as int,
    );
    if nc != 0 {
        assert(fits(indexed_sum(metas.take(metas.len() as int), parse_children(
            s.skip(2),
            nc,
            0,
        ).unwrap().0)));
        assert(metas.take(metas.len() as int) =~= metas);
    }
}

/// Parsed siblings span at most the list, fold a fitting running sum, and
/// carry one fitting value per sibling.
pub proof fn lemma_parse_children_bounds(s: Seq<i64>, count: int, acc: int)
    requires
        parse_children(s, count, acc) is Some,
        fits(acc),
    ensures
        ({
            let (vals, ms, szs) = parse_children(s, count, acc).unwrap();
            &&& szs <= s.len()
            &&& vals.len() == (if count <= 0 {
                0int
            } else {
                count
            })
            &&& fits(ms)
            &&& forall|t: int| 0 <= t < vals.len() ==> fits(#[trigger] vals[t])
        }),
    decreases s.len(), count + 1,
{
    if count > 0 {
        let (m, v, sz) = parse_node(s).unwrap();
        lemma_parse_node_bounds(s);
        let sz2: int = if sz > s.len() {
            s.len() as int
        } else {
            sz as int
        };
        lemma_parse_children_bounds(s.skip(sz2), count - 1, acc + m);
        let (vals, ms, szs) = parse_children(s.skip(sz2), count - 1, acc + m).unwrap();
        assert forall|t: int|
            0 <= t < (seq![v] + vals).len() implies fits(#[trigger] (seq![v] + vals)[t]) by {
            if t > 0 {
                assert((seq![v] + vals)[t] == vals[t - 1]);
            }
        }
    }
}

/// The license solver: the parsed number list.
pub struct PuzzleSolver {
    input: Vec<i64>,
    ok: bool,
}

impl PuzzleSolver {
    /// The parsed input this solver holds, when parsing succeeded.
    pub closed spec fn parsed(self) -> Option<Seq<i64>> {
        if self.ok {
            Some(self.input@)
        } else {
            None
        }
    }

    /// Reads the space-separated number list.
    pub fn presolve(&mut self, input: &str)
        ensures
            final(self).parsed() == parse_i64_list(input@, ' '),
    {
        match parse_i64_list_str(input, ' ') {
            Some(v) => {
                self.input = v;
                self.ok = true;
            },
            None => {
                self.input = Vec::new();
                self.ok = false;
            },
        }
    }

    /// The sum of every metadata entry in the tree, in decimal; empty when
    /// the input was malformed, encodes no tree, or a sum leaves the
    /// machine range.
    pub fn solve_part_one(&self) -> (r: String)
        ensures
            ({
                match self.parsed() {
                    Some(vs) => match parse_node(vs) {
                        Some(t) => r@ == dec_int(t.0),
                        None => r@ =~= Seq::<char>::empty(),
                    },
                    None => r@ =~= Seq::<char>::empty(),
                }
            }),
    {
        if !self.ok {
            return String::new();
        }
        proof {
            assert(self.input@.skip(0) =~= self.input@);
        }
        match parse_node_at(&self.input, 0) {
            Some(t) => i128_to_string(t.0 as i128),
            None => String::new(),
        }
    }

    /// The value of the root node, in decimal; empty in the same cases.
    pub fn solve_part_two(&self) -> (r: String)
        ensures
            ({
                match self.parsed() {
                    Some(vs) => match parse_node(vs) {
                        Some(t) => r@ == dec_int(t.1),
                        None => r@ =~= Seq::<char>::empty(),
                    },
                    None => r@ =~= Seq::<char>::empty(),
                }
            }),
    {
        if !self.ok {
            return String::new();
        }
        proof {
            assert(self.input@.skip(0) =~= self.input@);
        }
        match parse_node_at(&self.input, 0) {
            Some(t) => i128_to_string(t.1 as i128),
            None => String::new(),
        }
    }
}

/// Parses the node starting at `pos`.
fn parse_node_at(input: &Vec<i64>, pos: usize) -> (res: Option<(i64, i64, usize)>)
    requires
        pos <= input@.len(),
    ensures
        ({
            let sp = parse_node(input@.skip(pos as int));
            match res {
                Some(t) => sp == Some((t.0 as int, t.1 as int, t.2 as nat)) && pos + t.2
                    <= input@.len(),
                None => sp is None,
            }
        }),
    decreases input@.len() - pos,
{
    let ghost s = input@.skip(pos as int);
    let n = input.len();
    if n - pos < 2 {
        return None;
    }
    let nc = input[pos];
    let nm = input[pos + 1];
    proof {
        assert(s[0] == input@[pos as int] && s[1] == input@[pos as int + 1]);
    }
    if nc < 0 || nm < 0 {
        return None;
    }
    let mut vals: Vec<i64> = Vec::new();
    let mut msum: i64 = 0;
    let mut consumed: usize = 0;
    let mut i: i64 = 0;
    proof {
        assert(s.skip(2).skip(0) =~= s.skip(2));
    }
    while i < nc
        invariant
            0 <= i <= nc,
            pos <= input@.len(),
            n == input@.len(),
            pos + 2 + consumed <= input@.len(),
            s == input@.skip(pos as int),
            s.len() == input@.len() - pos,
            s.len() >= 2,
            nc == s[0] && nm == s[1],
            nc >= 0 && nm >= 0,
            vals@.len() == i,
            forall|t: int| 0 <= t < i ==> fits(#[trigger] vals@[t] as int),
            ({
                let rest = parse_children(s.skip(2 + consumed as int), nc - i, msum as int);
                match rest {
                    None => parse_children(s.skip(2), nc as int, 0) is None,
                    Some(r) => parse_children(s.skip(2), nc as int, 0) == Some(
                        (vals@.map_values(|x: i64| x as int) + r.0, r.1, (consumed + r.2) as nat),
                    ),
                }
            }),
        decreases nc - i,
    {
        let ghost consumed0 = consumed as int;
        let ghost msum0 = msum as int;
        let ghost vals0 = vals@;
        proof {
            assert(s.skip(2 + consumed0) =~= input@.skip(pos as int + 2 + consumed0));
        }
        match parse_node_at(input, pos + 2 + consumed) {
            None => {
                proof {
                    assert(parse_children(s.skip(2 + consumed0), nc - i, msum0) is None);
                }
                return None;
            },
            Some((cm, cv, csz)) => {
                proof {
                    lemma_parse_node_bounds(s.skip(2 + consumed0));
                }
                let new_msum = match msum.checked_add(cm) {
                    Some(v) => v,
                    None => {
                        proof {
                            assert(!fits(msum0 + cm as int));
                            assert(parse_children(s.skip(2 + consumed0), nc - i, msum0)
                                is None);
                        }
                        return None;
                    },
                };
                msum = new_msum;
                vals.push(cv);
                consumed = consumed + csz;
                i = i + 1;
                proof {
                    assert(s.skip(2 + consumed0).skip(csz as int) =~= s.skip(
                        2 + consumed as int,
                    ));
                    let rest = parse_children(s.skip(2 + consumed as int), nc - i, msum as int);
                    match rest {
                        None => {
                            assert(parse_children(s.skip(2 + consumed0), nc - i + 1, msum0)
                                is None);
                        },
                        Some(r) => {
                            assert(parse_children(s.skip(2 + consumed0), nc - i + 1, msum0)
                                == Some(
                                (seq![cv as int] + r.0, r.1, (csz + r.2) as nat),
                            ));
                            assert(vals0.map_values(|x: i64| x as int) + (seq![cv as int] + r.0)
                                =~= vals@.map_values(|x: i64| x as int) + r.0);
                        },
                    }
                }
            },
        }
    }
    proof {
        assert(parse_children(s.skip(2 + consumed as int), 0, msum as int) == Some(
            (Seq::<int>::empty(), msum as int, 0nat),
        ));
        assert(vals@.map_values(|x: i64| x as int) + Seq::<int>::empty() =~= vals@.map_values(
            |x: i64| x as int,
        ));
        assert(parse_children(s.skip(2), nc as int, 0) == Some(
            (vals@.map_values(|x: i64| x as int), msum as int, consumed as nat),
        ));
    }
    // Metadata.
    let remaining = n - pos - 2 - consumed;
    if (nm as u64) > (remaining as u64) {
        proof {
            assert(2 + consumed + nm > s.len());
        }
        return None;
    }
    let nm_u = nm as usize;
    let meta_start = pos + 2 + consumed;
    let ghost metas = s.subrange(2 + consumed as int, 2 + consumed as int + nm as int);
    let mut m_here: i64 = 0;
    let mut j: usize = 0;
    while j < nm_u
        invariant
            j <= nm_u,
            nm_u == nm as int,
            meta_start == pos + 2 + consumed,
            meta_start + nm_u <= input@.len(),
            s == input@.skip(pos as int),
            s.len() >= 2,
            nc == s[0] && nm == s[1],
            nc >= 0 && nm >= 0,
            n == input@.len(),
            pos <= input@.len(),
            parse_children(s.skip(2), nc as int, 0) == Some(
                (vals@.map_values(|x: i64| x as int), msum as int, consumed as nat),
            ),
            2 + consumed + nm <= s.len(),
            metas == s.subrange(2 + consumed as int, 2 + consumed as int + nm as int),
            m_here as int == sum_of(metas.take(j as int)),
            forall|j2: int| 0 <= j2 <= j ==> fits(sum_of(#[trigger] metas.take(j2))),
        decreases nm_u - j,
    {
        proof {
            assert(metas.take(j as int + 1).drop_last() =~= metas.take(j as int));
            assert(metas[j as int] == input@[meta_start + j]);
        }
        let mv = input[meta_start + j];
        m_here = match m_here.checked_add(mv) {
            Some(v) => v,
            None => {
                proof {
                    assert(!fits(sum_of(metas.take(j as int + 1))));
                    assert(!meta_prefixes_fit(metas));
                }
                return None;
            },
        };
        j = j + 1;
    }
    proof {
        assert(metas.take(nm as int) =~= metas);
        assert(meta_prefixes_fit(metas)) by {
            assert(forall|j2: int|
                0 <= j2 <= metas.len() ==> fits(sum_of(#[trigger] metas.take(j2))));
        }
    }
    // Totals.
    let total = match msum.checked_add(m_here) {
        Some(v) => v,
        None => {
            return None;
        },
    };
    let value: i64 = if nc == 0 {
        m_here
    } else {
        let ghost gvals = vals@.map_values(|x: i64| x as int);
        let mut acc: i64 = 0;
        let mut j: usize = 0;
        while j < nm_u
            invariant
                j <= nm_u,
                nm_u == nm as int,
                meta_start == pos + 2 + consumed,
                meta_start + nm_u <= input@.len(),
                s == input@.skip(pos as int),
                s.len() >= 2,
                nc == s[0] && nm == s[1],
                nc >= 0 && nm >= 0,
                n == input@.len(),
                pos <= input@.len(),
                parse_children(s.skip(2), nc as int, 0) == Some(
                    (vals@.map_values(|x: i64| x as int), msum as int, consumed as nat),
                ),
                2 + consumed + nm <= s.len(),
                nc != 0,
                metas == s.subrange(2 + consumed as int, 2 + consumed as int + nm as int),
                gvals == vals@.map_values(|x: i64| x as int),
                acc as int == indexed_sum(metas.take(j as int), gvals),
                forall|j2: int| 0 <= j2 <= j ==> fits(indexed_sum(#[trigger] metas.take(j2), gvals)),
                forall|t: int| 0 <= t < vals@.len() ==> fits(#[trigger] vals@[t] as int),
            decreases nm_u - j,
        {
            proof {
                assert(metas.take(j as int + 1).drop_last() =~= metas.take(j as int));
                assert(metas[j as int] == input@[meta_start + j]);
            }
            let mv = input[meta_start + j];
            let pick: i64 = if mv >= 1 && (mv as u64) <= (vals.len() as u64) {
                vals[(mv - 1) as usize]
            } else {
                0
            };
            proof {
                assert(gvals.len() == vals@.len());
                if 1 <= mv as int <= gvals.len() {
                    assert(gvals[mv as int - 1] == vals@[mv as int - 1] as int);
                }
            }
            acc = match acc.checked_add(pick) {
                Some(v) => v,
                None => {
                    proof {
                        assert(!fits(indexed_sum(metas.take(j as int + 1), gvals)));
                        assert(!indexed_prefixes_fit(metas, gvals));
                    }
                    return None;
                },
            };
            j = j + 1;
        }
        proof {
            assert(metas.take(nm as int) =~= metas);
            assert(indexed_prefixes_fit(metas, gvals)) by {
                assert(forall|j2: int|
                    0 <= j2 <= metas.len() ==> fits(indexed_sum(
                        #[trigger] metas.take(j2),
                        gvals,
                    )));
            }
        }
        acc
    };
    let size = 2 + consumed + nm_u;
    Some((total, value, size))
}

/// A fresh solver with no input read yet.
pub fn solver() -> (s: PuzzleSolver)
    ensures
        s.parsed() is None,
{
    PuzzleSolver { input: Vec::new(), ok: false }
}

} // verus!
