//! Decimal formatting and parsing of puzzle input text, specified over
//! sequences of characters.

use vstd::prelude::*;

verus! {

/// The decimal digit character for a value in 0..10.
pub open spec fn digit_char(d: int) -> char {
    if d == 0 {
        '0'
    } else if d == 1 {
        '1'
    } else if d == 2 {
        '2'
    } else if d == 3 {
        '3'
    } else if d == 4 {
        '4'
    } else if d == 5 {
        '5'
    } else if d == 6 {
        '6'
    } else if d == 7 {
        '7'
    } else if d == 8 {
        '8'
    } else {
        '9'
    }
}

/// The decimal digit sequence of a natural number, most significant first.
pub open spec fn dec_digits(n: nat) -> Seq<char>
    decreases n,
{
    if n < 10 {
        seq![digit_char(n as int)]
    } else {
        dec_digits(n / 10) + seq![digit_char((n % 10) as int)]
    }
}

/// The decimal rendering of an integer, with a leading minus sign when negative.
pub open spec fn dec_int(v: int) -> Seq<char> {
    if v < 0 {
        seq!['-'] + dec_digits((-v) as nat)
    } else {
        dec_digits(v as nat)
    }
}

/// Appends the decimal digit character for `d` to `s`.
pub(crate) fn push_digit(s: &mut String, d: u8)
    requires
        d < 10,
    ensures
        final(s)@ == old(s)@ + seq![digit_char(d as int)],
{
    let t: &str = if d == 0 {
        "0"
    } else if d == 1 {
        "1"
    } else if d == 2 {
        "2"
    } else if d == 3 {
        "3"
    } else if d == 4 {
        "4"
    } else if d == 5 {
        "5"
    } else if d == 6 {
        "6"
    } else if d == 7 {
        "7"
    } else if d == 8 {
        "8"
    } else {
        "9"
    };
    proof {
        reveal_strlit("0");
        reveal_strlit("1");
        reveal_strlit("2");
        reveal_strlit("3");
        reveal_strlit("4");
        reveal_strlit("5");
        reveal_strlit("6");
        reveal_strlit("7");
        reveal_strlit("8");
        reveal_strlit("9");
        assert(t@ =~= seq![digit_char(d as int)]);
    }
    s.append(t);
}

/// Renders a natural number in decimal.
pub fn u128_to_string(n: u128) -> (s: String)
    ensures
        s@ == dec_digits(n as nat),
{
    let mut digits: Vec<u8> = Vec::new();
    let mut m = n;
    loop
        invariant
            m > 0 ==> dec_digits(n as nat) == dec_digits(m as nat) + rev_digit_chars(digits@),
            m == 0 ==> digits@.len() > 0 || n == 0,
            m == 0 && digits@.len() > 0 ==> dec_digits(n as nat) == rev_digit_chars(digits@),
            m == 0 && digits@.len() == 0 ==> n == 0,
            forall|k: int| 0 <= k < digits@.len() ==> digits@[k] < 10,
        ensures
            dec_digits(n as nat) == rev_digit_chars(digits@),
            forall|k: int| 0 <= k < digits@.len() ==> digits@[k] < 10,
        decreases m + (if digits@.len() == 0 { 1int } else { 0int }),
    {
        if m == 0 && digits.len() > 0 {
            break;
        }
        let d = (m % 10) as u8;
        let ghost old_m = m;
        let ghost old_digits = digits@;
        digits.push(d);
        m = m / 10;
        proof {
            assert(rev_digit_chars(old_digits.push(d)) =~= seq![digit_char(d as int)]
                + rev_digit_chars(old_digits));
            if old_m == 0 {
                assert(n == 0);
                assert(dec_digits(0) =~= seq![digit_char(0)]);
                assert(rev_digit_chars(digits@) =~= seq![digit_char(0)]);
            } else if old_m < 10 {
                assert(dec_digits(old_m as nat) =~= seq![digit_char(old_m as int)]);
            }
        }
    }
    let mut s = String::new();
    let mut i = digits.len();
    while i > 0
        invariant
            i <= digits@.len(),
            forall|k: int| 0 <= k < digits@.len() ==> digits@[k] < 10,
            s@ == rev_digit_chars(digits@).take(digits@.len() - i),
            dec_digits(n as nat) == rev_digit_chars(digits@),
        decreases i,
    {
        i = i - 1;
        let d = digits[i];
        push_digit(&mut s, d);
        proof {
            assert(rev_digit_chars(digits@)[digits@.len() - 1 - i] == digit_char(d as int));
            assert(s@ =~= rev_digit_chars(digits@).take(digits@.len() - i));
        }
    }
    proof {
        assert(s@ =~= dec_digits(n as nat));
    }
    s
}

/// The digit characters of a digit sequence, reversed: the last digit pushed
/// comes first.
pub open spec fn rev_digit_chars(ds: Seq<u8>) -> Seq<char> {
    Seq::new(ds.len(), |i: int| digit_char(ds[ds.len() - 1 - i] as int))
}

/// Renders an integer in decimal, with a minus sign when negative.
pub fn i128_to_string(v: i128) -> (s: String)
    ensures
        s@ == dec_int(v as int),
{
    if v >= 0 {
        let s = u128_to_string(v as u128);
        s
    } else {
        let mag: u128 = ((-(v + 1)) as u128) + 1;
        proof {
            assert(mag as int == -(v as int));
        }
        let mut s = String::new();
        proof {
            reveal_strlit("-");
            assert("-"@ =~= seq!['-']);
        }
        s.append("-");
        let t = u128_to_string(mag);
        s.append(t.as_str());
        proof {
            assert(s@ =~= dec_int(v as int));
        }
        s
    }
}

/// Whether `c` is one of the whitespace characters stripped from puzzle input.
pub open spec fn is_ws(c: char) -> bool {
    c == ' ' || c == '\n' || c == '\r' || c == '\t'
}

/// The first index at or after `from` holding a non-whitespace character,
/// or the length when there is none.
pub open spec fn first_non_ws(s: Seq<char>, from: nat) -> nat
    decreases s.len() - from,
{
    if from >= s.len() {
        s.len()
    } else if !is_ws(s[from as int]) {
        from
    } else {
        first_non_ws(s, from + 1)
    }
}

/// One past the last index below `upto` holding a non-whitespace character,
/// or zero when there is none.
pub open spec fn end_non_ws(s: Seq<char>, upto: nat) -> nat
    decreases upto,
{
    if upto == 0 {
        0
    } else if !is_ws(s[upto - 1]) {
        upto
    } else {
        end_non_ws(s, (upto - 1) as nat)
    }
}

/// `s` with leading and trailing whitespace removed.
pub open spec fn trim(s: Seq<char>) -> Seq<char> {
    let a = first_non_ws(s, 0);
    let b = end_non_ws(s, s.len());
    if a <= b {
        s.subrange(a as int, b as int)
    } else {
        Seq::empty()
    }
}

proof fn lemma_end_non_ws_bounds(s: Seq<char>, upto: nat)
    requires
        upto <= s.len(),
    ensures
        end_non_ws(s, upto) <= upto,
        end_non_ws(s, upto) > 0 ==> !is_ws(s[end_non_ws(s, upto) - 1]),
        forall|k: int| end_non_ws(s, upto) <= k < upto ==> is_ws(s[k]),
    decreases upto,
{
    if upto > 0 && is_ws(s[upto - 1]) {
        lemma_end_non_ws_bounds(s, (upto - 1) as nat);
    }
}

/// `s` with leading and trailing whitespace removed.
pub fn trim_str(s: &str) -> (t: &str)
    ensures
        t@ == trim(s@),
{
    let n = s.unicode_len();
    let mut a: usize = 0;
    while a < n && is_ws_char(s.get_char(a))
        invariant
            a <= n,
            n == s@.len(),
            forall|k: int| 0 <= k < a ==> is_ws(s@[k]),
        decreases n - a,
    {
        a = a + 1;
    }
    proof {
        lemma_first_non_ws_fixed(s@, 0, a as nat);
    }
    let mut b: usize = n;
    while b > a && is_ws_char(s.get_char(b - 1))
        invariant
            a <= b <= n,
            n == s@.len(),
            forall|k: int| b <= k < n ==> is_ws(s@[k]),
            a < n ==> !is_ws(s@[a as int]),
        decreases b,
    {
        b = b - 1;
    }
    proof {
        if a == n {
            lemma_end_non_ws_low(s@, s@.len(), a as nat);
            assert(trim(s@) =~= s@.subrange(a as int, end_non_ws(s@, s@.len()) as int).take(0));
            assert(trim(s@) =~= Seq::<char>::empty());
        } else {
            lemma_end_non_ws_fixed(s@, s@.len(), b as nat);
        }
    }
    let t = s.substring_char(a, b);
    proof {
        if a == n {
            assert(t@ =~= trim(s@));
        }
    }
    t
}

proof fn lemma_first_non_ws_fixed(s: Seq<char>, from: nat, a: nat)
    requires
        from <= a <= s.len(),
        forall|k: int| from <= k < a ==> is_ws(s[k]),
        a < s.len() ==> !is_ws(s[a as int]),
    ensures
        first_non_ws(s, from) == a,
    decreases a - from,
{
    if from < a {
        lemma_first_non_ws_fixed(s, from + 1, a);
    }
}

proof fn lemma_end_non_ws_fixed(s: Seq<char>, upto: nat, b: nat)
    requires
        b <= upto <= s.len(),
        forall|k: int| b <= k < upto ==> is_ws(s[k]),
        b > 0 ==> !is_ws(s[b - 1]),
    ensures
        end_non_ws(s, upto) == b,
    decreases upto - b,
{
    if b < upto {
        lemma_end_non_ws_fixed(s, (upto - 1) as nat, b);
    }
}

proof fn lemma_end_non_ws_low(s: Seq<char>, upto: nat, a: nat)
    requires
        upto <= s.len(),
        forall|k: int| a <= k < s.len() ==> is_ws(s[k]),
    ensures
        end_non_ws(s, upto) <= a,
    decreases upto,
{
    if upto > a {
        lemma_end_non_ws_low(s, (upto - 1) as nat, a);
    } else {
        lemma_end_non_ws_bounds(s, upto);
    }
}

/// Whether `c` is stripped by `trim_str`.
fn is_ws_char(c: char) -> (r: bool)
    ensures
        r == is_ws(c),
{
    c == ' ' || c == '\n' || c == '\r' || c == '\t'
}

/// The first index at or after `from` holding `sep`, or the length when
/// there is none.
pub open spec fn find_sep(s: Seq<char>, sep: char, from: nat) -> nat
    decreases s.len() - from,
{
    if from >= s.len() {
        s.len()
    } else if s[from as int] == sep {
        from
    } else {
        find_sep(s, sep, from + 1)
    }
}

/// The pieces of `s` between occurrences of `sep`: what `str::split` yields.
/// An empty sequence splits into one empty piece.
pub open spec fn split_on(s: Seq<char>, sep: char) -> Seq<Seq<char>>
    decreases s.len(),
{
    let f = find_sep(s, sep, 0);
    if f >= s.len() {
        seq![s]
    } else {
        seq![s.take(f as int)] + split_on(s.skip(f + 1 as int), sep)
    }
}

proof fn lemma_find_sep_bounds(s: Seq<char>, sep: char, from: nat)
    requires
        from <= s.len(),
    ensures
        from <= find_sep(s, sep, from) <= s.len(),
        find_sep(s, sep, from) < s.len() ==> s[find_sep(s, sep, from) as int] == sep,
        forall|k: int| from <= k < find_sep(s, sep, from) ==> s[k] != sep,
    decreases s.len() - from,
{
    if from < s.len() && s[from as int] != sep {
        lemma_find_sep_bounds(s, sep, from + 1);
    }
}

proof fn lemma_find_sep_fixed(s: Seq<char>, sep: char, from: nat, f: nat)
    requires
        from <= f <= s.len(),
        forall|k: int| from <= k < f ==> s[k] != sep,
        f < s.len() ==> s[f as int] == sep,
    ensures
        find_sep(s, sep, from) == f,
    decreases f - from,
{
    if from < f {
        lemma_find_sep_fixed(s, sep, from + 1, f);
    }
}

/// Splitting a suffix: `split_on` of `s.skip(st)` starts with the piece up to
/// the next separator at or after `st`.
proof fn lemma_split_on_skip(s: Seq<char>, sep: char, st: nat)
    requires
        st <= s.len(),
    ensures
        ({
            let f = find_sep(s, sep, st);
            if f >= s.len() {
                split_on(s.skip(st as int), sep) == seq![s.subrange(st as int, s.len() as int)]
            } else {
                split_on(s.skip(st as int), sep) == seq![s.subrange(st as int, f as int)]
                    + split_on(s.skip(f + 1 as int), sep)
            }
        }),
{
    let sub = s.skip(st as int);
    let f = find_sep(s, sep, st);
    lemma_find_sep_bounds(s, sep, st);
    assert forall|k: int| 0 <= k < f - st implies #[trigger] sub[k] != sep by {
        assert(sub[k] == s[k + st]);
    }
    lemma_find_sep_fixed(sub, sep, 0, (f - st) as nat);
    if f >= s.len() {
        assert(split_on(sub, sep) == seq![sub]);
        assert(sub =~= s.subrange(st as int, s.len() as int));
    } else {
        assert(split_on(sub, sep) == seq![sub.take(f - st)] + split_on(sub.skip(f - st + 1), sep));
        assert(sub.take(f - st) =~= s.subrange(st as int, f as int));
        assert(sub.skip(f - st + 1) =~= s.skip(f + 1 as int));
    }
}

/// Splits `s` at every occurrence of `sep`, as `str::split` does.
pub fn split_char(s: &str, sep: char) -> (v: Vec<String>)
    ensures
        v.deep_view() == split_on(s@, sep),
{
    let n = s.unicode_len();
    let mut v: Vec<String> = Vec::new();
    let mut st: usize = 0;
    proof {
        assert(s@.skip(0) =~= s@);
        assert(v.deep_view() =~= Seq::<Seq<char>>::empty());
        assert(v.deep_view() + split_on(s@, sep) =~= split_on(s@, sep));
    }
    loop
        invariant_except_break
            v.deep_view() + split_on(s@.skip(st as int), sep) == split_on(s@, sep),
        invariant
            st <= n,
            n == s@.len(),
        ensures
            v.deep_view() == split_on(s@, sep),
        decreases n - st + 1,
    {
        let mut f: usize = st;
        while f < n && s.get_char(f) != sep
            invariant
                st <= f <= n,
                n == s@.len(),
                forall|k: int| st <= k < f ==> s@[k] != sep,
            decreases n - f,
        {
            f = f + 1;
        }
        proof {
            lemma_find_sep_fixed(s@, sep, st as nat, f as nat);
            lemma_split_on_skip(s@, sep, st as nat);
        }
        let piece = s.substring_char(st, f);
        let ghost old_dv = v.deep_view();
        let ghost old_st = st as int;
        v.push(String::from_str(piece));
        proof {
            assert(v.deep_view() =~= old_dv.push(piece@));
        }
        if f == n {
            proof {
                assert(old_dv.push(piece@) =~= old_dv + seq![s@.subrange(old_st, n as int)]);
                assert(v.deep_view() == split_on(s@, sep));
            }
            break;
        }
        st = f + 1;
        proof {
            assert(split_on(s@.skip(old_st), sep) == seq![s@.subrange(old_st, f as int)]
                + split_on(s@.skip(st as int), sep));
            assert(old_dv.push(piece@) + split_on(s@.skip(st as int), sep) =~= old_dv + (seq![
                s@.subrange(old_st, f as int),
            ] + split_on(s@.skip(st as int), sep)));
        }
    }
    v
}

/// Whether `c` is a decimal digit.
pub open spec fn is_digit(c: char) -> bool {
    48 <= c as u32 <= 57
}

/// The value of a decimal digit character.
pub open spec fn digit_val(c: char) -> int {
    c as u32 - 48
}

/// The value of a digit sequence read in base ten, most significant first.
pub open spec fn digits_val(s: Seq<char>) -> int
    decreases s.len(),
{
    if s.len() == 0 {
        0
    } else {
        digits_val(s.drop_last()) * 10 + digit_val(s.last())
    }
}

/// Whether every character of `s` is a decimal digit.
pub open spec fn all_digits(s: Seq<char>) -> bool {
    forall|k: int| 0 <= k < s.len() ==> is_digit(s[k])
}

/// The value denoted by `s` as an optionally signed decimal integer, or
/// nothing when `s` is not such an integer or it does not fit in an `i64`:
/// what `str::parse::<i64>` accepts.
pub open spec fn parse_i64(s: Seq<char>) -> Option<i64> {
    let neg = s.len() > 0 && s[0] == '-';
    let ds = if s.len() > 0 && (s[0] == '-' || s[0] == '+') {
        s.skip(1)
    } else {
        s
    };
    if ds.len() == 0 || !all_digits(ds) {
        None
    } else {
        let v = if neg {
            -digits_val(ds)
        } else {
            digits_val(ds)
        };
        if i64::MIN <= v <= i64::MAX {
            Some(v as i64)
        } else {
            None
        }
    }
}

proof fn lemma_digits_val_nonneg(s: Seq<char>)
    requires
        all_digits(s),
    ensures
        digits_val(s) >= 0,
    decreases s.len(),
{
    if s.len() > 0 {
        assert(all_digits(s.drop_last()));
        lemma_digits_val_nonneg(s.drop_last());
    }
}

/// Extending a digit string never decreases its value.
proof fn lemma_digits_val_prefix(s: Seq<char>, k: int)
    requires
        all_digits(s),
        0 <= k <= s.len(),
    ensures
        digits_val(s) >= digits_val(s.take(k)),
    decreases s.len() - k,
{
    if k < s.len() {
        lemma_digits_val_prefix(s, k + 1);
        assert(s.take(k + 1).drop_last() =~= s.take(k));
        assert(digits_val(s.take(k + 1)) == digits_val(s.take(k)) * 10 + digit_val(s[k]));
        assert(all_digits(s.take(k)));
        lemma_digits_val_nonneg(s.take(k));
    } else {
        assert(s.take(k) =~= s);
    }
}

/// Parses an optionally signed decimal integer, as `str::parse::<i64>` does.
pub fn parse_i64_str(s: &str) -> (r: Option<i64>)
    ensures
        r == parse_i64(s@),
{
    let n = s.unicode_len();
    if n == 0 {
        return None;
    }
    let c0 = s.get_char(0);
    let neg = c0 == '-';
    let start: usize = if c0 == '-' || c0 == '+' {
        1
    } else {
        0
    };
    let ghost ds = if start == 1 {
        s@.skip(1)
    } else {
        s@
    };
    if n == start {
        return None;
    }
    let mut acc: u128 = 0;
    let mut i = start;
    while i < n
        invariant
            start <= i <= n,
            n == s@.len(),
            n > 0,
            start == 0 || start == 1,
            (start == 1) <==> (s@[0] == '-' || s@[0] == '+'),
            start == 1 ==> ds == s@.skip(1),
            start == 0 ==> ds == s@,
            acc <= 0x8000_0000_0000_0000,
            all_digits(ds.take(i - start)),
            acc == digits_val(ds.take(i - start)),
        decreases n - i,
    {
        let c = s.get_char(i);
        let cv = c as u32;
        if cv < 48 || cv > 57 {
            proof {
                assert(ds.len() == n - start);
                if start == 1 {
                    assert(ds[i - 1] == s@[i as int]);
                } else {
                    assert(ds[i as int] == s@[i as int]);
                }
                assert(!is_digit(ds[i - start]));
            }
            return None;
        }
        let d = (cv - 48) as u128;
        proof {
            assert(ds.len() == n - start);
            assert(ds.take(i - start + 1).drop_last() =~= ds.take(i - start));
            if start == 1 {
                assert(ds[i - 1] == s@[i as int]);
            } else {
                assert(ds[i as int] == s@[i as int]);
            }
        }
        acc = acc * 10 + d;
        i = i + 1;
        if acc > 0x8000_0000_0000_0000 {
            proof {
                if all_digits(ds) {
                    lemma_digits_val_prefix(ds, i - start);
                    assert(digits_val(ds) >= acc > 0x8000_0000_0000_0000);
                }
            }
            return None;
        }
    }
    proof {
        assert(ds.take(n - start) =~= ds);
    }
    if neg {
        if acc == 0x8000_0000_0000_0000 {
            Some(i64::MIN)
        } else {
            Some(-(acc as i64))
        }
    } else {
        if acc == 0x8000_0000_0000_0000 {
            None
        } else {
            Some(acc as i64)
        }
    }
}


/// The integers of `s`, trimmed and split on `sep`, when every piece parses.
pub open spec fn parse_i64_list(s: Seq<char>, sep: char) -> Option<Seq<i64>> {
    let segs = split_on(trim(s), sep);
    if forall|k: int| 0 <= k < segs.len() ==> parse_i64(#[trigger] segs[k]) is Some {
        Some(Seq::new(segs.len(), |k: int| parse_i64(segs[k]).unwrap()))
    } else {
        None
    }
}

/// Trims `s`, splits it on `sep`, and parses every piece as an `i64`, as the
/// original puzzle inputs are read.
pub fn parse_i64_list_str(s: &str, sep: char) -> (r: Option<Vec<i64>>)
    ensures
        match r {
            Some(v) => parse_i64_list(s@, sep) == Some(v@),
            None => parse_i64_list(s@, sep) is None,
        },
{
    let t = trim_str(s);
    let segs = split_char(t, sep);
    let ghost ssegs = split_on(trim(s@), sep);
    proof {
        assert(segs.deep_view() == ssegs);
        assert(segs@.len() == ssegs.len());
    }
    let mut out: Vec<i64> = Vec::new();
    let mut i: usize = 0;
    while i < segs.len()
        invariant
            i <= segs@.len(),
            ssegs == split_on(trim(s@), sep),
            segs.deep_view() == ssegs,
            out@.len() == i,
            forall|k: int| 0 <= k < i ==> parse_i64(#[trigger] ssegs[k]) == Some(out@[k]),
        decreases segs@.len() - i,
    {
        proof {
            assert(segs@[i as int]@ == ssegs[i as int]);
        }
        match parse_i64_str(segs[i].as_str()) {
            Some(v) => {
                out.push(v);
            },
            None => {
                proof {
                    assert(parse_i64(ssegs[i as int]) is None);
                    assert(parse_i64(ssegs[i as int]) is None);
                    assert(parse_i64_list(s@, sep) is None);
                }
                return None;
            },
        }
        i = i + 1;
    }
    proof {
        assert(forall|k: int|
            0 <= k < ssegs.len() ==> parse_i64(#[trigger] ssegs[k]) is Some);
        assert(out@ =~= Seq::new(ssegs.len(), |k: int| parse_i64(ssegs[k]).unwrap()));
    }
    Some(out)
}

} // verus!\n