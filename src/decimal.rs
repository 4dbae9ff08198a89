use vstd::prelude::*;
use vstd::string::StrSliceExecFns;

verus! {

/// Largest power figure, in milliwatts, that a calibration field may hold.
pub const MAX_MILLIWATTS: u64 = 1_000_000_000_000;

pub open spec fn is_digit(c: char) -> bool {
    '0' <= c && c <= '9'
}

pub open spec fn digit_value(c: char) -> nat {
    (c as int - '0' as int) as nat
}

/// A non-empty run of ASCII decimal digits.
pub open spec fn is_digits(s: Seq<char>) -> bool {
    s.len() > 0 && forall|i: int| 0 <= i < s.len() ==> is_digit(#[trigger] s[i])
}

/// The number that a run of decimal digits denotes.
pub open spec fn digits_value(s: Seq<char>) -> nat
    decreases s.len(),
{
    if s.len() == 0 {
        0
    } else {
        digits_value(s.drop_last()) * 10 + digit_value(s.last())
    }
}

/// Thousandths denoted by a fraction's digits: the first three count, the
/// rest are dropped.
pub open spec fn frac_milli(f: Seq<char>) -> nat {
    digits_value((f + seq!['0', '0', '0']).take(3))
}

/// A run of digits, possibly empty.
pub open spec fn only_digits(s: Seq<char>) -> bool {
    forall|i: int| 0 <= i < s.len() ==> is_digit(#[trigger] s[i])
}

/// `s` is `digits.digits` with the dot at `k`; either run of digits may be
/// empty, but not both.
pub open spec fn is_decimal_split(s: Seq<char>, k: int) -> bool {
    0 <= k < s.len() && s.len() >= 2 && s[k] == '.' && only_digits(s.take(k)) && only_digits(
        s.skip(k + 1),
    )
}

/// The value, in thousandths, of an unsigned decimal number written as
/// `digits`, `digits.digits`, `digits.` or `.digits`; `None` for any other
/// text.
pub open spec fn unsigned_milli(s: Seq<char>) -> Option<nat> {
    if is_digits(s) {
        Some(digits_value(s) * 1000)
    } else if exists|k: int| is_decimal_split(s, k) {
        let k = choose|k: int| is_decimal_split(s, k);
        Some(digits_value(s.take(k)) * 1000 + frac_milli(s.skip(k + 1)))
    } else {
        None
    }
}

/// The value, in thousandths, of a decimal number with an optional leading
/// `+`.
pub open spec fn decimal_milli(s: Seq<char>) -> Option<nat> {
    if s.len() > 0 && s[0] == '+' {
        unsigned_milli(s.skip(1))
    } else {
        unsigned_milli(s)
    }
}

/// The calibration value a field holds, in thousandths, if it is a decimal
/// number no larger than `MAX_MILLIWATTS`.
pub open spec fn field_milli(s: Seq<char>) -> Option<nat> {
    match decimal_milli(s) {
        Some(v) => if v <= MAX_MILLIWATTS { Some(v) } else { None },
        None => None,
    }
}

proof fn lemma_digits_prefix_le(s: Seq<char>, i: int)
    requires
        0 <= i <= s.len(),
    ensures
        digits_value(s.take(i)) <= digits_value(s),
    decreases s.len(),
{
    if i < s.len() {
        lemma_digits_prefix_le(s.drop_last(), i);
        assert(s.drop_last().take(i) =~= s.take(i));
    } else {
        assert(s.take(i) =~= s);
    }
}

/// Reads the digits `s[from..to]` as a number, or `None` when they are not a
/// non-empty run of digits or their value exceeds `limit`.
pub(crate) fn read_digits(s: &str, from: usize, to: usize, limit: u64) -> (r: Option<u64>)
    requires
        from <= to <= s@.len(),
        limit <= MAX_MILLIWATTS,
    ensures
        match r {
            Some(v) => is_digits(s@.subrange(from as int, to as int)) && v as nat == digits_value(
                s@.subrange(from as int, to as int),
            ) && v <= limit,
            None => !is_digits(s@.subrange(from as int, to as int)) || digits_value(
                s@.subrange(from as int, to as int),
            ) > limit,
        },
{
    let ghost t = s@.subrange(from as int, to as int);
    if from == to {
        return None;
    }
    let mut acc: u64 = 0;
    let mut i: usize = from;
    while i < to
        invariant
            from <= i <= to <= s@.len(),
            t == s@.subrange(from as int, to as int),
            forall|j: int| 0 <= j < i - from ==> is_digit(#[trigger] t[j]),
            acc as nat == digits_value(t.take(i - from)),
            acc <= limit,
        decreases to - i,
    {
        let c = s.get_char(i);
        if !('0' <= c && c <= '9') {
            assert(!is_digit(t[i - from]));
            return None;
        }
        let d = (c as u32 - '0' as u32) as u64;
        assert(t.take(i + 1 - from).drop_last() =~= t.take(i - from));
        if acc > limit / 10 || d > limit - acc * 10 {
            proof {
                lemma_digits_prefix_le(t, i + 1 - from);
            }
            return None;
        }
        acc = acc * 10 + d;
        i = i + 1;
    }
    assert(t.take(to - from) =~= t);
    Some(acc)
}

/// Parses a calibration field such as `60`, `60.25`, `+5`, `5.` or `.5` into
/// thousandths (milliwatts for a power figure). Digits past the third
/// decimal place are dropped. Text that is not a non-negative decimal number
/// (a sign other than a leading `+`, spaces), or whose value exceeds
/// `MAX_MILLIWATTS`, gives `None`. Exponent form (`1e2`) is not read: a
/// calibration table writes power figures as plain decimals, and a field in
/// exponent form is reported as a malformed row rather than guessed at.
pub fn parse_milli(s: &str) -> (r: Option<u64>)
    ensures
        match field_milli(s@) {
            Some(v) => r == Some(v as u64),
            None => r is None,
        },
{
    let n = s.unicode_len();
    if n > 0 && s.get_char(0) == '+' {
        let t = s.substring_char(1, n);
        assert(t@ =~= s@.skip(1));
        parse_unsigned(t)
    } else {
        parse_unsigned(s)
    }
}

fn parse_unsigned(s: &str) -> (r: Option<u64>)
    ensures
        match unsigned_milli(s@) {
            Some(v) => if v <= MAX_MILLIWATTS {
                r == Some(v as u64)
            } else {
                r is None
            },
            None => r is None,
        },
{
    let n = s.unicode_len();
    let mut k: usize = 0;
    while k < n
        invariant
            n == s@.len(),
            k <= n,
            forall|j: int| 0 <= j < k ==> s@[j] != '.',
        ensures
            k <= n,
            k < n ==> s@[k as int] == '.',
            forall|j: int| 0 <= j < k ==> s@[j] != '.',
        decreases n - k,
    {
        if s.get_char(k) == '.' {
            break;
        }
        k = k + 1;
    }
    if k == n {
        assert(s@.subrange(0, n as int) =~= s@);
        assert forall|j: int| !is_decimal_split(s@, j) by {}
        match read_digits(s, 0, n, MAX_MILLIWATTS / 1000) {
            Some(v) => Some(v * 1000),
            None => None,
        }
    } else {
        let ghost sv = s@;
        assert(!is_digit(sv[k as int]));
        assert(!is_digits(sv));
        assert forall|j: int| is_decimal_split(sv, j) implies j == k by {
            if j > k {
                assert(sv.take(j)[k as int] == '.');
            }
        }
        assert(sv.subrange(0, k as int) =~= sv.take(k as int));
        assert(sv.subrange(k + 1, n as int) =~= sv.skip(k + 1));
        if n < 2 {
            return None;
        }
        let whole = if k == 0 {
            assert(sv.take(0) =~= Seq::<char>::empty());
            Some(0u64)
        } else {
            read_digits(s, 0, k, MAX_MILLIWATTS / 1000)
        };
        let frac_ok = k + 1 == n || all_digits(s, k + 1, n);
        match whole {
            None => None,
            Some(w) => {
                if !frac_ok {
                    return None;
                }
                assert(is_decimal_split(sv, k as int));
                let f = if k + 1 == n {
                    let ghost p = (sv.skip(k + 1) + seq!['0', '0', '0']).take(3);
                    assert(p =~= seq!['0', '0', '0']);
                    assert(p.drop_last().drop_last().drop_last() =~= Seq::<char>::empty());
                    assert(digits_value(p.drop_last().drop_last().drop_last()) == 0);
                    assert(digits_value(p.drop_last().drop_last()) == 0);
                    assert(digits_value(p.drop_last()) == 0);
                    0u64
                } else {
                    frac_three(s, k + 1, n)
                };
                let v = w * 1000 + f;
                if v <= MAX_MILLIWATTS {
                    Some(v)
                } else {
                    None
                }
            },
        }
    }
}

/// Whether `s[from..to]` is a non-empty run of digits.
pub(crate) fn all_digits(s: &str, from: usize, to: usize) -> (r: bool)
    requires
        from <= to <= s@.len(),
    ensures
        r == is_digits(s@.subrange(from as int, to as int)),
{
    let ghost t = s@.subrange(from as int, to as int);
    if from == to {
        return false;
    }
    let mut i: usize = from;
    while i < to
        invariant
            from <= i <= to <= s@.len(),
            t == s@.subrange(from as int, to as int),
            forall|j: int| 0 <= j < i - from ==> is_digit(#[trigger] t[j]),
        decreases to - i,
    {
        let c = s.get_char(i);
        if !('0' <= c && c <= '9') {
            assert(!is_digit(t[i - from]));
            return false;
        }
        i = i + 1;
    }
    true
}

/// The digit at `i` of `s`, or zero past `to`.
fn digit_or_zero(s: &str, i: usize, to: usize) -> (r: u64)
    requires
        to <= s@.len(),
        i < to ==> is_digit(s@[i as int]),
    ensures
        r == (if i < to { digit_value(s@[i as int]) } else { 0 }),
        r <= 9,
{
    if i < to {
        let c = s.get_char(i);
        (c as u32 - '0' as u32) as u64
    } else {
        0
    }
}

/// Thousandths denoted by the fraction digits `s[from..to]`.
fn frac_three(s: &str, from: usize, to: usize) -> (r: u64)
    requires
        from < to <= s@.len(),
        is_digits(s@.subrange(from as int, to as int)),
    ensures
        r as nat == frac_milli(s@.subrange(from as int, to as int)),
        r <= 999,
{
    let ghost f = s@.subrange(from as int, to as int);
    let ghost p = (f + seq!['0', '0', '0']).take(3);
    assert(is_digit(f[0]));
    assert(from + 1 < to ==> is_digit(f[1]));
    assert(from + 2 < to ==> is_digit(f[2]));
    let d0 = digit_or_zero(s, from, to);
    let d1 = if to - from > 1 { digit_or_zero(s, from + 1, to) } else { 0 };
    let d2 = if to - from > 2 { digit_or_zero(s, from + 2, to) } else { 0 };
    assert(p[0] == f[0]);
    assert(d1 == digit_value(p[1]));
    assert(d2 == digit_value(p[2]));
    assert(p.drop_last().drop_last().drop_last() =~= Seq::<char>::empty());
    assert(digits_value(p.drop_last().drop_last().drop_last()) == 0);
    assert(p.drop_last().drop_last().last() == p[0]);
    assert(p.drop_last().last() == p[1]);
    assert(digits_value(p.drop_last().drop_last()) == digit_value(p[0]));
    assert(digits_value(p.drop_last()) == digit_value(p[0]) * 10 + digit_value(p[1]));
    d0 * 100 + d1 * 10 + d2
}

} // verus!
