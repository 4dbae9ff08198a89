//! Least-squares statistics over (x, y) samples, and the algebra that relates
//! them to sums over pairs of samples.
use vstd::prelude::*;
use vstd::arithmetic::div_mod::{lemma_div_multiples_vanish, lemma_fundamental_div_mod};

verus! {

pub open spec fn sum_x(s: Seq<(int, int)>) -> int
    decreases s.len(),
{
    if s.len() == 0 {
        0
    } else {
        sum_x(s.drop_last()) + s.last().0
    }
}

pub open spec fn sum_y(s: Seq<(int, int)>) -> int
    decreases s.len(),
{
    if s.len() == 0 {
        0
    } else {
        sum_y(s.drop_last()) + s.last().1
    }
}

pub open spec fn sum_xx(s: Seq<(int, int)>) -> int
    decreases s.len(),
{
    if s.len() == 0 {
        0
    } else {
        sum_xx(s.drop_last()) + s.last().0 * s.last().0
    }
}

pub open spec fn sum_xy(s: Seq<(int, int)>) -> int
    decreases s.len(),
{
    if s.len() == 0 {
        0
    } else {
        sum_xy(s.drop_last()) + s.last().0 * s.last().1
    }
}

/// `n * Sxx - Sx^2`: `n^2` times the variance of x; positive exactly when two
/// samples have different x.
pub open spec fn spread_num(s: Seq<(int, int)>) -> int {
    s.len() * sum_xx(s) - sum_x(s) * sum_x(s)
}

/// `n * Sxy - Sx * Sy`: the least-squares slope times `spread_num`.
pub open spec fn slope_num(s: Seq<(int, int)>) -> int {
    s.len() * sum_xy(s) - sum_x(s) * sum_y(s)
}

/// `Sy * Sxx - Sx * Sxy`: the least-squares intercept times `spread_num`.
pub open spec fn level_num(s: Seq<(int, int)>) -> int {
    sum_y(s) * sum_xx(s) - sum_x(s) * sum_xy(s)
}

/// The least-squares line through the samples, `(level + slope * x) /
/// spread`, evaluated at `x = u / 100`, in thousandths of a y unit, rounded
/// down.
pub open spec fn ols_at_hundredths(s: Seq<(int, int)>, u: int) -> int {
    (1000 * (100 * level_num(s) + slope_num(s) * u)) / (100 * spread_num(s))
}

/// Sum over the samples `p` of `(q.x - p.x) * (q.y - p.y)`.
pub open spec fn cross_with(s: Seq<(int, int)>, q: (int, int)) -> int
    decreases s.len(),
{
    if s.len() == 0 {
        0
    } else {
        cross_with(s.drop_last(), q) + (q.0 - s.last().0) * (q.1 - s.last().1)
    }
}

/// Sum over the pairs `i < j` of `(x_j - x_i) * (y_j - y_i)`.
pub open spec fn pair_sum(s: Seq<(int, int)>) -> int
    decreases s.len(),
{
    if s.len() == 0 {
        0
    } else {
        pair_sum(s.drop_last()) + cross_with(s.drop_last(), s.last())
    }
}

/// Each sample's x in both places.
pub open spec fn diag(s: Seq<(int, int)>) -> Seq<(int, int)> {
    s.map_values(|e: (int, int)| (e.0, e.0))
}

/// Later samples are no smaller in either coordinate.
pub open spec fn co_monotone(s: Seq<(int, int)>) -> bool {
    forall|i: int, j: int|
        0 <= i < j < s.len() ==> (#[trigger] s[i]).0 <= (#[trigger] s[j]).0 && s[i].1 <= s[j].1
}

/// Later samples have strictly larger x.
pub open spec fn x_increasing(s: Seq<(int, int)>) -> bool {
    forall|i: int, j: int| 0 <= i < j < s.len() ==> (#[trigger] s[i]).0 < (#[trigger] s[j]).0
}

proof fn lemma_cross_with(s: Seq<(int, int)>, q: (int, int))
    ensures
        cross_with(s, q) == sum_xy(s) + s.len() * q.0 * q.1 - sum_x(s) * q.1 - q.0 * sum_y(s),
    decreases s.len(),
{
    if s.len() > 0 {
        let t = s.drop_last();
        let e = s.last();
        lemma_cross_with(t, q);
        let n = t.len() as int;
        assert((q.0 - e.0) * (q.1 - e.1) + n * q.0 * q.1 - sum_x(t) * q.1 - q.0 * sum_y(t)
            == (n + 1) * q.0 * q.1 - (sum_x(t) + e.0) * q.1 - q.0 * (sum_y(t) + e.1) + e.0 * e.1)
            by (nonlinear_arith);
    }
}

/// The slope numerator is the sum over pairs of samples of the products of
/// their differences.
proof fn lemma_slope_num_pairs(s: Seq<(int, int)>)
    ensures
        slope_num(s) == pair_sum(s),
    decreases s.len(),
{
    if s.len() > 0 {
        let t = s.drop_last();
        let q = s.last();
        lemma_slope_num_pairs(t);
        lemma_cross_with(t, q);
        let n = t.len() as int;
        let a = sum_x(t);
        let b = sum_y(t);
        let c = sum_xy(t);
        let p = q.0 * q.1;
        assert((n + 1) * (c + p) == n * c + n * p + c + p) by (nonlinear_arith);
        assert((a + q.0) * (b + q.1) == a * b + a * q.1 + q.0 * b + q.0 * q.1) by (nonlinear_arith);
        assert(n * q.0 * q.1 == n * p) by (nonlinear_arith)
            requires
                p == q.0 * q.1,
        ;
    }
}

proof fn lemma_diag_sums(s: Seq<(int, int)>)
    ensures
        sum_x(diag(s)) == sum_x(s),
        sum_y(diag(s)) == sum_x(s),
        sum_xy(diag(s)) == sum_xx(s),
        diag(s).len() == s.len(),
    decreases s.len(),
{
    if s.len() > 0 {
        assert(diag(s).drop_last() =~= diag(s.drop_last()));
        lemma_diag_sums(s.drop_last());
    }
}

proof fn lemma_cross_nonneg(s: Seq<(int, int)>, q: (int, int))
    requires
        forall|i: int| 0 <= i < s.len() ==> (#[trigger] s[i]).0 <= q.0 && s[i].1 <= q.1,
    ensures
        cross_with(s, q) >= 0,
        s.len() > 0 ==> cross_with(s, q) >= (q.0 - s[0].0) * (q.1 - s[0].1),
    decreases s.len(),
{
    if s.len() > 0 {
        let t = s.drop_last();
        let e = s.last();
        assert(forall|i: int| 0 <= i < t.len() ==> #[trigger] t[i] == s[i]);
        lemma_cross_nonneg(t, q);
        assert(e == s[s.len() - 1]);
        assert((q.0 - e.0) * (q.1 - e.1) >= 0) by (nonlinear_arith)
            requires
                e.0 <= q.0,
                e.1 <= q.1,
        ;
    }
}

proof fn lemma_pair_sum_nonneg(s: Seq<(int, int)>)
    requires
        co_monotone(s),
    ensures
        pair_sum(s) >= 0,
    decreases s.len(),
{
    if s.len() > 0 {
        let t = s.drop_last();
        assert(forall|i: int| 0 <= i < t.len() ==> #[trigger] t[i] == s[i]);
        assert(co_monotone(t));
        lemma_pair_sum_nonneg(t);
        assert(forall|i: int| 0 <= i < t.len() ==> (#[trigger] t[i]).0 <= s.last().0 && t[i].1 <= s.last().1) by {
            assert forall|i: int| 0 <= i < t.len() implies (#[trigger] t[i]).0 <= s.last().0 && t[i].1 <= s.last().1 by {
                assert(s[i] == t[i]);
                assert(s[s.len() - 1] == s.last());
            }
        }
        lemma_cross_nonneg(t, s.last());
    }
}

/// Data whose x and y both grow from sample to sample have a non-negative
/// least-squares slope.
pub proof fn lemma_slope_nonneg(s: Seq<(int, int)>)
    requires
        co_monotone(s),
    ensures
        slope_num(s) >= 0,
{
    lemma_slope_num_pairs(s);
    lemma_pair_sum_nonneg(s);
}

/// Two or more samples with distinct x have a positive spread.
pub proof fn lemma_spread_pos(s: Seq<(int, int)>)
    requires
        s.len() >= 2,
        x_increasing(s),
    ensures
        spread_num(s) > 0,
{
    let d = diag(s);
    lemma_diag_sums(s);
    lemma_slope_num_pairs(d);
    assert(spread_num(s) == slope_num(d));
    assert forall|i: int, j: int| 0 <= i < j < d.len() implies (#[trigger] d[i]).0 <= (#[trigger] d[j]).0
        && d[i].1 <= d[j].1 by {
        assert(s[i].0 < s[j].0);
    }
    let t = d.drop_last();
    assert(forall|i: int| 0 <= i < t.len() ==> #[trigger] t[i] == d[i]);
    assert(co_monotone(t));
    lemma_pair_sum_nonneg(t);
    let q = d.last();
    assert(q == d[d.len() - 1]);
    assert forall|i: int| 0 <= i < t.len() implies (#[trigger] t[i]).0 <= q.0 && t[i].1 <= q.1 by {
        assert(d[i] == t[i]);
    }
    lemma_cross_nonneg(t, q);
    assert(t[0] == d[0]);
    let g = q.0 - t[0].0;
    assert(s[0].0 < s[s.len() - 1].0);
    assert(g > 0);
    assert(g * g > 0) by (nonlinear_arith)
        requires
            g > 0,
    ;
}

/// Every sample lies on the line `y = a + b * x`.
pub open spec fn on_line(s: Seq<(int, int)>, a: int, b: int) -> bool {
    forall|i: int| 0 <= i < s.len() ==> (#[trigger] s[i]).1 == a + b * s[i].0
}

proof fn lemma_line_sums(s: Seq<(int, int)>, a: int, b: int)
    requires
        on_line(s, a, b),
    ensures
        sum_y(s) == s.len() * a + b * sum_x(s),
        sum_xy(s) == a * sum_x(s) + b * sum_xx(s),
    decreases s.len(),
{
    if s.len() > 0 {
        let t = s.drop_last();
        assert(forall|i: int| 0 <= i < t.len() ==> #[trigger] t[i] == s[i]);
        lemma_line_sums(t, a, b);
        let x = s.last().0;
        let y = s.last().1;
        assert(s[s.len() - 1] == s.last());
        assert(y == a + b * x);
        let n = t.len() as int;
        assert(n * a + b * sum_x(t) + y == (n + 1) * a + b * (sum_x(t) + x)) by (nonlinear_arith)
            requires
                y == a + b * x,
        ;
        assert(a * sum_x(t) + b * sum_xx(t) + x * y == a * (sum_x(t) + x) + b * (sum_xx(t) + x
            * x)) by (nonlinear_arith)
            requires
                y == a + b * x,
        ;
    }
}

/// Samples that lie exactly on a line are reproduced exactly by the
/// least-squares fit: its residual at every sample is zero.
pub proof fn lemma_ols_exact_on_line(s: Seq<(int, int)>, a: int, b: int, k: int)
    requires
        s.len() >= 2,
        x_increasing(s),
        on_line(s, a, b),
        0 <= k < s.len(),
    ensures
        ols_at_hundredths(s, 100 * s[k].0) == 1000 * s[k].1,
{
    lemma_line_sums(s, a, b);
    lemma_spread_pos(s);
    let n = s.len() as int;
    let sx = sum_x(s);
    let sxx = sum_xx(s);
    let d = spread_num(s);
    assert(slope_num(s) == b * d) by (nonlinear_arith)
        requires
            d == n * sxx - sx * sx,
            slope_num(s) == n * sum_xy(s) - sx * sum_y(s),
            sum_y(s) == n * a + b * sx,
            sum_xy(s) == a * sx + b * sxx,
    ;
    assert(level_num(s) == a * d) by (nonlinear_arith)
        requires
            d == n * sxx - sx * sx,
            level_num(s) == sum_y(s) * sxx - sx * sum_xy(s),
            sum_y(s) == n * a + b * sx,
            sum_xy(s) == a * sx + b * sxx,
    ;
    let x = s[k].0;
    assert(1000 * (100 * (a * d) + (b * d) * (100 * x)) == (100 * d) * (1000 * (a + b * x)))
        by (nonlinear_arith);
    lemma_div_multiples_vanish(1000 * (a + b * x), 100 * d);
}

/// Sum over the samples of the squared residual `a + b * x - d * y` of the
/// line `(a + b * x) / d`, scaled by `d`.
pub open spec fn scaled_ssr(s: Seq<(int, int)>, a: int, b: int, d: int) -> int
    decreases s.len(),
{
    if s.len() == 0 {
        0
    } else {
        let r = a + b * s.last().0 - d * s.last().1;
        scaled_ssr(s.drop_last(), a, b, d) + r * r
    }
}

proof fn lemma_residual_le_ssr(s: Seq<(int, int)>, a: int, b: int, d: int, k: int)
    requires
        0 <= k < s.len(),
    ensures
        scaled_ssr(s, a, b, d) >= 0,
        ({
            let r = a + b * s[k].0 - d * s[k].1;
            r * r <= scaled_ssr(s, a, b, d)
        }),
    decreases s.len(),
{
    let t = s.drop_last();
    let r = a + b * s.last().0 - d * s.last().1;
    assert(r * r >= 0) by (nonlinear_arith);
    if k < s.len() - 1 {
        lemma_residual_le_ssr(t, a, b, d, k);
        assert(t[k] == s[k]);
    } else if t.len() > 0 {
        lemma_residual_le_ssr(t, a, b, d, 0);
    }
}

/// At every sample, the least-squares residual is at most the square root
/// of the residual sum of squares (both scaled by `spread_num`), and the
/// value `ols_at_hundredths` reports there is that line's value in
/// thousandths, rounded down.
pub proof fn lemma_ols_residual_bound(s: Seq<(int, int)>, k: int)
    requires
        s.len() >= 2,
        x_increasing(s),
        0 <= k < s.len(),
    ensures
        ({
            let l = level_num(s);
            let b = slope_num(s);
            let d = spread_num(s);
            let e = ols_at_hundredths(s, 100 * s[k].0);
            let r = l + b * s[k].0 - d * s[k].1;
            &&& r * r <= scaled_ssr(s, l, b, d)
            &&& d * e <= 1000 * (l + b * s[k].0) < d * (e + 1)
        }),
{
    let l = level_num(s);
    let b = slope_num(s);
    let d = spread_num(s);
    let x = s[k].0;
    lemma_spread_pos(s);
    lemma_residual_le_ssr(s, l, b, d, k);
    let num = 1000 * (100 * l + b * (100 * x));
    let den = 100 * d;
    lemma_fundamental_div_mod(num, den);
    let e = num / den;
    let m = num % den;
    assert(num == 100 * (1000 * (l + b * x))) by (nonlinear_arith)
        requires
            num == 1000 * (100 * l + b * (100 * x)),
    ;
    assert(d * e <= 1000 * (l + b * x) < d * (e + 1)) by (nonlinear_arith)
        requires
            num == den * e + m,
            0 <= m < den,
            den == 100 * d,
            num == 100 * (1000 * (l + b * x)),
    ;
}

} // verus!
