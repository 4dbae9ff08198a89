//! The usage-to-power model built from one calibration row.
use vstd::prelude::*;
use vstd::arithmetic::div_mod::{lemma_div_is_ordered, lemma_fundamental_div_mod, lemma_fundamental_div_mod_converse_div};
use crate::decimal::MAX_MILLIWATTS;
use crate::stats::{
    co_monotone, lemma_ols_exact_on_line, lemma_ols_residual_bound, scaled_ssr, lemma_slope_nonneg, lemma_spread_pos, level_num, ols_at_hundredths,
    slope_num, spread_num, sum_x, sum_xx, sum_xy, sum_y,
};

verus! {

/// Power draw, in milliwatts, at a CPU utilisation of `percent` percent.
#[derive(Clone, Copy, Debug, PartialEq, Eq, Structural)]
pub struct RefPoint {
    pub percent: u64,
    pub milliwatts: u64,
}

/// Reference points are within range and listed by strictly increasing
/// utilisation.
pub open spec fn points_valid(pts: Seq<RefPoint>) -> bool {
    &&& forall|i: int|
        0 <= i < pts.len() ==> (#[trigger] pts[i]).percent <= 100 && pts[i].milliwatts
            <= MAX_MILLIWATTS
    &&& forall|i: int, j: int|
        0 <= i < j < pts.len() ==> (#[trigger] pts[i]).percent < (#[trigger] pts[j]).percent
}

/// Power never drops as utilisation grows.
pub open spec fn watts_monotone(pts: Seq<RefPoint>) -> bool {
    forall|i: int, j: int|
        0 <= i < j < pts.len() ==> (#[trigger] pts[i]).milliwatts <= (#[trigger] pts[j]).milliwatts
}

/// The points as (percent, milliwatts) samples.
pub open spec fn samples(pts: Seq<RefPoint>) -> Seq<(int, int)> {
    pts.map_values(|p: RefPoint| (p.percent as int, p.milliwatts as int))
}

/// Step policy: the power of the first reference point whose utilisation is
/// at least `u` basis points; past the top point, the top point's power.
pub open spec fn step_value(pts: Seq<RefPoint>, u: int) -> int
    decreases pts.len(),
{
    if pts.len() == 0 {
        0
    } else if pts.len() == 1 || u <= 100 * pts[0].percent {
        pts[0].milliwatts as int
    } else {
        step_value(pts.skip(1), u)
    }
}

/// The two model families.
#[derive(Clone, Copy, Debug, PartialEq, Eq, Structural)]
pub enum ModelKind {
    /// Exact lookup of the bracketing reference point.
    Piecewise,
    /// Least-squares line through the reference points, extrapolated freely.
    Regression,
}

/// What a model of `kind` built from `pts` estimates, in microwatts, at `u`
/// basis points of CPU utilisation.
pub open spec fn reference_estimate(kind: ModelKind, pts: Seq<RefPoint>, u: int) -> int {
    match kind {
        ModelKind::Piecewise => 1000 * step_value(pts, u),
        ModelKind::Regression => ols_at_hundredths(samples(pts), u),
    }
}

/// Why a model could not be built.
#[derive(Clone, Copy, Debug, PartialEq, Eq, Structural)]
pub enum ModelBuildError {
    /// Fewer than two reference points.
    InsufficientData,
}

pub const SLOPE_BOUND: i128 = 1_100_000_000_000_000_000;

pub const LEVEL_BOUND: i128 = 300_000_000_000_000_000_000;

pub const SPREAD_BOUND: i128 = 200_000_000;

/// A usage-to-power model. The regression variant stores the least-squares
/// line as `(level + slope * x) / spread`, exactly.
#[derive(Debug)]
pub enum PowerModel {
    Piecewise { points: Vec<RefPoint> },
    Regression { level: i128, slope: i128, spread: i128 },
}

impl PowerModel {
    pub open spec fn wf(&self) -> bool {
        match self {
            PowerModel::Piecewise { points } => points@.len() >= 1 && points_valid(points@),
            PowerModel::Regression { level, slope, spread } => {
                &&& 0 < *spread <= SPREAD_BOUND
                &&& -SLOPE_BOUND <= *slope <= SLOPE_BOUND
                &&& -LEVEL_BOUND <= *level <= LEVEL_BOUND
            },
        }
    }

    /// The model's estimate, in microwatts, at `u` basis points.
    pub open spec fn spec_estimate(&self, u: int) -> int {
        match self {
            PowerModel::Piecewise { points } => 1000 * step_value(points@, u),
            PowerModel::Regression { level, slope, spread } => (1000 * (100 * *level + *slope * u))
                / (100 * *spread),
        }
    }

    /// Builds a model of `kind` from calibration points. Fails exactly when
    /// there are fewer than two points.
    pub fn build(kind: ModelKind, points: &Vec<RefPoint>) -> (r: Result<PowerModel, ModelBuildError>)
        requires
            points_valid(points@),
        ensures
            points@.len() < 2 <==> r == Err::<PowerModel, ModelBuildError>(
                ModelBuildError::InsufficientData,
            ),
            points@.len() >= 2 ==> r is Ok,
            r matches Ok(m) ==> m.wf() && forall|u: int| #[trigger]
                m.spec_estimate(u) == reference_estimate(kind, points@, u),
    {
        if points.len() < 2 {
            return Err(ModelBuildError::InsufficientData);
        }
        match kind {
            ModelKind::Piecewise => Ok(PowerModel::Piecewise { points: points.clone() }),
            ModelKind::Regression => Ok(fit_line(points)),
        }
    }

    /// Estimated power draw, in microwatts, at `usage` basis points of CPU
    /// utilisation (hundredths of a percent). Defined for every input,
    /// including negative readings and readings above 100 percent: the
    /// piecewise model clamps to its end points, the regression model
    /// extrapolates its line. The regression value is the exact
    /// least-squares line rounded down to a whole microwatt.
    pub fn estimate(&self, usage: i64) -> (r: i128)
        requires
            self.wf(),
        ensures
            r == self.spec_estimate(usage as int),
    {
        match self {
            PowerModel::Piecewise { points } => step_lookup(points, usage) * 1000,
            PowerModel::Regression { level, slope, spread } => {
                let u = usage as i128;
                proof {
                    lemma_product_bound(*slope as int, u as int);
                }
                floor_div_thousandths(100 * *level + *slope * u, 100 * *spread)
            },
        }
    }
}

proof fn lemma_product_bound(a: int, b: int)
    requires
        -SLOPE_BOUND <= a <= SLOPE_BOUND,
        i64::MIN <= b <= i64::MAX,
    ensures
        -11_000_000_000_000_000_000_000_000_000_000_000_000 <= a * b
            <= 11_000_000_000_000_000_000_000_000_000_000_000_000,
{
    assert(-SLOPE_BOUND * 10_000_000_000_000_000_000 <= a * b <= SLOPE_BOUND
        * 10_000_000_000_000_000_000) by (nonlinear_arith)
        requires
            -SLOPE_BOUND <= a <= SLOPE_BOUND,
            -10_000_000_000_000_000_000 <= b <= 10_000_000_000_000_000_000,
            SLOPE_BOUND > 0,
    ;
}

/// Division rounding toward negative infinity.
fn floor_div(num: i128, den: i128) -> (q: i128)
    requires
        0 < den <= 1_000_000_000_000_000_000_000_000_000_000,
        -100_000_000_000_000_000_000_000_000_000_000_000_000 <= num,
    ensures
        q == num / den,
{
    if num >= 0 {
        num / den
    } else {
        let a = -num;
        let q2 = (a + (den - 1)) / den;
        proof {
            let q = num / den;
            let r = num % den;
            lemma_fundamental_div_mod(num as int, den as int);
            assert(num == q * den + r) by (nonlinear_arith)
                requires
                    num == den * q + r,
            ;
            assert(a + (den - 1) == (-q) * den + (den - 1 - r)) by (nonlinear_arith)
                requires
                    num == q * den + r,
                    a == -num,
            ;
            lemma_fundamental_div_mod_converse_div(a + (den - 1), den as int, -q, den - 1 - r);
        }
        -q2
    }
}

/// `1000 * num / den` rounded down, computed without forming `1000 * num`.
fn floor_div_thousandths(num: i128, den: i128) -> (r: i128)
    requires
        100 <= den <= 100_000_000_000,
        -12_000_000_000_000_000_000_000_000_000_000_000_000 <= num
            <= 12_000_000_000_000_000_000_000_000_000_000_000_000,
    ensures
        r == (1000 * num) / (den as int),
{
    let q = floor_div(num, den);
    proof {
        lemma_fundamental_div_mod(num as int, den as int);
    }
    let ghost m = num % den;
    assert(num == den * q + m);
    assert(-120_000_000_000_000_000_000_000_000_000_000_000 - 1 <= q
        <= 120_000_000_000_000_000_000_000_000_000_000_000) by (nonlinear_arith)
        requires
            num == den * q + m,
            0 <= m < den,
            100 <= den,
            -12_000_000_000_000_000_000_000_000_000_000_000_000 <= num
                <= 12_000_000_000_000_000_000_000_000_000_000_000_000,
    ;
    let rem = num - q * den;
    assert(rem == m) by (nonlinear_arith)
        requires
            num == den * q + m,
            rem == num - q * den,
    ;
    let q2 = (1000 * rem) / den;
    proof {
        lemma_fundamental_div_mod(1000 * m, den as int);
        let m2 = (1000 * m) % (den as int);
        assert(1000 * num == (1000 * q + q2) * den + m2) by (nonlinear_arith)
            requires
                num == den * q + m,
                1000 * m == den * q2 + m2,
        ;
        lemma_fundamental_div_mod_converse_div(1000 * num, den as int, 1000 * q + q2, m2);
    }
    q * 1000 + q2
}

fn step_lookup(points: &Vec<RefPoint>, usage: i64) -> (r: i128)
    requires
        points@.len() >= 1,
        points_valid(points@),
    ensures
        r == step_value(points@, usage as int),
        0 <= r <= MAX_MILLIWATTS,
{
    let n = points.len();
    let u = usage as i128;
    let mut i: usize = 0;
    assert(points@.skip(0) =~= points@);
    while i + 1 < n && u > 100 * (points[i].percent as i128)
        invariant
            n == points@.len(),
            0 <= i < n,
            points_valid(points@),
            step_value(points@, u as int) == step_value(points@.skip(i as int), u as int),
        decreases n - i,
    {
        assert(points@.skip(i as int).skip(1) =~= points@.skip(i + 1));
        i = i + 1;
    }
    assert(points@.skip(i as int)[0] == points@[i as int]);
    points[i].milliwatts as i128
}

proof fn lemma_percent_ge_index(pts: Seq<RefPoint>, i: int)
    requires
        points_valid(pts),
        0 <= i < pts.len(),
    ensures
        pts[i].percent >= i,
    decreases i,
{
    if i > 0 {
        lemma_percent_ge_index(pts, i - 1);
        assert(pts[i - 1].percent < pts[i].percent);
    }
}

/// Fits the least-squares line through the points.
fn fit_line(points: &Vec<RefPoint>) -> (m: PowerModel)
    requires
        points@.len() >= 2,
        points_valid(points@),
    ensures
        m.wf(),
        forall|u: int| #[trigger]
            m.spec_estimate(u) == ols_at_hundredths(samples(points@), u),
{
    let n = points.len();
    let ghost s = samples(points@);
    proof {
        lemma_percent_ge_index(points@, n - 1);
    }
    let mut sx: i128 = 0;
    let mut sy: i128 = 0;
    let mut sxx: i128 = 0;
    let mut sxy: i128 = 0;
    let mut i: usize = 0;
    while i < n
        invariant
            n == points@.len() <= 101,
            s == samples(points@),
            points_valid(points@),
            0 <= i <= n,
            sx == sum_x(s.take(i as int)),
            sy == sum_y(s.take(i as int)),
            sxx == sum_xx(s.take(i as int)),
            sxy == sum_xy(s.take(i as int)),
            0 <= sx <= 100 * i,
            0 <= sy <= MAX_MILLIWATTS * i,
            0 <= sxx <= 10_000 * i,
            0 <= sxy <= 100_000_000_000_000 * i,
        decreases n - i,
    {
        let p = points[i];
        assert(s.take(i + 1).drop_last() =~= s.take(i as int));
        assert(s.take(i + 1).last() == (p.percent as int, p.milliwatts as int));
        let x = p.percent as i128;
        let y = p.milliwatts as i128;
        assert(x <= 100 && y <= MAX_MILLIWATTS);
        assert(0 <= x * x <= 10_000) by (nonlinear_arith)
            requires
                0 <= x <= 100,
        ;
        assert(0 <= x * y <= 100 * MAX_MILLIWATTS) by (nonlinear_arith)
            requires
                0 <= x <= 100,
                0 <= y <= MAX_MILLIWATTS,
        ;
        sx = sx + x;
        sy = sy + y;
        sxx = sxx + x * x;
        sxy = sxy + x * y;
        i = i + 1;
    }
    assert(s.take(n as int) =~= s);
    let k = n as i128;
    assert(0 <= k * sxx <= 101 * 1_010_000) by (nonlinear_arith)
        requires
            0 <= k <= 101,
            0 <= sxx <= 1_010_000,
    ;
    assert(0 <= sx * sx <= 10_100 * 10_100) by (nonlinear_arith)
        requires
            0 <= sx <= 10_100,
    ;
    assert(0 <= k * sxy <= 101 * 101 * 100 * MAX_MILLIWATTS) by (nonlinear_arith)
        requires
            0 <= k <= 101,
            0 <= sxy <= 101 * 100 * MAX_MILLIWATTS,
    ;
    assert(0 <= sx * sy <= 10_100 * 101 * MAX_MILLIWATTS) by (nonlinear_arith)
        requires
            0 <= sx <= 10_100,
            0 <= sy <= 101 * MAX_MILLIWATTS,
    ;
    assert(0 <= sy * sxx <= 101 * MAX_MILLIWATTS * 1_010_000) by (nonlinear_arith)
        requires
            0 <= sxx <= 1_010_000,
            0 <= sy <= 101 * MAX_MILLIWATTS,
    ;
    assert(0 <= sx * sxy <= 10_100 * 101 * 100 * MAX_MILLIWATTS) by (nonlinear_arith)
        requires
            0 <= sx <= 10_100,
            0 <= sxy <= 101 * 100 * MAX_MILLIWATTS,
    ;
    let spread = k * sxx - sx * sx;
    let slope = k * sxy - sx * sy;
    let level = sy * sxx - sx * sxy;
    proof {
        assert forall|a: int, b: int| 0 <= a < b < s.len() implies (#[trigger] s[a]).0 < (
        #[trigger] s[b]).0 by {
            assert(points@[a].percent < points@[b].percent);
        }
        lemma_spread_pos(s);
    }
    PowerModel::Regression { level, slope, spread }
}

proof fn lemma_step_at_least_first(pts: Seq<RefPoint>, u: int)
    requires
        pts.len() >= 1,
        watts_monotone(pts),
    ensures
        step_value(pts, u) >= pts[0].milliwatts,
    decreases pts.len(),
{
    if pts.len() > 1 && u > 100 * pts[0].percent {
        let t = pts.skip(1);
        assert forall|i: int, j: int| 0 <= i < j < t.len() implies (#[trigger] t[i]).milliwatts
            <= (#[trigger] t[j]).milliwatts by {
            assert(t[i] == pts[i + 1] && t[j] == pts[j + 1]);
        }
        lemma_step_at_least_first(t, u);
        assert(t[0] == pts[1]);
        assert(pts[0].milliwatts <= pts[1].milliwatts);
    }
}

proof fn lemma_step_monotone(pts: Seq<RefPoint>, u: int, v: int)
    requires
        pts.len() >= 1,
        watts_monotone(pts),
        u <= v,
    ensures
        step_value(pts, u) <= step_value(pts, v),
    decreases pts.len(),
{
    if pts.len() > 1 {
        let t = pts.skip(1);
        assert forall|i: int, j: int| 0 <= i < j < t.len() implies (#[trigger] t[i]).milliwatts
            <= (#[trigger] t[j]).milliwatts by {
            assert(t[i] == pts[i + 1] && t[j] == pts[j + 1]);
        }
        if u <= 100 * pts[0].percent {
            lemma_step_at_least_first(pts, v);
        } else {
            lemma_step_monotone(t, u, v);
        }
    }
}

proof fn lemma_step_top(pts: Seq<RefPoint>, u: int)
    requires
        pts.len() >= 1,
        points_valid(pts),
        u >= 100 * pts.last().percent,
    ensures
        step_value(pts, u) == pts.last().milliwatts,
    decreases pts.len(),
{
    if pts.len() > 1 {
        let t = pts.skip(1);
        assert(pts[0].percent < pts[pts.len() - 1].percent);
        assert(t.last() == pts.last());
        assert forall|i: int, j: int| 0 <= i < j < t.len() implies (#[trigger] t[i]).percent < (
        #[trigger] t[j]).percent by {
            assert(t[i] == pts[i + 1] && t[j] == pts[j + 1]);
        }
        assert forall|i: int| 0 <= i < t.len() implies (#[trigger] t[i]).percent <= 100
            && t[i].milliwatts <= MAX_MILLIWATTS by {
            assert(t[i] == pts[i + 1]);
        }
        lemma_step_top(t, u);
    }
}

/// The piecewise model is exact at its ends: at the lowest reference point
/// (and below it) it gives that point's power, and at the highest reference
/// point (and above it) the highest point's power.
pub proof fn lemma_piecewise_end_points(pts: Seq<RefPoint>, u: int)
    requires
        pts.len() >= 2,
        points_valid(pts),
    ensures
        u <= 100 * pts[0].percent ==> reference_estimate(ModelKind::Piecewise, pts, u) == 1000
            * pts[0].milliwatts,
        u >= 100 * pts.last().percent ==> reference_estimate(ModelKind::Piecewise, pts, u) == 1000
            * pts.last().milliwatts,
{
    if u >= 100 * pts.last().percent {
        lemma_step_top(pts, u);
    }
}

/// With power non-decreasing in utilisation, both model families give
/// non-decreasing estimates: a higher reading never yields a lower power.
pub proof fn lemma_model_monotone(kind: ModelKind, pts: Seq<RefPoint>, u: int, v: int)
    requires
        pts.len() >= 2,
        points_valid(pts),
        watts_monotone(pts),
        u <= v,
    ensures
        reference_estimate(kind, pts, u) <= reference_estimate(kind, pts, v),
{
    match kind {
        ModelKind::Piecewise => {
            lemma_step_monotone(pts, u, v);
            assert(1000 * step_value(pts, u) <= 1000 * step_value(pts, v));
        },
        ModelKind::Regression => {
            let s = samples(pts);
            assert forall|i: int, j: int| 0 <= i < j < s.len() implies (#[trigger] s[i]).0 <= (
            #[trigger] s[j]).0 && s[i].1 <= s[j].1 by {
                assert(pts[i].percent < pts[j].percent);
                assert(pts[i].milliwatts <= pts[j].milliwatts);
            }
            assert(co_monotone(s));
            assert forall|i: int, j: int| 0 <= i < j < s.len() implies (#[trigger] s[i]).0 < (
            #[trigger] s[j]).0 by {
                assert(pts[i].percent < pts[j].percent);
            }
            lemma_slope_nonneg(s);
            lemma_spread_pos(s);
            let b = slope_num(s);
            let a = 100 * level_num(s);
            assert(1000 * (a + b * u) <= 1000 * (a + b * v)) by (nonlinear_arith)
                requires
                    b >= 0,
                    u <= v,
            ;
            lemma_div_is_ordered(1000 * (a + b * u), 1000 * (a + b * v), 100 * spread_num(s));
        },
    }
}

/// Calibration data lying exactly on a line `a + b * percent` is reproduced
/// exactly by the regression model at every reference point; in particular
/// at 0 and 100 percent when those are reference points.
pub proof fn lemma_regression_exact_on_line(pts: Seq<RefPoint>, a: int, b: int, k: int)
    requires
        pts.len() >= 2,
        points_valid(pts),
        forall|i: int|
            0 <= i < pts.len() ==> (#[trigger] pts[i]).milliwatts == a + b * pts[i].percent,
        0 <= k < pts.len(),
    ensures
        reference_estimate(ModelKind::Regression, pts, 100 * pts[k].percent) == 1000
            * pts[k].milliwatts,
{
    let s = samples(pts);
    assert forall|i: int, j: int| 0 <= i < j < s.len() implies (#[trigger] s[i]).0 < (
    #[trigger] s[j]).0 by {
        assert(pts[i].percent < pts[j].percent);
    }
    assert forall|i: int| 0 <= i < s.len() implies (#[trigger] s[i]).1 == a + b * s[i].0 by {
        assert(pts[i].milliwatts == a + b * pts[i].percent);
    }
    lemma_ols_exact_on_line(s, a, b, k);
}

/// At each reference point (0 and 100 percent among them, when present) the
/// regression estimate is within the fit's residual there, which is at most
/// the square root of the residual sum of squares; the estimate is that
/// fitted value in microwatts, rounded down. Quantities are scaled by `spread_num`, so that
/// the statement stays in integers.
pub proof fn lemma_regression_near_reference_points(pts: Seq<RefPoint>, k: int)
    requires
        pts.len() >= 2,
        points_valid(pts),
        0 <= k < pts.len(),
    ensures
        ({
            let s = samples(pts);
            let l = level_num(s);
            let b = slope_num(s);
            let d = spread_num(s);
            let x = pts[k].percent as int;
            let e = reference_estimate(ModelKind::Regression, pts, 100 * x);
            let r = l + b * x - d * pts[k].milliwatts;
            &&& d > 0
            &&& r * r <= scaled_ssr(s, l, b, d)
            &&& d * e <= 1000 * (l + b * x) < d * (e + 1)
        }),
{
    let s = samples(pts);
    assert forall|i: int, j: int| 0 <= i < j < s.len() implies (#[trigger] s[i]).0 < (
    #[trigger] s[j]).0 by {
        assert(pts[i].percent < pts[j].percent);
    }
    lemma_spread_pos(s);
    lemma_ols_residual_bound(s, k);
}

} // verus!
