use rs_exporter::{load_calibration, ModelBuildError, ModelKind, PowerModel, RefPoint};

fn a1_large() -> Vec<RefPoint> {
    let t = "vm_type,idle,usage_10,usage_50,usage_100\na1.large,5.0,20.0,60.0,100.0\n";
    load_calibration(t.as_bytes(), "a1.large").unwrap().points
}

#[test]
fn piecewise_scenario_at_half_load() {
    let m = PowerModel::build(ModelKind::Piecewise, &a1_large()).unwrap();
    assert_eq!(m.estimate(5_000), 60_000_000);
}

#[test]
fn piecewise_brackets_and_clamps() {
    let m = PowerModel::build(ModelKind::Piecewise, &a1_large()).unwrap();
    assert_eq!(m.estimate(-500), 5_000_000);
    assert_eq!(m.estimate(0), 5_000_000);
    assert_eq!(m.estimate(1), 20_000_000);
    assert_eq!(m.estimate(1_000), 20_000_000);
    assert_eq!(m.estimate(1_001), 60_000_000);
    assert_eq!(m.estimate(10_000), 100_000_000);
    assert_eq!(m.estimate(20_000), 100_000_000);
    assert_eq!(m.estimate(i64::MAX), 100_000_000);
}

#[test]
fn regression_scenario_at_half_load() {
    let m = PowerModel::build(ModelKind::Regression, &a1_large()).unwrap();
    let w = m.estimate(5_000);
    // 6895/124 W
    assert_eq!(w, 55_604_838);
    assert!(w >= 54_000_000 && w <= 66_000_000);
    assert!((w as f64 / 1e6 - 6895.0 / 124.0).abs() < 1e-6);
}

#[test]
fn regression_extrapolates() {
    let m = PowerModel::build(ModelKind::Regression, &a1_large()).unwrap();
    // 1095/124 W, 12695/124 W and -10505/124 W
    assert_eq!(m.estimate(0), 8_830_645);
    assert_eq!(m.estimate(10_000), 102_379_032);
    assert_eq!(m.estimate(-10_000), -84_717_742);
    assert!((m.estimate(0) as f64 / 1e6 - 1095.0 / 124.0).abs() < 1e-6);
    assert!((m.estimate(10_000) as f64 / 1e6 - 12695.0 / 124.0).abs() < 1e-6);
    let lo = m.estimate(i64::MIN);
    let hi = m.estimate(i64::MAX);
    assert!(lo < 0 && hi > 0);
}

#[test]
fn regression_is_exact_on_linear_data() {
    let pts = vec![
        RefPoint { percent: 0, milliwatts: 10_000 },
        RefPoint { percent: 50, milliwatts: 60_000 },
        RefPoint { percent: 100, milliwatts: 110_000 },
    ];
    let m = PowerModel::build(ModelKind::Regression, &pts).unwrap();
    assert_eq!(m.estimate(0), 10_000_000);
    assert_eq!(m.estimate(5_000), 60_000_000);
    assert_eq!(m.estimate(10_000), 110_000_000);
}

#[test]
fn models_are_monotone_on_monotone_data() {
    let pts = a1_large();
    for kind in [ModelKind::Piecewise, ModelKind::Regression] {
        let m = PowerModel::build(kind, &pts).unwrap();
        let mut last = m.estimate(-2_000);
        for u in (-2_000..12_000).step_by(37) {
            let w = m.estimate(u);
            assert!(w >= last);
            last = w;
        }
    }
}

#[test]
fn build_needs_two_points() {
    let one = vec![RefPoint { percent: 0, milliwatts: 5_000 }];
    assert_eq!(
        PowerModel::build(ModelKind::Regression, &one).unwrap_err(),
        ModelBuildError::InsufficientData
    );
    assert_eq!(
        PowerModel::build(ModelKind::Piecewise, &Vec::new()).unwrap_err(),
        ModelBuildError::InsufficientData
    );
}

#[test]
fn regression_residual_at_ends_within_root_ssr() {
    let pts = a1_large();
    let m = PowerModel::build(ModelKind::Regression, &pts).unwrap();
    let fitted: Vec<i128> = pts.iter().map(|p| m.estimate(p.percent as i64 * 100)).collect();
    assert_eq!(fitted, vec![8_830_645, 18_185_483, 55_604_838, 102_379_032]);
    let ssr: f64 = pts
        .iter()
        .zip(fitted.iter())
        .map(|(p, f)| {
            let r = *f as f64 - p.milliwatts as f64 * 1000.0;
            r * r
        })
        .sum();
    let bound = ssr.sqrt() + 1.0;
    assert!(((fitted[0] - 5_000_000) as f64).abs() <= bound);
    assert!(((fitted[3] - 100_000_000) as f64).abs() <= bound);
}
