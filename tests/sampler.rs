use std::sync::Arc;

use rs_exporter::{
    initial_sample, load_calibration, sample, scrape_reply, Config, ModelKind, PowerModel, SampleState, Sampler,
    SamplerPhase, SharedSample, TickOutcome, STATUS_INTERNAL_ERROR, STATUS_OK,
};

fn model(kind: ModelKind) -> PowerModel {
    let t = "vm_type,idle,usage_10,usage_50,usage_100\na1.large,5.0,20.0,60.0,100.0\n";
    let row = load_calibration(t.as_bytes(), "a1.large").unwrap();
    PowerModel::build(kind, &row.points).unwrap()
}

#[test]
fn initial_snapshot_is_zero_usage_with_its_estimate() {
    let shared = SharedSample::new(model(ModelKind::Regression));
    assert_eq!(shared.snapshot(), SampleState { cpu_usage: 0, power: 8_830_645 });
    let shared = SharedSample::new(model(ModelKind::Piecewise));
    assert_eq!(shared.snapshot(), SampleState { cpu_usage: 0, power: 5_000_000 });
}

#[test]
fn initial_sample_is_zero_usage_with_estimate_at_zero() {
    let m = model(ModelKind::Regression);
    assert_eq!(initial_sample(&m), SampleState { cpu_usage: 0, power: 8_830_645 });
    let m = model(ModelKind::Piecewise);
    assert_eq!(initial_sample(&m), SampleState { cpu_usage: 0, power: 5_000_000 });
}

#[test]
fn tick_publishes_pair() {
    let shared = SharedSample::new(model(ModelKind::Piecewise));
    let mut s = Sampler::new(1_000, 200);
    let out = s.tick(&shared, 5_000, false);
    assert_eq!(out, TickOutcome::Published(SampleState { cpu_usage: 5_000, power: 60_000_000 }));
    assert_eq!(shared.snapshot(), SampleState { cpu_usage: 5_000, power: 60_000_000 });
    assert_eq!(s.phase, SamplerPhase::Sampling);
}

#[test]
fn cancelled_tick_writes_nothing_and_stops() {
    let shared = SharedSample::new(model(ModelKind::Piecewise));
    let mut s = Sampler::new(1_000, 200);
    s.tick(&shared, 1_000, false);
    assert_eq!(s.tick(&shared, 9_000, true), TickOutcome::Stopped);
    assert_eq!(s.phase, SamplerPhase::Stopped);
    assert_eq!(shared.snapshot(), SampleState { cpu_usage: 1_000, power: 20_000_000 });
    assert_eq!(s.tick(&shared, 9_000, false), TickOutcome::Stopped);
    assert_eq!(shared.snapshot().cpu_usage, 1_000);
}

#[test]
fn interval_respects_reader_minimum() {
    assert_eq!(Sampler::new(50, 200).interval_ms, 200);
    assert_eq!(Sampler::new(1_000, 200).interval_ms, 1_000);
}

#[test]
fn sample_pairs_reading_with_estimate() {
    let m = model(ModelKind::Regression);
    assert_eq!(sample(&m, 5_000), SampleState { cpu_usage: 5_000, power: 55_604_838 });
}

#[test]
fn concurrent_readers_see_consistent_pairs() {
    let shared = Arc::new(SharedSample::new(model(ModelKind::Regression)));
    let rt = tokio::runtime::Builder::new_multi_thread().worker_threads(4).build().unwrap();
    let writer = {
        let shared = shared.clone();
        rt.spawn_blocking(move || {
            let mut s = Sampler::new(0, 0);
            for u in 0..2_000i64 {
                s.tick(&shared, u * 5, false);
            }
        })
    };
    let readers: Vec<_> = (0..3)
        .map(|_| {
            let shared = shared.clone();
            rt.spawn_blocking(move || {
                for _ in 0..2_000 {
                    let p = shared.snapshot();
                    assert_eq!(p.power, shared.model().estimate(p.cpu_usage));
                }
            })
        })
        .collect();
    rt.block_on(async {
        writer.await.unwrap();
        for r in readers {
            r.await.unwrap();
        }
    });
    assert_eq!(shared.snapshot().cpu_usage, 1_999 * 5);
}

#[test]
fn config_defaults() {
    let c = Config::from_values(None, None);
    assert_eq!(c.listen_address, "0.0.0.0:9100");
    assert_eq!(c.instance_type, "a1.large");
    let c = Config::from_values(Some("127.0.0.1:1".to_string()), Some("m5".to_string()));
    assert_eq!(c.listen_address, "127.0.0.1:1");
    assert_eq!(c.instance_type, "m5");
}

#[test]
fn scrape_reply_maps_failure() {
    assert_eq!(scrape_reply(Some("cpu_usage 0\n".to_string())), (STATUS_OK, "cpu_usage 0\n".to_string()));
    let (status, body) = scrape_reply(None);
    assert_eq!(status, STATUS_INTERNAL_ERROR);
    assert_eq!(body, "failed to encode metrics");
}
