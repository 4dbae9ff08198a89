//! Power-consumption estimation for a host: a calibration table of power
//! draw at fixed CPU-utilisation levels, a usage-to-power model built from
//! one row of it, and a sampler that publishes consistent (usage, power)
//! pairs for a metrics endpoint.
//!
//! All quantities are fixed-point integers: CPU utilisation is measured in
//! basis points (hundredths of a percent), calibration power figures in
//! milliwatts, and estimated power in microwatts.
pub mod calibration;
pub mod decimal;
pub mod exposition;
pub mod model;
pub mod sampler;
pub mod stats;

pub use calibration::{find_row, load_calibration, CalibrationRow, LoadError};
pub use decimal::parse_milli;
pub use exposition::{scrape_reply, Config, STATUS_INTERNAL_ERROR, STATUS_OK};
pub use model::{ModelBuildError, ModelKind, PowerModel, RefPoint};
pub use sampler::{initial_sample, sample, SampleState, Sampler, SamplerPhase, SharedSample, TickOutcome};
