//! Process configuration and the outcome of a scrape of the metrics
//! endpoint.
use vstd::prelude::*;

verus! {

/// Where the endpoint listens and which instance type's calibration to use.
#[derive(Debug)]
pub struct Config {
    pub listen_address: String,
    pub instance_type: String,
}

impl Config {
    /// The configuration from the values given for the listen address and
    /// the instance type, each replaced by its default when absent:
    /// `0.0.0.0:9100` and `a1.large`.
    pub fn from_values(listen_address: Option<String>, instance_type: Option<String>) -> (c: Config)
        ensures
            c.listen_address@ == match listen_address {
                Some(a) => a@,
                None => "0.0.0.0:9100"@,
            },
            c.instance_type@ == match instance_type {
                Some(t) => t@,
                None => "a1.large"@,
            },
    {
        let listen_address = match listen_address {
            Some(a) => a,
            None => "0.0.0.0:9100".to_owned(),
        };
        let instance_type = match instance_type {
            Some(t) => t,
            None => "a1.large".to_owned(),
        };
        Config { listen_address, instance_type }
    }
}

/// HTTP status of a successful scrape.
pub const STATUS_OK: u16 = 200;

/// HTTP status of a scrape whose rendering failed.
pub const STATUS_INTERNAL_ERROR: u16 = 500;

/// The reply to a scrape, given the rendered metrics or `None` when
/// rendering failed: the text with a success status, or an internal error
/// with a short explanation.
pub fn scrape_reply(rendered: Option<String>) -> (r: (u16, String))
    ensures
        match rendered {
            Some(text) => r.0 == STATUS_OK && r.1@ == text@,
            None => r.0 == STATUS_INTERNAL_ERROR && r.1@ == "failed to encode metrics"@,
        },
{
    match rendered {
        Some(text) => (STATUS_OK, text),
        None => (STATUS_INTERNAL_ERROR, "failed to encode metrics".to_owned()),
    }
}

} // verus!
