//! Interpreting the directory's settings. Reading them from the
//! environment happens in the server; the values are read here.

use vstd::prelude::*;
use crate::text::{parse_u64, parse_u64_str};

verus! {

broadcast use vstd::string::group_string_axioms;

/// Address the server listens on when none is configured.
pub const DEFAULT_BIND: &'static str = "0.0.0.0:8080";

/// Probe period used when none is configured, in seconds.
pub const DEFAULT_PROBE_INTERVAL_SECS: u64 = 60;

/// Shortest probe period accepted, in seconds.
pub const MIN_PROBE_INTERVAL_SECS: u64 = 10;

/// The lowercase mapping of `str::to_lowercase` (Unicode, independent of
/// locale).
pub uninterp spec fn lowercase(s: Seq<char>) -> Seq<char>;

/// `str::to_lowercase`: the contract claims that the result is
/// [`lowercase`] of the argument's characters, a function of them alone.
#[verifier::external_body]
fn to_lowercase(s: &str) -> (r: String)
    ensures
        r@ == lowercase(s@),
{
    s.to_lowercase()
}

/// Probing is on unless the setting is `0` or, in any case, `false`.
pub open spec fn probe_enabled_spec(setting: Option<Seq<char>>) -> bool {
    match setting {
        Some(v) => v != "0"@ && lowercase(v) != "false"@,
        None => true,
    }
}

/// Whether the prober runs, from the `HC_DIRECTORY_PROBE_ENABLED` setting.
pub fn probe_enabled(setting: Option<&str>) -> (on: bool)
    ensures
        on == probe_enabled_spec(match setting {
            Some(v) => Some(v@),
            None => None,
        }),
{
    match setting {
        None => true,
        Some(v) => {
            let zero = "0".to_owned();
            let own = v.to_owned();
            if own == zero {
                return false;
            }
            let lower = to_lowercase(v);
            let no = "false".to_owned();
            lower != no
        },
    }
}

/// The probe period: the configured number of seconds (60 when absent or
/// not a number), never below 10.
pub open spec fn probe_interval_spec(setting: Option<Seq<char>>) -> u64 {
    let configured = match setting {
        Some(v) => match parse_u64(v) {
            Some(n) => n,
            None => DEFAULT_PROBE_INTERVAL_SECS,
        },
        None => DEFAULT_PROBE_INTERVAL_SECS,
    };
    if configured < MIN_PROBE_INTERVAL_SECS {
        MIN_PROBE_INTERVAL_SECS
    } else {
        configured
    }
}

/// The probe period in seconds, from the
/// `HC_DIRECTORY_PROBE_INTERVAL_SECS` setting.
pub fn probe_interval_secs(setting: Option<&str>) -> (secs: u64)
    ensures
        secs == probe_interval_spec(match setting {
            Some(v) => Some(v@),
            None => None,
        }),
        secs >= MIN_PROBE_INTERVAL_SECS,
{
    let configured = match setting {
        Some(v) => match parse_u64_str(v) {
            Some(n) => n,
            None => DEFAULT_PROBE_INTERVAL_SECS,
        },
        None => DEFAULT_PROBE_INTERVAL_SECS,
    };
    if configured < MIN_PROBE_INTERVAL_SECS {
        MIN_PROBE_INTERVAL_SECS
    } else {
        configured
    }
}

} // verus!
