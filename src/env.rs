//! Server settings, with their defaults.

use vstd::prelude::*;

verus! {

/// Addresses the server binds to and accepts requests from.
#[derive(Debug, Clone)]
pub struct AppEnvVars {
    pub host_address: String,
    pub host_origin: String,
    pub fe_dev_origin: String,
}

/// The setting given, or the default where none is.
pub open spec fn setting_or(given: Option<String>, default: Seq<char>) -> Seq<char> {
    match given {
        Some(s) => s@,
        None => default,
    }
}

fn or_default(given: Option<String>, default: &str) -> (r: String)
    ensures
        r@ == setting_or(given, default@),
{
    match given {
        Some(s) => s,
        None => default.to_owned(),
    }
}

impl AppEnvVars {
    /// The settings read from the environment, each missing one replaced
    /// by its default.
    pub fn from_values(
        host_address: Option<String>,
        host_origin: Option<String>,
        fe_dev_origin: Option<String>,
    ) -> (r: AppEnvVars)
        ensures
            r.host_address@ == setting_or(host_address, "127.0.0.1:3000"@),
            r.host_origin@ == setting_or(host_origin, "http://127.0.0.1:3000"@),
            r.fe_dev_origin@ == setting_or(fe_dev_origin, "http://127.0.0.1:5173"@),
    {
        AppEnvVars {
            host_address: or_default(host_address, "127.0.0.1:3000"),
            host_origin: or_default(host_origin, "http://127.0.0.1:3000"),
            fe_dev_origin: or_default(fe_dev_origin, "http://127.0.0.1:5173"),
        }
    }
}

} // verus!
