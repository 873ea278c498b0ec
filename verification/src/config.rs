use vstd::prelude::*;

verus! {

/// Process configuration: whether the checker and the completion engine
/// are enabled, and where the checker's server listens.
pub struct RootConfig {
    pub lt_enabled: bool,
    pub lt_api_hostname: String,
    pub lt_api_port: String,
    pub completion_enabled: bool,
}

impl Default for RootConfig {
    /// Both features on, against a checker served on the local host.
    fn default() -> (r: Self)
        ensures
            r.lt_enabled,
            r.completion_enabled,
            r.lt_api_hostname@ == "http://127.0.0.1"@,
            r.lt_api_port@ == "8081"@,
    {
        RootConfig {
            lt_enabled: true,
            lt_api_hostname: String::from_str("http://127.0.0.1"),
            lt_api_port: String::from_str("8081"),
            completion_enabled: true,
        }
    }
}

} // verus!
