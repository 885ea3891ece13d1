use vstd::prelude::*;

verus! {

/// Connection settings for the backing store.
pub struct DBConfig {
    pub url: String,
    pub user: Option<String>,
    pub password: Option<String>,
    pub headers: Option<std::collections::HashMap<String, String>>,
}

/// Process configuration, loaded once at startup by the embedding program.
pub struct Config {
    /// Bind address and port for the device listener.
    pub listen: String,
    /// Default sensor measurement interval handed to a device on startup,
    /// in milliseconds.
    pub default_measure_interval_ms: u64,
    pub db: DBConfig,
}

} // verus!
