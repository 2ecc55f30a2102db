//! Broker configuration. Only the listen address exists so far; it is fixed
//! until configuration is read from the environment or a file.

use vstd::prelude::*;

verus! {

/// Settings the broker node starts with.
pub struct Config {
    /// Address the network layer binds, as `host:port`.
    pub listen_addr: String,
}

/// Produce the default configuration.
pub fn load_config() -> (c: Config)
    ensures
        c.listen_addr@ == "127.0.0.1:9092"@,
{
    Config { listen_addr: "127.0.0.1:9092".to_owned() }
}

} // verus!
