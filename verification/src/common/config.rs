//! Node configuration, as read from a YAML file.

use vstd::prelude::*;

verus! {

/// The whole configuration file.
pub struct Config {
    pub node: NodeConfig,
    pub log: LogConfig,
    pub rpc: RpcConfig,
}

pub struct NodeConfig {
    pub node_id: u64,
    pub data_dir: String,
}

pub struct LogConfig {
    pub level: String,
    /// Defaults to [`default_log_format`] when the file leaves it out.
    pub format: String,
}

pub struct RpcConfig {
    pub listen_addr: String,
}

/// The log format used when the configuration names none: `json`.
pub fn default_log_format() -> (s: String)
    ensures
        s@ == "json"@,
{
    "json".to_owned()
}

} // verus!
