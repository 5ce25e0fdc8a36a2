//! Error codes, errors and configuration shared by every component.

pub mod config;
pub mod error;

pub use config::{Config, LogConfig, NodeConfig, RpcConfig};
pub use error::{Error, ErrorCode, Result};
