//! Everything that reads SSH configuration.

pub mod host_config;
pub mod host_finder;
pub mod probe;
pub mod shell_cfg;
pub mod var_map;
