//! Verified core of a multi-target ping tool: target list parsing, CIDR
//! expansion, per-target ping statistics, result table sorting and the
//! decisions behind the settings and warning dialogs.

pub mod config;
pub mod ping;
pub mod text;
pub mod net;
pub mod utils;
pub mod gui;
