//! Community relay directory: node records, probe bookkeeping and the
//! small wire formats the directory speaks.

pub mod text;
pub mod stun;
pub mod state;
pub mod api;
pub mod prober;
pub mod config;
