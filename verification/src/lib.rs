//! Correlates listening sockets with firewall and Docker signals.
pub mod text;
pub mod strset;
pub mod model;
pub mod ss;
pub mod firewall;
pub mod docker;
pub mod analyzer;
pub mod order;
pub mod display;
pub mod laws;
