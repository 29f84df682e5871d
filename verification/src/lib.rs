//! Decision core of a bridge between a NUT server and the Linux power supply class.

pub mod bridge;
pub mod bridge_laws;
pub mod charge_state;
pub mod charge_state_laws;
pub mod charging;
pub mod charging_laws;
pub mod config;
pub mod config_laws;
pub mod estimate_laws;
pub mod failure;
pub mod fetch_laws;
pub mod magnitude;
pub mod number;
pub mod observation_laws;
pub mod path_laws;
pub mod paths;
pub mod protocol;
pub mod protocol_laws;
pub mod rounding;
pub mod snapshot;
pub mod text;
pub mod text_laws;
