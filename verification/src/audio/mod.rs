//! The layer over the miniaudio library: sample formats, device configuration,
//! device lists and error codes, on plain values.

pub mod context;
pub mod device;
pub mod device_config;
pub mod error;
pub mod filter;
pub mod player;
mod private;
pub mod sample_format;
pub mod text;
