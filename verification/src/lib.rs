//! Art-Net to frame-sink gateway core: DMX addressing, channel allocation
//! across universes, and the frame state that coalesces incoming updates.

pub mod adapter;
pub mod address;
pub mod allocation;
pub mod command;
pub mod constants;
pub mod utils;
