//! Audio capture, metering and streaming logic for wireless microphone systems.

pub mod capture;
pub mod device;
pub mod hub;
pub mod meter;
pub mod monitor;
pub mod pcm;
pub mod recorder;
pub mod ring;
pub mod sck;
pub mod text;
pub mod types;

pub use hub::MicHub;
pub use types::MicEvent;
