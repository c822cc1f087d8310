//! What the audio server reports, and what is made of it.

pub mod audio_system;
pub mod collapse;
pub mod pulse;
pub mod pulse_monitor;

pub use audio_system::AppInfo;
