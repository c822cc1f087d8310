//! The mixer: one channel for each entry of the audio server's list.

pub mod art;
pub mod channel;
pub mod create;
pub mod laws;
pub mod memory;
pub mod refresh_laws;
pub mod update;

pub use channel::{Icon, IconQuery, MixerChannel, PlannedChannel};
pub use create::create_mixer_channels;
pub use memory::ArtMemory;
pub use update::update_mixer_channels;
