//! Per-application volume control for Stream Deck devices: the rules that turn
//! what the audio server, the window system and the media players report into
//! mixer channels, labels and images.

pub mod audio;
pub mod codec;
pub mod gfx;
pub mod kick;
pub mod mixer;
pub mod mpris;
pub mod scroll;
pub mod text;
pub mod webp;
pub mod window_icons;
