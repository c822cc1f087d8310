//! The images that the device shows: what is drawn where, and how an image is
//! written down.
//!
//! A shape covers some pixels whole; at its rounded edges it covers them in part,
//! and those are left for a caller that blends colours.

pub mod image_uri;
pub mod layout;
pub mod pixmap;
pub mod shape;
