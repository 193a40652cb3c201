//! K-means colour quantisation of RGBA images.
//!
//! The clustering engine works in fixed-point arithmetic on the 8-bit channel
//! scale, so that every step has an exact mathematical statement.

pub mod assign;
pub mod color;
pub mod composite;
pub mod controller;
pub mod engine;
pub mod error;
pub mod image;
pub mod init;
pub mod laws;
pub mod layout;
pub mod reduce;
pub mod rng;
pub mod update;
