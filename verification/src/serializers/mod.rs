//! Scene serialization formats.

pub mod text;
pub mod nimbus;
pub mod scene;
pub mod round_trip;
