//! The codec between canonical values and the engine's bytes, driven by a
//! type tree.

pub mod decode;
pub mod encode;
pub mod frame;
pub mod laws;
pub mod model;
