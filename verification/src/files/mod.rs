//! The text files of a tracked match: manifest, calibration, shots and scenes.

pub mod footage;
pub mod imported;
pub mod loaded;
pub mod manifest;
pub mod scene;
pub mod shot;
