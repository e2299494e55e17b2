//! Reading a shot back from its tracks, and searching for a better one.

pub mod aim;
pub mod align;
pub mod bounces;
pub mod calibration;
pub mod choice;
pub mod config;
pub mod descent;
pub mod grid;
pub mod launch;
pub mod measure;
pub mod penalty;
pub mod rests;
pub mod search;
pub mod testimony;
