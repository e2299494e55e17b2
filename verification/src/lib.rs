//! The decision core of a three-cushion billiards coach.

pub mod coach;
pub mod engine;
pub mod files;
pub mod model;
pub mod order;
pub mod scalar;
pub mod solver;
pub mod text;
pub mod tracker;
