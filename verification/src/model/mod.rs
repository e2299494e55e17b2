//! The vocabulary of the domain: balls, scenes, trajectories, contact logs and
//! the scoring rule.

pub mod ball;
pub mod math;
pub mod scene;
pub mod scoring;
pub mod simulation;
pub mod table;
pub mod trajectory;

pub use ball::{BallColor, BallId, BallState};
pub use math::DVec3;
pub use scene::{CueAction, Scene};
pub use scoring::{three_cushion_score, three_cushion_scored};
pub use simulation::{ContactEvent, ContactKind, Simulation};
pub use table::{BallSpec, PhysicsParams, TableSpec};
pub use trajectory::{Lookup, MotionPhase, MotionSegment, Trajectory};
