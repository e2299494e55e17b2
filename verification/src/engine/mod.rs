//! The event-driven shot engine: which phase a ball is in, which contact comes
//! next, and what a shot leaves on record.

pub mod alone;
pub mod contact;
pub mod cushion;
pub mod impact;
pub mod motion;
pub mod world;

pub use cushion::Rail;
pub use motion::{Motion, Solo};
pub use world::{Event, World};
