//! What the coach shows: footage aligned with the reconstruction, tracked paths,
//! and the state of a session.

pub mod browser;
pub mod frame;
pub mod paths;
pub mod session;
