//! Finding the shots of a whole game in its video: the shot clock resets once per
//! shot, and the motion on the table bounds each shot from rest to rest.

pub mod clip;
pub mod span;
