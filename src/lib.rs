//! Room membership and broadcast hub for a small fan-out relay, with the
//! decisions its endpoints make and the helpers its clients use.

pub mod endpoint;
pub mod label;
pub mod message;
pub mod laws;
pub mod registry;
pub mod room_url;
