//! Core logic of a Wayland protocol proxy: damage tracking over shared buffers, message
//! framing and rewriting, the state kept about protocol objects and buffer formats, and
//! the decisions around connections (command lines, device choice, clock offsets).

pub mod bytes;
pub mod clock;
pub mod copy;
pub mod damage;
pub mod devices;
pub mod dispatch;
pub mod mirror;
pub mod options;
pub mod placement;
pub mod read;
pub mod supervise;
pub mod surface;
pub mod tracking;
pub mod wire;
