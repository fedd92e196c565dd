//! The control plane: what its requests ask for and how they are answered.

pub mod ack_key;
pub mod control_plane;
