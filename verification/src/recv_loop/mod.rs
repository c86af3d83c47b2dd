//! What arrives on a channel's media port.
pub mod fresh;
pub mod gate;
pub mod packet;
pub mod path_laws;
pub mod laws;
