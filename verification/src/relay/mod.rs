//! Relay mode: a tick-free forwarding path for opaque media.
//!
//! A relay leg decrypts each inbound RTP packet and hands a copy to every other
//! leg of its group. Each receiving leg keeps state per source: for every
//! stream of a source an outbound SSRC of its own and a sequence mapping that
//! keeps the stream's gaps and order. Keyframe requests and NACKs of a receiver
//! are mapped back to the source that they are about.
pub mod pt_map;
pub mod nack;
pub mod seq_map;
pub mod feedback;
pub mod feedback_laws;
pub mod outbound;
pub mod leg;
pub mod hub;
pub mod hub_laws;
pub mod routing;
pub mod stamp;
pub mod outbound_laws;
pub mod series_laws;
pub mod return_laws;
pub mod member_laws;
pub mod nack_laws;
pub mod pli;
pub mod send;
pub mod send_laws;
pub mod access;
pub mod step;
