//! Verified core of a real-time media relay: STUN, RTCP, and the receive and
//! relay logic of a channel.
pub mod crypto;
pub mod dtls_session;
pub mod dtls_laws;
pub mod endpoint;
pub mod recv_loop;
pub mod relay;
pub mod rtcp;
pub mod rtcp_laws;
pub mod rtcp_loop;
pub mod rtcp_stats;
pub mod rtcp_stats_laws;
pub mod rtcp_tx;
pub mod rtp;
pub mod srtp;
pub mod srtp_laws;
pub mod state;
pub mod stun;
pub mod stun_laws;
pub mod text;
pub mod wire;
