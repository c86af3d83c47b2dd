//! What one datagram on a channel's media port does.
//!
//! Packets are told apart by their first bytes: STUN is answered at once, DTLS
//! goes to the handshake, RTCP that shares the port to the accounting, and RTP
//! to the jitter buffer. On a relay leg RTP is decrypted and handed to the
//! other legs of the group instead.
use vstd::prelude::*;
use vstd::slice::{slice_subrange, slice_to_vec};
use webrtc_srtp::context::Context;

use crate::dtls_session::SrtpKeyingMaterial;
use crate::endpoint::Endpoint;
use crate::recv_loop::fresh::{srtcp_index, Freshness};
use crate::recv_loop::fresh::{index_of, Fresh};
use crate::recv_loop::gate::{gate_for, gate_view, Gate};
use crate::recv_loop::gate::{maybe_build_gate, Protected, RelayGates};
use crate::relay::feedback::feedback_of;
use crate::relay::feedback::{parse_feedback, Feedback};
use crate::relay::hub::Hub;
use crate::relay::hub::RelayHub;
use crate::relay::leg::RelayCounters;
use crate::rtcp_loop::{compound_accounted, inbound_log};
use crate::rtcp_loop::{handle_rtcp_plain, maybe_build_decrypt};
use crate::rtcp_stats::Rx;
use crate::rtcp_stats::{RemoteReport, RxStats};
use crate::rtp::{clipped, payload_type_of, sequence_of, ssrc_of, timestamp_of};
use crate::rtp::{sequence_number, ssrc, timestamp, RtpPacket};
use crate::rtp::{RTP_FIXED_HEADER_LEN, RTP_MAX_LENGTH};
use crate::srtp::{bytes_of, context_log, log_after_rtcp, opened_rtcp, slot_log};
use crate::srtp::{decrypt_rtcp_checked, srtcp_min_len, ProtectionProfile};
use crate::srtp::spec_srtcp_min_len;
use crate::stun;
use crate::wire::be32;
use crate::wire::read_u32;

verus! {

/// Relay mode of a channel: inbound RTP goes to the other legs of its group.
pub struct RelayRecv {
    /// The id of the channel's leg.
    pub own: u64,
    /// What has authenticated, for the latching of a secure leg.
    pub fresh: Freshness,
}

impl RelayRecv {
    /// Relay mode as a leg; nothing has been seen.
    pub fn new(own: u64) -> (r: Self)
        ensures
            r.own == own,
            r.fresh@ == Fresh::empty(),
    {
        RelayRecv { own, fresh: Freshness::default() }
    }
}

/// What receiving on a channel reads and changes.
pub struct RecvLoopConfig {
    /// Where the far end is.
    pub remote_addr: Option<Endpoint>,
    /// RTP datagrams that arrived. It wraps.
    pub in_count: u64,
    /// Receiver accounting.
    pub rx_stats: RxStats,
    /// The peer's view of the stream that we send.
    pub remote_report: RemoteReport,
    /// Our SSRC.
    pub local_ssrc: u32,
    /// Our ICE password, empty for none.
    pub local_icepwd: Vec<u8>,
    /// Keying material, once the handshake is complete.
    pub keys: Option<SrtpKeyingMaterial>,
    /// Relay mode, on a relay channel.
    pub relay: Option<RelayRecv>,
}

/// The inbound contexts of a channel. A secure relay leg has both; another
/// secure channel decrypts RTP when it leaves the jitter buffer.
pub struct Inbound {
    /// For SRTCP.
    pub srtcp: Option<Context>,
    /// For SRTP, on a relay leg.
    pub srtp: Option<Context>,
    /// The gates in front of them, on a relay leg.
    pub gates: RelayGates,
}

impl Default for Inbound {
    /// No contexts yet.
    fn default() -> (r: Self)
        ensures
            r.srtcp is None,
            r.srtp is None,
            r.gates.rtp is None,
            r.gates.rtcp is None,
    {
        Inbound { srtcp: None, srtp: None, gates: RelayGates::default() }
    }
}

/// What is left to do after a datagram.
pub struct Outcome {
    /// To send back to where the datagram came from.
    pub reply: Option<Vec<u8>>,
    /// For the DTLS handshake.
    pub dtls: Option<Vec<u8>>,
    /// A packet was accounted: the deviation of its transit time is for the
    /// jitter estimate.
    pub accounted: bool,
    /// For the jitter buffer.
    pub jitter: Option<RtpPacket>,
}

/// Relay mode of a channel.
pub struct Relayed {
    pub own: u64,
    pub fresh: Fresh,
}

/// The state of a `RecvLoopConfig`.
pub struct Cfg {
    pub remote: Option<Endpoint>,
    pub in_count: u64,
    pub rx: Rx,
    pub report: RemoteReport,
    pub local_ssrc: u32,
    pub icepwd: Seq<u8>,
    pub keys: Option<SrtpKeyingMaterial>,
    pub relay: Option<Relayed>,
}

impl View for RecvLoopConfig {
    type V = Cfg;

    open spec fn view(&self) -> Cfg {
        Cfg {
            remote: self.remote_addr,
            in_count: self.in_count,
            rx: self.rx_stats@,
            report: self.remote_report,
            local_ssrc: self.local_ssrc,
            icepwd: self.local_icepwd@,
            keys: self.keys,
            relay: match self.relay {
                Some(r) => Some(Relayed { own: r.own, fresh: r.fresh@ }),
                None => None,
            },
        }
    }
}

/// What an `Outcome` asks for.
pub struct Todo {
    pub reply: Option<Seq<u8>>,
    pub dtls: Option<Seq<u8>>,
    pub accounted: bool,
    pub jitter: Option<Seq<u8>>,
}

impl View for Outcome {
    type V = Todo;

    open spec fn view(&self) -> Todo {
        Todo {
            reply: bytes_of(self.reply),
            dtls: bytes_of(self.dtls),
            accounted: self.accounted,
            jitter: match self.jitter {
                Some(p) => Some(p@),
                None => None,
            },
        }
    }
}

impl Todo {
    /// Nothing is left to do.
    pub open spec fn nothing() -> Todo {
        Todo { reply: None, dtls: None, accounted: false, jitter: None }
    }
}

/// All that receiving on a channel reads and changes.
pub struct Recv {
    pub cfg: Cfg,
    pub hub: Hub,
    /// The log of the SRTCP context, where there is one.
    pub rtcp_log: Option<Seq<(u8, Seq<u8>)>>,
    /// The log of the SRTP context, where there is one.
    pub rtp_log: Option<Seq<(u8, Seq<u8>)>>,
    pub rtp_gate: Option<Gate>,
    pub rtcp_gate: Option<Gate>,
}

/// The state that these values are in.
pub open spec fn state(cfg: RecvLoopConfig, hub: RelayHub, inbound: Inbound) -> Recv {
    Recv {
        cfg: cfg@,
        hub: hub@,
        rtcp_log: slot_log(inbound.srtcp),
        rtp_log: slot_log(inbound.srtp),
        rtp_gate: gate_view(inbound.gates.rtp),
        rtcp_gate: gate_view(inbound.gates.rtcp),
    }
}

/// RTCP that shares the port with RTP (RFC 5761 section 4): the first byte is
/// in the version range, the second an RTCP packet type from SR to APP.
pub open spec fn spec_is_muxed_rtcp(pkt: Seq<u8>) -> bool {
    pkt.len() >= 2 && 128 <= pkt[0] <= 191 && 200 <= pkt[1] <= 204
}

/// RTCP feedback that shares the port with RTP: RTPFB or PSFB.
pub open spec fn spec_is_muxed_rtcp_fb(pkt: Seq<u8>) -> bool {
    pkt.len() >= 2 && 128 <= pkt[0] <= 191 && 205 <= pkt[1] <= 206
}

/// Is this datagram on the shared port RTCP rather than RTP? The packet types
/// from SR to APP are payload types that RTP never assigns, and SRTP and SRTCP
/// leave them in the clear.
pub fn is_muxed_rtcp(pkt: &[u8]) -> (r: bool)
    ensures
        r == spec_is_muxed_rtcp(pkt@),
{
    pkt.len() >= 2 && 128 <= pkt[0] && pkt[0] <= 191 && 200 <= pkt[1] && pkt[1] <= 204
}

/// `is_muxed_rtcp` for the feedback types, which only relay legs look for.
pub fn is_muxed_rtcp_fb(pkt: &[u8]) -> (r: bool)
    ensures
        r == spec_is_muxed_rtcp_fb(pkt@),
{
    pkt.len() >= 2 && 128 <= pkt[0] && pkt[0] <= 191 && 205 <= pkt[1] && pkt[1] <= 206
}

impl Cfg {
    /// The far end is at `peer`.
    pub open spec fn latched(self, peer: Endpoint) -> Cfg {
        Cfg { remote: Some(peer), ..self }
    }

    /// The freshness of relay mode is this.
    pub open spec fn with_fresh(self, fresh: Fresh) -> Cfg {
        Cfg {
            relay: match self.relay {
                Some(r) => Some(Relayed { fresh, ..r }),
                None => None,
            },
            ..self
        }
    }

    /// An authenticated SRTCP datagram is newer than any from its sender.
    pub open spec fn rtcp_is_fresh(self, pkt: Seq<u8>) -> bool {
        match (self.relay, profile_of(self.keys)) {
            (Some(r), Some(p)) => match index_of(pkt, p) {
                Some(index) => r.fresh.rtcp_fresh(be32(pkt, 4), index),
                None => false,
            },
            _ => false,
        }
    }

    /// An authenticated SRTCP datagram is recorded.
    pub open spec fn rtcp_noted(self, pkt: Seq<u8>) -> Cfg {
        match (self.relay, profile_of(self.keys)) {
            (Some(r), Some(p)) => match index_of(pkt, p) {
                Some(index) => self.with_fresh(r.fresh.with_rtcp(be32(pkt, 4), index)),
                None => self,
            },
            _ => self,
        }
    }

    /// An authenticated SRTCP datagram from `peer` is recorded, and moves the
    /// remote where it is fresh.
    pub open spec fn rtcp_followed(self, pkt: Seq<u8>, peer: Endpoint) -> Cfg {
        if self.rtcp_is_fresh(pkt) {
            self.rtcp_noted(pkt).latched(peer)
        } else {
            self.rtcp_noted(pkt)
        }
    }

    /// An authenticated RTP packet from `peer` is recorded, and moves the
    /// remote where it is fresh.
    pub open spec fn rtp_followed(self, pkt: Seq<u8>, peer: Endpoint) -> Cfg {
        match self.relay {
            Some(r) => {
                let noted = self.with_fresh(r.fresh.with_rtp(ssrc_of(pkt), sequence_of(pkt)));
                if r.fresh.rtp_fresh(ssrc_of(pkt), sequence_of(pkt)) {
                    noted.latched(peer)
                } else {
                    noted
                }
            },
            None => self,
        }
    }

    /// A signed request from `peer` that was answered moves the remote where
    /// there is none yet or it nominates its pair, and only the first time that
    /// its transaction ID is seen.
    pub open spec fn stun_followed(self, pkt: Seq<u8>, peer: Endpoint) -> Cfg {
        match self.relay {
            Some(r) => if self.remote is None || stun::is_nomination(pkt) {
                let noted = self.with_fresh(r.fresh.with_stun(stun::txid_of(pkt)));
                if r.fresh.stun_fresh(stun::txid_of(pkt)) {
                    noted.latched(peer)
                } else {
                    noted
                }
            } else {
                self
            },
            None => self,
        }
    }

    /// A packet that arrived at `now` is accounted.
    pub open spec fn accounted(self, plain: Seq<u8>, now: u64) -> Cfg {
        Cfg {
            rx: self.rx.heard(ssrc_of(plain), sequence_of(plain), timestamp_of(plain), now),
            ..self
        }
    }

    /// The reports in a compound are accounted.
    pub open spec fn reported(self, plain: Seq<u8>, now: u64, now_ntp_mid: u32) -> Cfg {
        let (rx, report) = compound_accounted(
            self.rx,
            self.report,
            plain,
            self.local_ssrc,
            now,
            now_ntp_mid,
        );
        Cfg { rx, report, ..self }
    }
}

/// What an SRTCP datagram holds, and what is then the log of the context and
/// the SSRC gate.
pub struct Opened {
    pub log: Seq<(u8, Seq<u8>)>,
    pub gate: Option<Gate>,
    pub plain: Option<Seq<u8>>,
}

/// The profile of keys.
pub open spec fn profile_of(keys: Option<SrtpKeyingMaterial>) -> Option<ProtectionProfile> {
    match keys {
        Some(k) => Some(k.profile),
        None => None,
    }
}

/// What an SRTCP datagram holds for a context with this log: on a relay leg it
/// goes through its SSRC gate.
pub open spec fn srtcp_opened(
    relay: bool,
    keys: Option<SrtpKeyingMaterial>,
    gate: Option<Gate>,
    log: Seq<(u8, Seq<u8>)>,
    pkt: Seq<u8>,
) -> Opened {
    let profile = profile_of(keys);
    let kind = Protected::Rtcp(profile);
    if !relay {
        Opened {
            log: log_after_rtcp(log, pkt, profile),
            gate,
            plain: opened_rtcp(log, pkt, profile),
        }
    } else if profile is Some && pkt.len() >= spec_srtcp_min_len(profile->0) {
        let g = gate_for(gate, keys)->0;
        let ssrc = be32(pkt, 4);
        Opened {
            log: g.log_after(log, ssrc, pkt, kind),
            gate: Some(g.after(log, ssrc, pkt, kind)),
            plain: g.opened(log, ssrc, pkt, kind),
        }
    } else {
        Opened { log, gate, plain: None }
    }
}

impl Recv {
    /// The channel is a relay leg.
    pub open spec fn is_relay(self) -> bool {
        self.cfg.relay is Some
    }

    /// The id of the relay leg.
    pub open spec fn own(self) -> u64 {
        self.cfg.relay->0.own
    }

    /// The relay leg negotiated DTLS-SRTP: only what authenticates may move the
    /// remote.
    pub open spec fn guarded(self) -> bool {
        self.is_relay() && self.hub.legs[self.own()].secure
    }

    /// A datagram arrived from `peer`: unless the leg is guarded, that is where
    /// the far end is.
    pub open spec fn arrived(self, peer: Endpoint) -> Recv {
        if self.guarded() {
            self
        } else {
            Recv { cfg: self.cfg.latched(peer), ..self }
        }
    }

    /// A STUN message is answered.
    pub open spec fn answers(self, pkt: Seq<u8>) -> bool {
        self.cfg.icepwd.len() > 0 && stun::is_answerable(pkt, self.cfg.icepwd, self.guarded())
    }

    /// After a STUN message.
    pub open spec fn after_stun(self, pkt: Seq<u8>, peer: Endpoint) -> (Recv, Todo) {
        if self.answers(pkt) {
            (
                if self.guarded() {
                    Recv { cfg: self.cfg.stun_followed(pkt, peer), ..self }
                } else {
                    self
                },
                Todo {
                    reply: Some(
                        stun::binding_response(peer, stun::txid_of(pkt), self.cfg.icepwd),
                    ),
                    ..Todo::nothing()
                },
            )
        } else {
            (self, Todo::nothing())
        }
    }

    /// After a DTLS record.
    pub open spec fn after_dtls(self, pkt: Seq<u8>, peer: Endpoint) -> (Recv, Todo) {
        (
            if self.guarded() && self.cfg.keys is None {
                Recv { cfg: self.cfg.latched(peer), ..self }
            } else {
                self
            },
            Todo { dtls: Some(pkt), ..Todo::nothing() },
        )
    }

    /// There is an SRTCP context once there are keys.
    pub open spec fn with_rtcp_context(self) -> Recv {
        Recv { rtcp_log: inbound_log(self.rtcp_log, self.cfg.keys), ..self }
    }

    /// A muxed RTCP datagram is opened: with a context by decrypting it, else it
    /// is taken as it is.
    pub open spec fn rtcp_opened(self, pkt: Seq<u8>) -> (Recv, Option<Seq<u8>>) {
        match self.rtcp_log {
            Some(log) => {
                let o = srtcp_opened(self.is_relay(), self.cfg.keys, self.rtcp_gate, log, pkt);
                (Recv { rtcp_log: Some(o.log), rtcp_gate: o.gate, ..self }, o.plain)
            },
            None => (self, Some(pkt)),
        }
    }

    /// A muxed RTCP datagram is counted, and followed where it authenticated.
    pub open spec fn rtcp_received(
        self,
        pkt: Seq<u8>,
        peer: Endpoint,
        keyed: bool,
        ok: bool,
    ) -> Recv {
        let guarded = self.guarded();
        let counted = if self.is_relay() {
            Recv { hub: self.hub.rtcp_counted(self.own(), keyed, ok), ..self }
        } else {
            self
        };
        if guarded && keyed && ok {
            Recv { cfg: counted.cfg.rtcp_followed(pkt, peer), ..counted }
        } else {
            counted
        }
    }

    /// The feedback in a compound is routed.
    pub open spec fn fed_back(self, plain: Seq<u8>, now: u64) -> Recv {
        Recv { hub: self.hub.fed_back(self.own(), feedback_of(plain), now), ..self }
    }

    /// After RTCP that shares the port.
    pub open spec fn after_rtcp(
        self,
        pkt: Seq<u8>,
        peer: Endpoint,
        now: u64,
        now_ntp_mid: u32,
    ) -> Recv {
        let ready = self.with_rtcp_context();
        let keyed = ready.rtcp_log is Some;
        let (opened, plain) = ready.rtcp_opened(pkt);
        let received = opened.rtcp_received(pkt, peer, keyed, plain is Some);
        match plain {
            Some(p) => {
                let cfg = received.cfg.reported(p, now, now_ntp_mid);
                let accounted = Recv { cfg, ..received };
                if self.is_relay() && (keyed || !self.guarded()) {
                    accounted.fed_back(p, now)
                } else {
                    accounted
                }
            },
            None => received,
        }
    }

    /// After feedback that shares the port, on a relay leg. Before there are
    /// keys, a secure leg does not look into it.
    pub open spec fn after_feedback(self, pkt: Seq<u8>, peer: Endpoint, now: u64) -> Recv {
        let ready = self.with_rtcp_context();
        let keyed = ready.rtcp_log is Some;
        let (opened, plain) = ready.rtcp_opened(pkt);
        let received = opened.rtcp_received(pkt, peer, keyed, plain is Some);
        match plain {
            Some(p) => if keyed || !self.guarded() {
                received.fed_back(p, now)
            } else {
                received
            },
            None => received,
        }
    }

    /// What an RTP datagram on a relay leg holds, and the state then. A secure
    /// leg takes only what decrypts, and nothing before there are keys.
    pub open spec fn rtp_opened(self, pkt: Seq<u8>) -> (Recv, Option<Seq<u8>>) {
        let own = self.own();
        let c = self.hub.legs[own].counters;
        if self.guarded() {
            let log = inbound_log(self.rtp_log, self.cfg.keys);
            let gate = gate_for(self.rtp_gate, self.cfg.keys);
            match (log, gate) {
                (Some(l), Some(g)) => {
                    let ssrc = ssrc_of(pkt);
                    let plain = g.opened(l, ssrc, pkt, Protected::Rtp);
                    let next = Recv {
                        rtp_log: Some(g.log_after(l, ssrc, pkt, Protected::Rtp)),
                        rtp_gate: Some(g.after(l, ssrc, pkt, Protected::Rtp)),
                        ..self
                    };
                    match plain {
                        Some(p) => (next, Some(clipped(p))),
                        None => (
                            Recv {
                                hub: self.hub.with_counters(
                                    own,
                                    RelayCounters {
                                        decrypt_failed: c.decrypt_failed.wrapping_add(1),
                                        ..c
                                    },
                                ),
                                ..next
                            },
                            None,
                        ),
                    }
                },
                _ => (
                    Recv {
                        rtp_log: log,
                        rtp_gate: gate,
                        hub: self.hub.with_counters(
                            own,
                            RelayCounters { prekey_dropped: c.prekey_dropped.wrapping_add(1), ..c },
                        ),
                        ..self
                    },
                    None,
                ),
            }
        } else {
            (self, Some(clipped(pkt)))
        }
    }

    /// The leg negotiated the payload type of a packet.
    pub open spec fn declares(self, plain: Seq<u8>) -> bool {
        self.hub.legs[self.own()].pts.declares(payload_type_of(plain))
    }

    /// An RTP packet of a relay leg is accepted: it may move the remote, it is
    /// accounted where its payload type was negotiated, it counts, and the
    /// other legs of the group get it.
    pub open spec fn rtp_accepted(
        self,
        pkt: Seq<u8>,
        plain: Seq<u8>,
        peer: Endpoint,
        now: u64,
    ) -> Recv {
        let own = self.own();
        let c = self.hub.legs[own].counters;
        let cfg = if self.guarded() {
            self.cfg.rtp_followed(pkt, peer)
        } else {
            self.cfg
        };
        Recv {
            cfg: if self.declares(plain) {
                cfg.accounted(plain, now)
            } else {
                cfg
            },
            hub: self.hub.with_counters(
                own,
                RelayCounters { accepted: c.accepted.wrapping_add(1), ..c },
            ).fanned(own, plain),
            ..self
        }
    }

    /// After RTP.
    pub open spec fn after_rtp(self, pkt: Seq<u8>, peer: Endpoint, now: u64) -> (Recv, Todo) {
        let counted = Recv {
            cfg: Cfg { in_count: self.cfg.in_count.wrapping_add(1), ..self.cfg },
            ..self
        };
        if self.is_relay() {
            let own = self.own();
            let c = self.hub.legs[own].counters;
            let started = Recv {
                hub: self.hub.with_counters(
                    own,
                    RelayCounters { in_count: c.in_count.wrapping_add(1), ..c },
                ),
                ..counted
            };
            let (opened, plain) = started.rtp_opened(pkt);
            match plain {
                Some(p) => (
                    opened.rtp_accepted(pkt, p, peer, now),
                    Todo { accounted: self.declares(p), ..Todo::nothing() },
                ),
                None => (opened, Todo::nothing()),
            }
        } else {
            (
                Recv { cfg: counted.cfg.accounted(pkt, now), ..counted },
                Todo { accounted: true, jitter: Some(clipped(pkt)), ..Todo::nothing() },
            )
        }
    }

    /// After a datagram from `peer` at `now`.
    pub open spec fn received(
        self,
        pkt: Seq<u8>,
        peer: Endpoint,
        now: u64,
        now_ntp_mid: u32,
    ) -> (Recv, Todo) {
        let st = self.arrived(peer);
        if pkt.len() == 0 {
            (st, Todo::nothing())
        } else if stun::is_stun_message(pkt) {
            st.after_stun(pkt, peer)
        } else if 20 <= pkt[0] <= 63 {
            st.after_dtls(pkt, peer)
        } else if spec_is_muxed_rtcp(pkt) {
            (st.after_rtcp(pkt, peer, now, now_ntp_mid), Todo::nothing())
        } else if st.is_relay() && spec_is_muxed_rtcp_fb(pkt) {
            (st.after_feedback(pkt, peer, now), Todo::nothing())
        } else if pkt.len() >= RTP_FIXED_HEADER_LEN {
            st.after_rtp(pkt, peer, now)
        } else {
            (st, Todo::nothing())
        }
    }
}

/// The far end is at `peer`.
fn latch(cfg: &mut RecvLoopConfig, peer: Endpoint)
    ensures
        final(cfg)@ == old(cfg)@.latched(peer),
{
    cfg.remote_addr = Some(peer);
}

/// Nothing is left to do.
fn nothing_to_do() -> (r: Outcome)
    ensures
        r@ == Todo::nothing(),
        r.jitter is None,
{
    Outcome { reply: None, dtls: None, accounted: false, jitter: None }
}

/// Follows a signed request that was answered.
fn follow_stun(cfg: &mut RecvLoopConfig, pkt: &[u8], peer: Endpoint)
    requires
        stun::is_stun_message(pkt@),
    ensures
        final(cfg)@ == old(cfg)@.stun_followed(pkt@, peer),
{
    let first = cfg.remote_addr.is_none();
    let nominated = first || stun::nominates(pkt);
    if nominated {
        let fresh = match &mut cfg.relay {
            Some(r) => r.fresh.stun(stun::transaction_id(pkt)),
            None => false,
        };
        if fresh {
            latch(cfg, peer);
        }
    }
}

/// Answers a STUN message.
fn handle_stun(cfg: &mut RecvLoopConfig, guarded: bool, pkt: &[u8], peer: Endpoint) -> (r: Outcome)
    requires
        stun::is_stun_message(pkt@),
    ensures
        ({
            let answers = old(cfg)@.icepwd.len() > 0 && stun::is_answerable(
                pkt@,
                old(cfg)@.icepwd,
                guarded,
            );
            &&& final(cfg)@ == if answers && guarded {
                old(cfg)@.stun_followed(pkt@, peer)
            } else {
                old(cfg)@
            }
            &&& r@ == Todo {
                reply: if answers {
                    Some(stun::binding_response(peer, stun::txid_of(pkt@), old(cfg)@.icepwd))
                } else {
                    None
                },
                ..Todo::nothing()
            }
        }),
        r.jitter is None,
{
    broadcast use crate::wire::lemma_bytes32_len;

    if cfg.local_icepwd.is_empty() {
        return nothing_to_do();
    }
    let mut req: Vec<u8> = slice_to_vec(pkt);
    let mut resp: Vec<u8> = vec![0u8; RTP_MAX_LENGTH];
    let key: &[u8] = cfg.local_icepwd.as_slice();
    let n: usize = stun::handle_checked(
        req.as_mut_slice(),
        resp.as_mut_slice(),
        peer,
        key,
        key,
        guarded,
    );
    if n == 0 {
        return nothing_to_do();
    }
    let reply: Vec<u8> = slice_to_vec(slice_subrange(resp.as_slice(), 0, n));
    proof {
        let answer = stun::binding_response(peer, stun::txid_of(pkt@), cfg.local_icepwd@);
        assert(answer.len() == n);
        assert(reply@ =~= answer);
    }
    if guarded {
        follow_stun(cfg, pkt, peer);
    }
    Outcome { reply: Some(reply), dtls: None, accounted: false, jitter: None }
}

/// Is this authenticated SRTCP datagram newer than any seen from its sender?
/// It is recorded.
fn fresh_rtcp(cfg: &mut RecvLoopConfig, pkt: &[u8]) -> (r: bool)
    ensures
        r == old(cfg)@.rtcp_is_fresh(pkt@),
        final(cfg)@ == old(cfg)@.rtcp_noted(pkt@),
{
    let profile: ProtectionProfile = match &cfg.keys {
        Some(k) => k.profile,
        None => {
            return false;
        },
    };
    match &mut cfg.relay {
        Some(r) => match srtcp_index(pkt, profile) {
            Some(index) => r.fresh.rtcp(read_u32(pkt, 4), index),
            None => false,
        },
        None => false,
    }
}

/// Decrypts one inbound SRTCP datagram: on a relay leg through its gate.
fn decrypt_srtcp(
    cfg: &RecvLoopConfig,
    ctx: &mut Context,
    gates: &mut RelayGates,
    pkt: &[u8],
) -> (plain: Option<Vec<u8>>)
    ensures
        ({
            let o = srtcp_opened(
                cfg@.relay is Some,
                cfg@.keys,
                gate_view(old(gates).rtcp),
                context_log(*old(ctx)),
                pkt@,
            );
            &&& bytes_of(plain) == o.plain
            &&& context_log(*final(ctx)) == o.log
            &&& gate_view(final(gates).rtcp) == o.gate
        }),
        final(gates).rtp == old(gates).rtp,
{
    let profile: Option<ProtectionProfile> = match &cfg.keys {
        Some(k) => Some(k.profile),
        None => None,
    };
    if cfg.relay.is_none() {
        return decrypt_rtcp_checked(ctx, pkt, profile);
    }
    match profile {
        Some(p) => {
            if pkt.len() < srtcp_min_len(p) {
                return None;
            }
        },
        None => {
            return None;
        },
    }
    maybe_build_gate(&cfg.keys, &mut gates.rtcp);
    match &mut gates.rtcp {
        Some(gate) => gate.decrypt(ctx, read_u32(pkt, 4), pkt, Protected::Rtcp(profile)),
        None => None,
    }
}

/// Opens a muxed RTCP datagram: with a context by decrypting it, else it is
/// taken as it is.
fn open_rtcp(cfg: &RecvLoopConfig, hub: &RelayHub, pkt: &[u8], inbound: &mut Inbound) -> (plain:
    Option<Vec<u8>>)
    ensures
        (state(*cfg, *hub, *final(inbound)), bytes_of(plain)) == state(
            *cfg,
            *hub,
            *old(inbound),
        ).rtcp_opened(pkt@),
{
    match &mut inbound.srtcp {
        Some(ctx) => decrypt_srtcp(cfg, ctx, &mut inbound.gates, pkt),
        None => Some(slice_to_vec(pkt)),
    }
}

/// Counts a muxed RTCP datagram, and follows it where it authenticated.
fn receive_rtcp(
    cfg: &mut RecvLoopConfig,
    hub: &mut RelayHub,
    guarded: bool,
    pkt: &[u8],
    peer: Endpoint,
    keyed: bool,
    ok: bool,
)
    requires
        old(hub)@.inv(),
        old(cfg)@.relay matches Some(r) ==> old(hub)@.legs.contains_key(r.own),
    ensures
        final(hub)@ == match old(cfg)@.relay {
            Some(r) => old(hub)@.rtcp_counted(r.own, keyed, ok),
            None => old(hub)@,
        },
        final(hub)@.inv(),
        final(cfg)@ == if guarded && keyed && ok {
            old(cfg)@.rtcp_followed(pkt@, peer)
        } else {
            old(cfg)@
        },
{
    match &cfg.relay {
        Some(r) => hub.count_rtcp(r.own, keyed, ok),
        None => {},
    }
    if guarded && keyed && ok {
        if fresh_rtcp(cfg, pkt) {
            latch(cfg, peer);
        }
    }
}

/// Handles RTCP that shares the port with RTP.
fn handle_rtcp(
    cfg: &mut RecvLoopConfig,
    hub: &mut RelayHub,
    guarded: bool,
    pkt: &[u8],
    peer: Endpoint,
    inbound: &mut Inbound,
    now: u64,
    now_ntp_mid: u32,
)
    requires
        old(hub)@.inv(),
        old(cfg)@.relay matches Some(r) ==> old(hub)@.legs.contains_key(r.own),
        guarded == state(*old(cfg), *old(hub), *old(inbound)).guarded(),
    ensures
        state(*final(cfg), *final(hub), *final(inbound)) == state(
            *old(cfg),
            *old(hub),
            *old(inbound),
        ).after_rtcp(pkt@, peer, now, now_ntp_mid),
        final(hub)@.inv(),
        old(cfg)@.rx.inv() ==> final(cfg)@.rx.inv(),
{
    maybe_build_decrypt(&cfg.keys, &mut inbound.srtcp);
    let keyed = inbound.srtcp.is_some();
    let ghost ready = state(*cfg, *hub, *inbound);
    assert(ready == state(*old(cfg), *old(hub), *old(inbound)).with_rtcp_context());
    let plain = open_rtcp(cfg, hub, pkt, inbound);
    let ghost opened = state(*cfg, *hub, *inbound);
    assert((opened, bytes_of(plain)) == ready.rtcp_opened(pkt@));
    receive_rtcp(cfg, hub, guarded, pkt, peer, keyed, plain.is_some());
    let ghost received = state(*cfg, *hub, *inbound);
    assert(received == opened.rtcp_received(pkt@, peer, keyed, plain is Some));
    if let Some(plain) = plain {
        handle_rtcp_plain(
            plain.as_slice(),
            &mut cfg.rx_stats,
            &mut cfg.remote_report,
            cfg.local_ssrc,
            now,
            now_ntp_mid,
        );
        if let Some(r) = &cfg.relay {
            if keyed || !guarded {
                let fb: Feedback = parse_feedback(plain.as_slice());
                hub.on_feedback(r.own, &fb, now);
            }
        }
    }
}

/// Handles feedback that shares the port with RTP, on a relay leg.
fn handle_feedback(
    cfg: &mut RecvLoopConfig,
    hub: &mut RelayHub,
    own: u64,
    guarded: bool,
    pkt: &[u8],
    peer: Endpoint,
    inbound: &mut Inbound,
    now: u64,
)
    requires
        old(hub)@.inv(),
        old(cfg)@.relay is Some,
        old(cfg)@.relay->0.own == own,
        old(hub)@.legs.contains_key(own),
        guarded == state(*old(cfg), *old(hub), *old(inbound)).guarded(),
    ensures
        state(*final(cfg), *final(hub), *final(inbound)) == state(
            *old(cfg),
            *old(hub),
            *old(inbound),
        ).after_feedback(pkt@, peer, now),
        final(hub)@.inv(),
{
    maybe_build_decrypt(&cfg.keys, &mut inbound.srtcp);
    let keyed = inbound.srtcp.is_some();
    let ghost ready = state(*cfg, *hub, *inbound);
    assert(ready == state(*old(cfg), *old(hub), *old(inbound)).with_rtcp_context());
    let plain = open_rtcp(cfg, hub, pkt, inbound);
    let ghost opened = state(*cfg, *hub, *inbound);
    assert((opened, bytes_of(plain)) == ready.rtcp_opened(pkt@));
    receive_rtcp(cfg, hub, guarded, pkt, peer, keyed, plain.is_some());
    let ghost received = state(*cfg, *hub, *inbound);
    assert(received == opened.rtcp_received(pkt@, peer, keyed, plain is Some));
    if let Some(plain) = plain {
        if keyed || !guarded {
            let fb: Feedback = parse_feedback(plain.as_slice());
            hub.on_feedback(own, &fb, now);
        }
    }
}

/// The counters of a leg.
fn counters_of(hub: &RelayHub, own: u64) -> (r: RelayCounters)
    requires
        hub@.legs.contains_key(own),
    ensures
        r == hub@.legs[own].counters,
{
    match hub.leg(own) {
        Some(leg) => leg.snapshot(),
        None => RelayCounters {
            in_count: 0,
            accepted: 0,
            rtcp_in: 0,
            decrypt_failed: 0,
            prekey_dropped: 0,
            out_count: 0,
            dropped: 0,
            pt_dropped: 0,
        },
    }
}

/// Opens an RTP datagram of a relay leg.
fn open_rtp(
    cfg: &RecvLoopConfig,
    hub: &mut RelayHub,
    own: u64,
    guarded: bool,
    pkt: &[u8],
    inbound: &mut Inbound,
) -> (plain: Option<RtpPacket>)
    requires
        old(hub)@.inv(),
        cfg@.relay is Some,
        cfg@.relay->0.own == own,
        old(hub)@.legs.contains_key(own),
        guarded == state(*cfg, *old(hub), *old(inbound)).guarded(),
        pkt@.len() >= RTP_FIXED_HEADER_LEN,
    ensures
        ({
            let (next, opened) = state(*cfg, *old(hub), *old(inbound)).rtp_opened(pkt@);
            &&& state(*cfg, *final(hub), *final(inbound)) == next
            &&& match plain {
                Some(p) => opened == Some(p@) && p.inv(),
                None => opened is None,
            }
        }),
        final(hub)@.inv(),
        final(hub)@.legs.contains_key(own),
{
    if !guarded {
        return Some(RtpPacket::from_bytes(pkt));
    }
    let c: RelayCounters = counters_of(hub, own);
    maybe_build_decrypt(&cfg.keys, &mut inbound.srtp);
    maybe_build_gate(&cfg.keys, &mut inbound.gates.rtp);
    if let Some(ctx) = &mut inbound.srtp {
        if let Some(gate) = &mut inbound.gates.rtp {
            return match gate.decrypt(ctx, ssrc(pkt), pkt, Protected::Rtp) {
                Some(dec) => Some(RtpPacket::from_bytes(dec.as_slice())),
                None => {
                    hub.set_counters(
                        own,
                        RelayCounters { decrypt_failed: c.decrypt_failed.wrapping_add(1), ..c },
                    );
                    None
                },
            };
        }
    }
    // Nothing is forwarded until there are keys.
    hub.set_counters(
        own,
        RelayCounters { prekey_dropped: c.prekey_dropped.wrapping_add(1), ..c },
    );
    None
}

/// Follows an authenticated RTP packet.
fn follow_rtp(cfg: &mut RecvLoopConfig, pkt: &[u8], peer: Endpoint)
    requires
        pkt@.len() >= RTP_FIXED_HEADER_LEN,
    ensures
        final(cfg)@ == old(cfg)@.rtp_followed(pkt@, peer),
{
    let fresh = match &mut cfg.relay {
        Some(r) => r.fresh.rtp(ssrc(pkt), sequence_number(pkt)),
        None => false,
    };
    if fresh {
        latch(cfg, peer);
    }
}

/// Folds one RTP packet into the receiver accounting.
fn rx_account(cfg: &mut RecvLoopConfig, pkt: &[u8], now: u64)
    requires
        pkt@.len() >= RTP_FIXED_HEADER_LEN,
        old(cfg)@.rx.inv(),
    ensures
        final(cfg)@ == old(cfg)@.accounted(pkt@, now),
        final(cfg)@.rx.inv(),
{
    let _ = cfg.rx_stats.on_packet_at(ssrc(pkt), sequence_number(pkt), timestamp(pkt), now);
}

/// Handles RTP on a relay leg.
fn handle_relay_rtp(
    cfg: &mut RecvLoopConfig,
    hub: &mut RelayHub,
    own: u64,
    guarded: bool,
    pkt: &[u8],
    peer: Endpoint,
    inbound: &mut Inbound,
    now: u64,
) -> (r: Outcome)
    requires
        old(hub)@.inv(),
        old(cfg)@.rx.inv(),
        old(cfg)@.relay is Some,
        old(cfg)@.relay->0.own == own,
        old(hub)@.legs.contains_key(own),
        guarded == state(*old(cfg), *old(hub), *old(inbound)).guarded(),
        pkt@.len() >= RTP_FIXED_HEADER_LEN,
    ensures
        (state(*final(cfg), *final(hub), *final(inbound)), r@) == state(
            *old(cfg),
            *old(hub),
            *old(inbound),
        ).after_rtp(pkt@, peer, now),
        final(hub)@.inv(),
        final(cfg)@.rx.inv(),
        r.jitter is None,
{
    let ghost before = state(*old(cfg), *old(hub), *old(inbound));
    cfg.in_count = cfg.in_count.wrapping_add(1);
    let c: RelayCounters = counters_of(hub, own);
    hub.set_counters(own, RelayCounters { in_count: c.in_count.wrapping_add(1), ..c });
    let ghost started = state(*cfg, *hub, *inbound);
    assert(started.guarded() == guarded);
    match open_rtp(cfg, hub, own, guarded, pkt, inbound) {
        Some(rp) => {
            let ghost opened = state(*cfg, *hub, *inbound);
            assert(opened.hub.legs[own].pts == before.hub.legs[own].pts);
            assert(opened.guarded() == guarded);
            if guarded {
                follow_rtp(cfg, pkt, peer);
            }
            let declared = match hub.leg(own) {
                Some(leg) => leg.pts().declares(rp.payload_type()),
                None => false,
            };
            if declared {
                rx_account(cfg, rp.as_slice(), now);
            }
            let c: RelayCounters = counters_of(hub, own);
            hub.set_counters(own, RelayCounters { accepted: c.accepted.wrapping_add(1), ..c });
            hub.fan_out(own, rp);
            Outcome { reply: None, dtls: None, accounted: declared, jitter: None }
        },
        None => nothing_to_do(),
    }
}

/// Handles one datagram from `peer` that arrived at `now`; `now_ntp_mid` is the
/// middle of the NTP time then. On a secure relay leg the remote moves only for
/// what authenticated and is fresh, or for DTLS while there are no keys; on any
/// other channel every datagram moves it.
pub fn handle_packet(
    cfg: &mut RecvLoopConfig,
    hub: &mut RelayHub,
    pkt: &[u8],
    peer: Endpoint,
    inbound: &mut Inbound,
    now: u64,
    now_ntp_mid: u32,
) -> (r: Outcome)
    requires
        old(hub)@.inv(),
        old(cfg)@.rx.inv(),
        old(cfg)@.relay matches Some(r) ==> old(hub)@.legs.contains_key(r.own),
    ensures
        (state(*final(cfg), *final(hub), *final(inbound)), r@) == state(
            *old(cfg),
            *old(hub),
            *old(inbound),
        ).received(pkt@, peer, now, now_ntp_mid),
        final(hub)@.inv(),
        final(cfg)@.rx.inv(),
        r.jitter matches Some(p) ==> p.inv(),
{
    let own: Option<u64> = match &cfg.relay {
        Some(r) => Some(r.own),
        None => None,
    };
    let guarded = match own {
        Some(id) => match hub.leg(id) {
            Some(leg) => leg.is_secure(),
            None => false,
        },
        None => false,
    };
    let ghost before = state(*old(cfg), *old(hub), *old(inbound));
    assert(guarded == before.guarded());
    if !guarded {
        latch(cfg, peer);
    }
    let ghost st = state(*cfg, *hub, *inbound);
    assert(st == before.arrived(peer));
    assert(st.guarded() == guarded);
    if pkt.len() == 0 {
        return nothing_to_do();
    }
    if stun::is_stun(pkt) {
        return handle_stun(cfg, guarded, pkt, peer);
    }
    if 20 <= pkt[0] && pkt[0] <= 63 {
        if guarded && cfg.keys.is_none() {
            latch(cfg, peer);
        }
        return Outcome {
            reply: None,
            dtls: Some(slice_to_vec(pkt)),
            accounted: false,
            jitter: None,
        };
    }
    if is_muxed_rtcp(pkt) {
        handle_rtcp(cfg, hub, guarded, pkt, peer, inbound, now, now_ntp_mid);
        return nothing_to_do();
    }
    match own {
        Some(id) => {
            if is_muxed_rtcp_fb(pkt) {
                handle_feedback(cfg, hub, id, guarded, pkt, peer, inbound, now);
                return nothing_to_do();
            }
            if pkt.len() >= RTP_FIXED_HEADER_LEN {
                return handle_relay_rtp(cfg, hub, id, guarded, pkt, peer, inbound, now);
            }
            nothing_to_do()
        },
        None => {
            if pkt.len() >= RTP_FIXED_HEADER_LEN {
                cfg.in_count = cfg.in_count.wrapping_add(1);
                rx_account(cfg, pkt, now);
                return Outcome {
                    reply: None,
                    dtls: None,
                    accounted: true,
                    jitter: Some(RtpPacket::from_bytes(pkt)),
                };
            }
            nothing_to_do()
        },
    }
}

} // verus!
