//! What holds of every datagram on a media port.
use vstd::prelude::*;

use crate::dtls_session::SrtpKeyingMaterial;
use crate::endpoint::Endpoint;
use crate::recv_loop::fresh::{index_of, lemma_replay_is_not_fresh, Fresh, FRESH_MAX_SSRCS};
use crate::recv_loop::gate::{gate_for, Gate, Protected, GATE_MAX_TRUSTED};
use crate::recv_loop::gate::{
    lemma_gate_stays_bounded, lemma_genuine_control_passes, lemma_genuine_packet_passes,
    lemma_genuine_stream_passes,
};
use crate::recv_loop::packet::{
    profile_of, spec_is_muxed_rtcp, spec_is_muxed_rtcp_fb, Recv,
};
use crate::relay::feedback::Asked;
use crate::relay::hub::Hub;
use crate::relay::leg::Leg;
use crate::relay::routing::{requested, requests, SourceReq};
use crate::relay::seq_map::newer;
use crate::rtcp::Item;
use crate::rtcp_loop::{accounted, compound_accounted, inbound_log};
use crate::rtcp_stats::{RemoteReport, Rx};
use crate::rtp::{clipped, sequence_of, ssrc_of, RTP_FIXED_HEADER_LEN};
use crate::srtp::{genuine_rtcp, genuine_rtp, keyed_by, new_log, opened_rtcp};
use crate::srtp::{has_whole_header, lemma_same_stream, protects_rtcp, protects_rtp};
use crate::srtp::{rollover, rollover_of, untouched, LOG_LIMIT};
use crate::stun;
use crate::wire::be32;

verus! {

/// Requests leave a leg that is not picked as it is.
proof fn lemma_requested_spares(
    legs: Map<u64, Leg>,
    p: spec_fn(u64) -> bool,
    reqs: Seq<SourceReq>,
    now: u64,
    id: u64,
)
    requires
        !p(id),
        legs.contains_key(id),
    ensures
        requested(legs, p, reqs, now).contains_key(id),
        requested(legs, p, reqs, now)[id] == legs[id],
    decreases reqs.len(),
{
    if reqs.len() > 0 {
        lemma_requested_spares(legs, p, reqs.drop_last(), now, id);
    }
}

/// A leg's own feedback leaves it as it is.
proof fn lemma_fed_back_spares(hub: Hub, id: u64, fb: Asked, now: u64)
    requires
        hub.legs.contains_key(id),
    ensures
        hub.fed_back(id, fb, now).legs.contains_key(id),
        hub.fed_back(id, fb, now).legs[id] == hub.legs[id],
        hub.fed_back(id, fb, now).groups == hub.groups,
{
    let asked = match fb.keyframe {
        Some(ssrcs) => hub.keyframe_asked(id, ssrcs),
        None => hub,
    };
    assert(!hub.peers(id, id));
    assert(asked.legs.contains_key(id) && asked.legs[id] == hub.legs[id]);
    lemma_requested_spares(
        asked.legs,
        |k: u64| asked.peers(id, k),
        requests(asked.legs[id].routes, fb.nacks).0,
        now,
        id,
    );
}

impl Recv {
    /// The channel's leg is in the hub.
    pub open spec fn wired(self) -> bool {
        self.is_relay() ==> self.hub.legs.contains_key(self.own())
    }

    /// A muxed RTCP or feedback datagram decrypts.
    pub open spec fn rtcp_authentic(self, pkt: Seq<u8>) -> bool {
        let ready = self.with_rtcp_context();
        ready.rtcp_log is Some && ready.rtcp_opened(pkt).1 is Some
    }

    /// An RTP datagram decrypts.
    pub open spec fn rtp_authentic(self, pkt: Seq<u8>) -> bool {
        self.guarded() && self.rtp_opened(pkt).1 is Some
    }

    /// The kind of a datagram, as the receive loop tells them apart.
    pub open spec fn kind(self, pkt: Seq<u8>) -> Kind {
        if pkt.len() == 0 {
            Kind::Other
        } else if stun::is_stun_message(pkt) {
            Kind::Stun
        } else if 20 <= pkt[0] <= 63 {
            Kind::Dtls
        } else if spec_is_muxed_rtcp(pkt) || (self.is_relay() && spec_is_muxed_rtcp_fb(pkt)) {
            Kind::Rtcp
        } else if pkt.len() >= RTP_FIXED_HEADER_LEN {
            Kind::Rtp
        } else {
            Kind::Other
        }
    }

    /// A datagram proves that its sender holds the secret that it should, and
    /// is no replay.
    pub open spec fn proves(self, pkt: Seq<u8>) -> bool {
        match self.kind(pkt) {
            Kind::Stun => {
                &&& stun::verdict(pkt, self.cfg.icepwd) == Some(true)
                &&& self.cfg.relay->0.fresh.stun_fresh(stun::txid_of(pkt))
                &&& self.cfg.remote is None || stun::is_nomination(pkt)
            },
            Kind::Dtls => self.cfg.keys is None,
            Kind::Rtcp => self.rtcp_authentic(pkt) && self.cfg.rtcp_is_fresh(pkt),
            Kind::Rtp => self.rtp_authentic(pkt) && self.cfg.relay->0.fresh.rtp_fresh(
                ssrc_of(pkt),
                sequence_of(pkt),
            ),
            Kind::Other => false,
        }
    }

    /// A datagram that carries media or control authenticates.
    pub open spec fn accepts(self, pkt: Seq<u8>) -> bool {
        match self.kind(pkt) {
            Kind::Rtcp => self.rtcp_authentic(pkt),
            Kind::Rtp => self.rtp_authentic(pkt),
            _ => true,
        }
    }
}

/// The kinds of datagrams.
pub enum Kind {
    Stun,
    Dtls,
    Rtcp,
    Rtp,
    Other,
}

/// What RTP leaves of the channel's own leg, and of what it is.
proof fn lemma_after_rtp(st: Recv, pkt: Seq<u8>, peer: Endpoint, now: u64)
    requires
        st.wired(),
        st.is_relay(),
    ensures
        ({
            let after = st.after_rtp(pkt, peer, now).0;
            &&& after.wired()
            &&& after.guarded() == st.guarded()
            &&& after.is_relay() && after.own() == st.own()
            &&& after.cfg.keys == st.cfg.keys
            &&& st.guarded() ==> after.cfg.remote == if st.rtp_authentic(pkt) {
                st.cfg.rtp_followed(pkt, peer).remote
            } else {
                st.cfg.remote
            }
            &&& st.guarded() ==> after.cfg.relay == if st.rtp_authentic(pkt) {
                st.cfg.rtp_followed(pkt, peer).relay
            } else {
                st.cfg.relay
            }
        }),
{
}

/// What RTCP leaves of the channel's own leg, and of what it is.
proof fn lemma_after_rtcp(st: Recv, pkt: Seq<u8>, peer: Endpoint, now: u64, now_ntp_mid: u32)
    requires
        st.wired(),
        st.is_relay(),
    ensures
        ({
            let a = st.after_rtcp(pkt, peer, now, now_ntp_mid);
            let b = st.after_feedback(pkt, peer, now);
            let followed = if st.guarded() && st.rtcp_authentic(pkt) {
                st.cfg.rtcp_followed(pkt, peer)
            } else {
                st.cfg
            };
            &&& a.wired() && b.wired()
            &&& a.guarded() == st.guarded() && b.guarded() == st.guarded()
            &&& a.is_relay() && a.own() == st.own()
            &&& b.is_relay() && b.own() == st.own()
            &&& a.cfg.keys == st.cfg.keys && b.cfg.keys == st.cfg.keys
            &&& a.cfg.remote == followed.remote && b.cfg.remote == followed.remote
            &&& a.cfg.relay == followed.relay && b.cfg.relay == followed.relay
        }),
{
    let ready = st.with_rtcp_context();
    let keyed = ready.rtcp_log is Some;
    let (opened, plain) = ready.rtcp_opened(pkt);
    let received = opened.rtcp_received(pkt, peer, keyed, plain is Some);
    assert(received.hub.legs.contains_key(st.own()));
    if let Some(p) = plain {
        lemma_fed_back_spares(
            received.hub,
            st.own(),
            crate::relay::feedback::feedback_of(p),
            now,
        );
    }
}

/// What a datagram leaves of a relay leg: its place in the hub, what it is, and
/// its keys.
pub proof fn lemma_leg_keeps_its_place(
    st: Recv,
    pkt: Seq<u8>,
    peer: Endpoint,
    now: u64,
    now_ntp_mid: u32,
)
    requires
        st.wired(),
    ensures
        ({
            let after = st.received(pkt, peer, now, now_ntp_mid).0;
            &&& after.wired()
            &&& after.guarded() == st.guarded()
            &&& after.is_relay() == st.is_relay()
            &&& st.is_relay() ==> after.own() == st.own()
            &&& after.cfg.keys == st.cfg.keys
        }),
{
    let a = st.arrived(peer);
    if st.is_relay() {
        lemma_after_rtp(a, pkt, peer, now);
        lemma_after_rtcp(a, pkt, peer, now, now_ntp_mid);
    }
}

/// The remote of a secure relay leg moves only for a datagram that proves who
/// sent it and is no replay: a signed STUN request that is seen for the first
/// time and nominates its pair (or is the first of all), SRTCP or SRTP that
/// decrypts and is newer than what came before, or DTLS while there are no
/// keys.
pub proof fn lemma_secure_remote_moves_only_by_proof(
    st: Recv,
    pkt: Seq<u8>,
    peer: Endpoint,
    now: u64,
    now_ntp_mid: u32,
)
    requires
        st.wired(),
        st.guarded(),
    ensures
        st.received(pkt, peer, now, now_ntp_mid).0.cfg.remote != st.cfg.remote ==> st.proves(pkt)
            && st.received(pkt, peer, now, now_ntp_mid).0.cfg.remote == Some(peer),
{
    lemma_after_rtp(st, pkt, peer, now);
    lemma_after_rtcp(st, pkt, peer, now, now_ntp_mid);
}

/// A datagram that proves itself does move the remote of a secure relay leg,
/// where STUN is answered at all.
pub proof fn lemma_secure_remote_follows_proof(
    st: Recv,
    pkt: Seq<u8>,
    peer: Endpoint,
    now: u64,
    now_ntp_mid: u32,
)
    requires
        st.wired(),
        st.guarded(),
        st.proves(pkt),
        stun::is_stun_message(pkt) ==> st.answers(pkt),
    ensures
        st.received(pkt, peer, now, now_ntp_mid).0.cfg.remote == Some(peer),
{
    lemma_after_rtp(st, pkt, peer, now);
    lemma_after_rtcp(st, pkt, peer, now, now_ntp_mid);
}

/// A gate is within its bounds, and trusts these SSRCs.
pub open spec fn backs(gate: Option<Gate>, ssrcs: Set<u32>) -> bool {
    match gate {
        Some(g) => g.inv() && ssrcs.subset_of(g.trusted),
        None => ssrcs.is_empty(),
    }
}

impl Recv {
    /// A relay leg tracks the freshness only of SSRCs that its gates trust.
    pub open spec fn tracks_trusted(self) -> bool {
        self.cfg.relay matches Some(r) ==> backs(self.rtp_gate, r.fresh.rtp.dom()) && backs(
            self.rtcp_gate,
            r.fresh.rtcp.dom(),
        )
    }
}

/// A leg that has received nothing tracks nothing.
pub proof fn lemma_new_leg_tracks_trusted(st: Recv)
    requires
        st.cfg.relay matches Some(r) ==> r.fresh == Fresh::empty(),
        st.rtp_gate is None,
        st.rtcp_gate is None,
    ensures
        st.tracks_trusted(),
{
    if let Some(r) = st.cfg.relay {
        assert(r.fresh.rtp.dom() =~= Set::empty());
        assert(r.fresh.rtcp.dom() =~= Set::empty());
    }
}

/// Whatever arrives, a leg goes on to track only SSRCs that its gates trust.
pub proof fn lemma_only_trusted_are_tracked(
    st: Recv,
    pkt: Seq<u8>,
    peer: Endpoint,
    now: u64,
    now_ntp_mid: u32,
)
    requires
        st.wired(),
        st.tracks_trusted(),
    ensures
        st.received(pkt, peer, now, now_ntp_mid).0.tracks_trusted(),
{
    let a = st.arrived(peer);
    if let Some(r) = st.cfg.relay {
        lemma_after_rtp(a, pkt, peer, now);
        lemma_after_rtcp(a, pkt, peer, now, now_ntp_mid);
        if let (Some(log), Some(g)) = (
            inbound_log(a.rtp_log, a.cfg.keys),
            gate_for(a.rtp_gate, a.cfg.keys),
        ) {
            lemma_gate_stays_bounded(g, log, ssrc_of(pkt), pkt, Protected::Rtp);
        }
        let kind = Protected::Rtcp(profile_of(a.cfg.keys));
        if let (Some(log), Some(g)) = (
            a.with_rtcp_context().rtcp_log,
            gate_for(a.rtcp_gate, a.cfg.keys),
        ) {
            lemma_gate_stays_bounded(g, log, be32(pkt, 4), pkt, kind);
        }
    }
}

/// So neither table of a leg ever holds more than `FRESH_MAX_SSRCS`.
pub proof fn lemma_tracked_are_bounded(st: Recv)
    requires
        st.is_relay(),
        st.tracks_trusted(),
    ensures
        st.cfg.relay->0.fresh.rtp.len() <= FRESH_MAX_SSRCS,
        st.cfg.relay->0.fresh.rtcp.len() <= FRESH_MAX_SSRCS,
{
    let fresh = st.cfg.relay->0.fresh;
    match st.rtp_gate {
        Some(g) => vstd::set_lib::lemma_len_subset(fresh.rtp.dom(), g.trusted),
        None => assert(fresh.rtp.dom() =~= Set::empty()),
    }
    match st.rtcp_gate {
        Some(g) => vstd::set_lib::lemma_len_subset(fresh.rtcp.dom(), g.trusted),
        None => assert(fresh.rtcp.dom() =~= Set::empty()),
    }
}

/// A datagram that was accepted does not move the remote of a keyed secure leg
/// when it is sent again from elsewhere.
pub proof fn lemma_replay_does_not_move(
    st: Recv,
    pkt: Seq<u8>,
    peer: Endpoint,
    now: u64,
    now_ntp_mid: u32,
    elsewhere: Endpoint,
    later: u64,
    later_ntp_mid: u32,
)
    requires
        st.wired(),
        st.guarded(),
        st.cfg.keys is Some,
        st.accepts(pkt),
    ensures
        ({
            let once = st.received(pkt, peer, now, now_ntp_mid).0;
            once.received(pkt, elsewhere, later, later_ntp_mid).0.cfg.remote == once.cfg.remote
        }),
{
    let once = st.received(pkt, peer, now, now_ntp_mid).0;
    lemma_leg_keeps_its_place(st, pkt, peer, now, now_ntp_mid);
    lemma_after_rtp(st, pkt, peer, now);
    lemma_after_rtcp(st, pkt, peer, now, now_ntp_mid);
    lemma_after_rtp(once, pkt, elsewhere, later);
    lemma_after_rtcp(once, pkt, elsewhere, later, later_ntp_mid);
    let fresh = st.cfg.relay->0.fresh;
    let index = match index_of(pkt, profile_of(st.cfg.keys)->0) {
        Some(i) => i,
        None => 0,
    };
    lemma_replay_is_not_fresh(
        fresh,
        ssrc_of(pkt),
        sequence_of(pkt),
        index,
        index,
        stun::txid_of(pkt),
    );
    lemma_replay_is_not_fresh(
        fresh,
        be32(pkt, 4),
        sequence_of(pkt),
        index,
        index,
        stun::txid_of(pkt),
    );
}

impl Recv {
    /// The channel has keys of the lengths of their profile, and what it has of
    /// an inbound context and a gate was made from them.
    pub open spec fn keyed(
        self,
        keys: SrtpKeyingMaterial,
        log: Option<Seq<(u8, Seq<u8>)>>,
        gate: Option<Gate>,
    ) -> bool {
        let (key, salt, profile) = (keys.remote_key(), keys.remote_salt(), keys.profile);
        &&& self.cfg.keys == Some(keys)
        &&& key.len() == profile.spec_key_len() && salt.len() == profile.spec_salt_len()
        &&& log matches Some(l) ==> keyed_by(l, key, salt, profile)
        &&& gate matches Some(g) ==> g.inv() && g.key == key && g.salt == salt && g.profile
            == profile
    }
}

/// Genuine control from the far end of a keyed relay leg is accepted, and read
/// as it was before it was protected, as long as its sender is known or there
/// is room for one more.
pub proof fn lemma_genuine_control_is_accepted(
    st: Recv,
    keys: SrtpKeyingMaterial,
    pkt: Seq<u8>,
    plain: Seq<u8>,
)
    requires
        st.is_relay(),
        st.keyed(keys, st.rtcp_log, st.rtcp_gate),
        st.rtcp_gate matches Some(g) ==> g.trusted.contains(be32(pkt, 4)) || g.trusted.len()
            < GATE_MAX_TRUSTED,
        genuine_rtcp(pkt, plain, keys.remote_key(), keys.remote_salt(), keys.profile),
    ensures
        st.rtcp_authentic(pkt),
        st.with_rtcp_context().rtcp_opened(pkt).1 == Some(plain),
{
    let (key, salt, profile) = (keys.remote_key(), keys.remote_salt(), keys.profile);
    let fresh = new_log(key, salt, profile);
    assert(fresh.take(3) =~= fresh);
    assert(opened_rtcp(fresh, pkt, Some(profile)) == Some(plain));
    let ready = st.with_rtcp_context();
    let log = ready.rtcp_log->0;
    assert(keyed_by(log, key, salt, profile));
    let gate = gate_for(st.rtcp_gate, st.cfg.keys)->0;
    assert(gate.inv());
    lemma_genuine_control_passes(gate, log, be32(pkt, 4), pkt, plain);
}

/// What one end protects as control with the keys that the other end expects,
/// the other end accepts and reads as it was.
pub proof fn lemma_sent_control_is_accepted(
    log: Seq<(u8, Seq<u8>)>,
    plain: Seq<u8>,
    sent: Seq<u8>,
    st: Recv,
    keys: SrtpKeyingMaterial,
)
    requires
        keyed_by(log, keys.remote_key(), keys.remote_salt(), keys.profile),
        protects_rtcp(log, plain, Some(sent)),
        st.is_relay(),
        st.keyed(keys, st.rtcp_log, st.rtcp_gate),
        st.rtcp_gate matches Some(g) ==> g.trusted.contains(be32(sent, 4)) || g.trusted.len()
            < GATE_MAX_TRUSTED,
    ensures
        st.rtcp_authentic(sent),
        st.with_rtcp_context().rtcp_opened(sent).1 == Some(plain),
{
    lemma_genuine_control_is_accepted(st, keys, sent, plain);
}

/// A genuine packet of the first round of a new stream from the far end of a
/// keyed secure relay leg is accepted, as it was before it was protected (cut to
/// what a packet holds), as long as there is room for one more.
pub proof fn lemma_genuine_stream_is_accepted(
    st: Recv,
    keys: SrtpKeyingMaterial,
    pkt: Seq<u8>,
    plain: Seq<u8>,
)
    requires
        st.guarded(),
        st.keyed(keys, st.rtp_log, st.rtp_gate),
        st.rtp_log matches Some(l) ==> l.len() < LOG_LIMIT && rollover(
            l,
            ssrc_of(pkt),
            sequence_of(pkt),
        ) == 0,
        st.rtp_gate matches Some(g) ==> {
            &&& g.new_to_probe(ssrc_of(pkt))
            &&& g.probe matches Some(probe) ==> probe.len() < LOG_LIMIT
            &&& !g.trusted.contains(ssrc_of(pkt))
            &&& g.trusted.len() < GATE_MAX_TRUSTED
        },
        genuine_rtp(pkt, plain, keys.remote_key(), keys.remote_salt(), keys.profile, 0),
    ensures
        st.rtp_authentic(pkt),
        st.rtp_opened(pkt).1 == Some(clipped(plain)),
{
    let (key, salt, profile) = (keys.remote_key(), keys.remote_salt(), keys.profile);
    let fresh = new_log(key, salt, profile);
    assert(fresh.take(3) =~= fresh);
    assert(untouched(fresh, ssrc_of(pkt)));
    let log = inbound_log(st.rtp_log, st.cfg.keys)->0;
    let gate = gate_for(st.rtp_gate, st.cfg.keys)->0;
    lemma_genuine_stream_passes(gate, log, pkt, plain);
}

/// What one end protects of a stream that the other end of a keyed secure relay
/// leg has accepted packets of, the other end accepts as it was (cut to what a
/// packet holds), where both take it in the same round.
pub proof fn lemma_sent_packet_is_accepted(
    log: Seq<(u8, Seq<u8>)>,
    plain: Seq<u8>,
    sent: Seq<u8>,
    st: Recv,
    keys: SrtpKeyingMaterial,
)
    requires
        keyed_by(log, keys.remote_key(), keys.remote_salt(), keys.profile),
        log.len() < LOG_LIMIT,
        has_whole_header(plain),
        12 <= plain.len(),
        12 <= sent.len(),
        sent.take(12) == plain.take(12),
        protects_rtp(log, plain, Some(sent)),
        st.guarded(),
        st.keyed(keys, st.rtp_log, st.rtp_gate),
        st.rtp_log matches Some(l) && l.len() < LOG_LIMIT && rollover(
            l,
            ssrc_of(plain),
            sequence_of(plain),
        ) == rollover(log, ssrc_of(plain), sequence_of(plain)),
        st.rtp_gate matches Some(g) && g.trusted.contains(ssrc_of(plain)),
    ensures
        st.rtp_authentic(sent),
        st.rtp_opened(sent).1 == Some(clipped(plain)),
{
    lemma_same_stream(plain, sent);
    lemma_genuine_packet_passes(
        st.rtp_gate->0,
        st.rtp_log->0,
        sent,
        plain,
        rollover(log, ssrc_of(plain), sequence_of(plain)),
    );
}

/// What a context opens and what looks newer than the packet before it, by its
/// sequence number alone, really is later in its stream.
pub proof fn lemma_newer_is_later(index: int, seq: u16)
    requires
        0 <= index,
        newer(seq, (index % 0x1_0000) as u16),
    ensures
        rollover_of(Some(index), seq) * 0x1_0000 + seq > index,
{
}

/// Before there are keys, nothing that reaches a secure leg crosses to another:
/// no packet, no keyframe request, no NACK.
pub proof fn lemma_nothing_crosses_before_keys(
    st: Recv,
    pkt: Seq<u8>,
    peer: Endpoint,
    now: u64,
    now_ntp_mid: u32,
    other: u64,
)
    requires
        st.wired(),
        st.guarded(),
        st.cfg.keys is None,
        st.rtcp_log is None,
        st.rtp_log is None,
        other != st.own(),
    ensures
        ({
            let (after, todo) = st.received(pkt, peer, now, now_ntp_mid);
            &&& after.hub.legs.contains_key(other) == st.hub.legs.contains_key(other)
            &&& after.hub.legs[other] == st.hub.legs[other]
            &&& after.hub.groups == st.hub.groups
            &&& !todo.accounted
            &&& todo.jitter is None
        }),
{
}

/// The source that a relay leg's keyframe requests are about moves only for an
/// RTP packet that the leg accepted, under a payload type that it negotiated.
pub proof fn lemma_accounts_only_negotiated(
    st: Recv,
    pkt: Seq<u8>,
    peer: Endpoint,
    now: u64,
    now_ntp_mid: u32,
)
    requires
        st.wired(),
        st.is_relay(),
    ensures
        ({
            let (after, todo) = st.received(pkt, peer, now, now_ntp_mid);
            &&& after.cfg.rx.remote_ssrc != st.cfg.rx.remote_ssrc ==> todo.accounted
            &&& todo.accounted ==> {
                &&& st.kind(pkt) is Rtp
                &&& st.rtp_opened(pkt).1 matches Some(plain) && st.declares(plain)
                &&& st.guarded() ==> st.rtp_authentic(pkt)
            }
            &&& todo.jitter is None
        }),
{
    let a = st.arrived(peer);
    if st.kind(pkt) is Rtcp {
        let ready = a.with_rtcp_context();
        let (opened, plain) = ready.rtcp_opened(pkt);
        if let Some(p) = plain {
            lemma_reports_spare_the_source(
                a.cfg.rx,
                a.cfg.report,
                p,
                a.cfg.local_ssrc,
                now,
                now_ntp_mid,
            );
        }
    }
}

/// Reports do not move the source that is accounted.
proof fn lemma_reports_spare_the_source(
    rx: Rx,
    report: RemoteReport,
    pkt: Seq<u8>,
    local_ssrc: u32,
    now: u64,
    now_ntp_mid: u32,
)
    ensures
        compound_accounted(rx, report, pkt, local_ssrc, now, now_ntp_mid).0.remote_ssrc
            == rx.remote_ssrc,
{
    if let Ok(items) = crate::rtcp::parsed(pkt) {
        lemma_items_spare_the_source(rx, report, items, local_ssrc, now, now_ntp_mid);
    }
}

proof fn lemma_items_spare_the_source(
    rx: Rx,
    report: RemoteReport,
    items: Seq<Item>,
    local_ssrc: u32,
    now: u64,
    now_ntp_mid: u32,
)
    ensures
        accounted(rx, report, items, local_ssrc, now, now_ntp_mid).0.remote_ssrc == rx.remote_ssrc,
    decreases items.len(),
{
    if items.len() > 0 {
        lemma_items_spare_the_source(rx, report, items.drop_last(), local_ssrc, now, now_ntp_mid);
    }
}

/// Any other channel follows every datagram.
pub proof fn lemma_clear_remote_follows(
    st: Recv,
    pkt: Seq<u8>,
    peer: Endpoint,
    now: u64,
    now_ntp_mid: u32,
)
    requires
        st.wired(),
        !st.guarded(),
    ensures
        st.received(pkt, peer, now, now_ntp_mid).0.cfg.remote == Some(peer),
{
    let a = st.arrived(peer);
    if st.is_relay() {
        lemma_after_rtcp(a, pkt, peer, now, now_ntp_mid);
    }
}

/// A channel that is no relay leg leaves the relay alone.
pub proof fn lemma_other_channels_do_not_relay(
    st: Recv,
    pkt: Seq<u8>,
    peer: Endpoint,
    now: u64,
    now_ntp_mid: u32,
)
    requires
        !st.is_relay(),
    ensures
        st.received(pkt, peer, now, now_ntp_mid).0.hub == st.hub,
        st.received(pkt, peer, now, now_ntp_mid).0.rtp_log == st.rtp_log,
{
}

} // verus!
