//! Where what arrives on a relay leg goes: feedback to the sources that it is
//! about, media to the other legs of the group.
use vstd::prelude::*;

use crate::endpoint::Endpoint;
use crate::recv_loop::packet::Recv;
use crate::relay::feedback::{
    feedback_of, lemma_feedback_behind_report, lemma_nack_roundtrip, lemma_pli_roundtrip,
    nack_bytes, pli_bytes,
};
use crate::relay::hub::Hub;
use crate::relay::leg::{Frame, Leg};
use crate::relay::nack::{asks, at_or_after, nack_key};
use crate::relay::nack_laws::{
    entries_in, lemma_lost_packet_is_asked_of_its_source, lemma_route_is, only_route, will_ask,
};
use crate::relay::outbound::OutRoute;
use crate::relay::routing::{names_source, requests};
use crate::relay::send_laws::{lemma_header_fields, lemma_packet_is_cut};
use crate::rtcp::parsed;
use crate::rtcp_laws::{half_at, word_at};
use crate::rtcp_loop::accounted;
use crate::rtp::{clipped, sequence_of, ssrc_of, timestamp_of};
use crate::stun;
use crate::stun_laws::{
    are_sized, attrs_bytes, lemma_signed_request_is_answered, signed_request, Attr,
};

verus! {

/// RTCP that shares the port with RTP, by its first two bytes: a report, its
/// companions, or feedback.
pub open spec fn is_control_byte_pair(pkt: Seq<u8>) -> bool {
    pkt.len() >= 2 && 128 <= pkt[0] <= 191 && 200 <= pkt[1] <= 206
}

/// A relay leg without DTLS that has no keys: nothing on it is protected.
pub open spec fn is_clear_leg(st: Recv) -> bool {
    &&& st.cfg.relay is Some
    &&& st.hub.legs.contains_key(st.cfg.relay->0.own)
    &&& !st.hub.legs[st.cfg.relay->0.own].secure
    &&& st.cfg.keys is None
    &&& st.rtcp_log is None
}

/// The feedback in a datagram that reaches a clear relay leg is routed as what
/// the leg's remote asks: the hub is then what that makes of it, and the leg has
/// counted one datagram more.
pub proof fn lemma_clear_feedback_is_routed(
    st: Recv,
    pkt: Seq<u8>,
    peer: Endpoint,
    now: u64,
    now_ntp_mid: u32,
)
    requires
        is_clear_leg(st),
        is_control_byte_pair(pkt),
    ensures
        ({
            let own = st.cfg.relay->0.own;
            let leg = st.hub.legs[own];
            let counters = crate::relay::leg::RelayCounters {
                rtcp_in: leg.counters.rtcp_in.wrapping_add(1),
                ..leg.counters
            };
            let counted = Hub { legs: st.hub.legs.insert(own, Leg { counters, ..leg }), ..st.hub };
            let (after, todo) = st.received(pkt, peer, now, now_ntp_mid);
            &&& after.hub == counted.fed_back(own, feedback_of(pkt), now)
            &&& todo.reply is None && todo.dtls is None && !todo.accounted && todo.jitter is None
        }),
{
    assert(!stun::is_stun_message(pkt));
}

/// The feedback in a datagram that a keyed relay leg opens is routed by what it
/// holds in the clear; where it does not open, no other leg hears of it.
pub proof fn lemma_protected_feedback_is_routed(
    st: Recv,
    pkt: Seq<u8>,
    peer: Endpoint,
    now: u64,
    now_ntp_mid: u32,
)
    requires
        st.cfg.relay is Some,
        st.hub.legs.contains_key(st.cfg.relay->0.own),
        is_control_byte_pair(pkt),
        st.with_rtcp_context().rtcp_log is Some,
    ensures
        ({
            let own = st.cfg.relay->0.own;
            let leg = st.hub.legs[own];
            let c = leg.counters;
            let after = st.received(pkt, peer, now, now_ntp_mid).0;
            match st.with_rtcp_context().rtcp_opened(pkt).1 {
                Some(plain) => {
                    let counters = crate::relay::leg::RelayCounters {
                        rtcp_in: c.rtcp_in.wrapping_add(1),
                        ..c
                    };
                    let counted = Hub {
                        legs: st.hub.legs.insert(own, Leg { counters, ..leg }),
                        ..st.hub
                    };
                    after.hub == counted.fed_back(own, feedback_of(plain), now)
                },
                None => {
                    let counters = crate::relay::leg::RelayCounters {
                        decrypt_failed: c.decrypt_failed.wrapping_add(1),
                        ..c
                    };
                    after.hub == Hub {
                        legs: st.hub.legs.insert(own, Leg { counters, ..leg }),
                        ..st.hub
                    }
                },
            }
        }),
{
    assert(!stun::is_stun_message(pkt));
}

/// A report in front of feedback, as a browser sends it, or nothing.
pub open spec fn is_lead(a: Seq<u8>) -> bool {
    a.len() == 0 || (a.len() >= 8 && 128 <= a[0] <= 191 && 200 <= a[1] <= 204 && a.len() == 4 * (
    half_at(a, 2) + 1))
}

proof fn lemma_lead(a: Seq<u8>, b: Seq<u8>)
    requires
        is_lead(a),
    ensures
        feedback_of(a + b) == feedback_of(b),
{
    if a.len() > 0 {
        lemma_feedback_behind_report(a, b);
    } else {
        assert(a + b =~= b);
    }
}

/// A PLI to a clear relay leg, alone or behind a report, leaves the peer that is
/// the source of the stream it names asked for a keyframe.
pub proof fn lemma_clear_pli_reaches_the_source(
    st: Recv,
    lead: Seq<u8>,
    sender: u32,
    media: u32,
    r: OutRoute,
    peer: Endpoint,
    now: u64,
    now_ntp_mid: u32,
)
    requires
        is_clear_leg(st),
        is_lead(lead),
        st.hub.legs.contains_key(r.src),
        st.hub.peers(st.cfg.relay->0.own, r.src),
        only_route(st.hub.legs[st.cfg.relay->0.own].routes, media, r),
    ensures
        ({
            let pkt = lead + pli_bytes(sender, media);
            st.received(pkt, peer, now, now_ntp_mid).0.hub.legs[r.src].pli
        }),
{
    let own = st.cfg.relay->0.own;
    let pli = pli_bytes(sender, media);
    let pkt = lead + pli;
    lemma_lead(lead, pli);
    lemma_pli_roundtrip(sender, media);
    lemma_clear_feedback_is_routed(st, pkt, peer, now, now_ntp_mid);
    let leg = st.hub.legs[own];
    let counters = crate::relay::leg::RelayCounters {
        rtcp_in: leg.counters.rtcp_in.wrapping_add(1),
        ..leg.counters
    };
    let counted = Hub { legs: st.hub.legs.insert(own, Leg { counters, ..leg }), ..st.hub };
    let routes = leg.routes;
    lemma_route_is(routes, media, r);
    assert(seq![media][0] == media);
    assert(names_source(routes, seq![media], r.src));
    assert(counted.peers(own, r.src));
    assert(requests(routes, Seq::empty()).0.len() == 0);
    assert(counted.keyframe_asked(own, seq![media]).legs[r.src].pli);
}

/// A NACK to a clear relay leg, alone or behind a report, for a packet that the
/// leg sent under the number `out`: a NACK for it waits at its source, under the
/// source's SSRC and number, unless the source was asked within the last tenth of
/// a second or its queue is full.
pub proof fn lemma_clear_nack_reaches_the_source(
    st: Recv,
    lead: Seq<u8>,
    sender: u32,
    media: u32,
    fci: Seq<(u16, u16)>,
    e: int,
    out: u16,
    r: OutRoute,
    peer: Endpoint,
    now: u64,
    now_ntp_mid: u32,
)
    requires
        is_clear_leg(st),
        is_lead(lead),
        0 <= e < fci.len() <= 0xFFFD,
        e < 32,
        asks(fci[e].0, fci[e].1, out),
        st.hub.legs.contains_key(r.src),
        st.hub.peers(st.cfg.relay->0.own, r.src),
        only_route(st.hub.legs[st.cfg.relay->0.own].routes, media, r),
        r.base matches Some(b) ==> at_or_after(out, b),
        ({
            let key = nack_key(r.src_ssrc, out.wrapping_sub(r.offset));
            let recent = st.hub.legs[r.src].recent;
            recent.contains_key(key) ==> recent[key] + 100_000_000 <= now
        }),
    ensures
        ({
            let pkt = lead + nack_bytes(sender, media, fci);
            let after = st.received(pkt, peer, now, now_ntp_mid).0.hub.legs[r.src];
            will_ask(after, r.src_ssrc, out.wrapping_sub(r.offset)) || after.nacks.len() >= 64
        }),
{
    let own = st.cfg.relay->0.own;
    let nack = nack_bytes(sender, media, fci);
    let pkt = lead + nack;
    lemma_lead(lead, nack);
    lemma_nack_roundtrip(sender, media, fci);
    assert(nack[0] == 0x81 && nack[1] == 205);
    lemma_clear_feedback_is_routed(st, pkt, peer, now, now_ntp_mid);
    let leg = st.hub.legs[own];
    let counters = crate::relay::leg::RelayCounters {
        rtcp_in: leg.counters.rtcp_in.wrapping_add(1),
        ..leg.counters
    };
    let counted = Hub { legs: st.hub.legs.insert(own, Leg { counters, ..leg }), ..st.hub };
    let items = seq![(media, fci)];
    assert(items.take(0) =~= Seq::<(u32, Seq<(u16, u16)>)>::empty());
    assert(entries_in(items.take(0)) == 0);
    assert(counted.peers(own, r.src));
    lemma_lost_packet_is_asked_of_its_source(counted, own, items, now, 0, e, r, out);
}

/// An RTP packet on a clear relay leg is handed to every other leg of the group
/// and to no other, as it is, with the leg's id and payload types, where their
/// queues have room; where one has none, that leg counts the drop.
pub proof fn lemma_clear_media_is_handed_on(
    st: Recv,
    pkt: Seq<u8>,
    peer: Endpoint,
    now: u64,
    now_ntp_mid: u32,
    k: u64,
)
    requires
        is_clear_leg(st),
        12 <= pkt.len() <= 1500,
        128 <= pkt[0] <= 191,
        !(200 <= pkt[1] <= 206),
        st.hub.legs.contains_key(k),
        k != st.cfg.relay->0.own,
    ensures
        ({
            let own = st.cfg.relay->0.own;
            let (after, todo) = st.received(pkt, peer, now, now_ntp_mid);
            let (old, new) = (st.hub.legs[k], after.hub.legs[k]);
            let me = after.hub.legs[own];
            let frame = Frame { src: own, pts: st.hub.legs[own].pts, pkt };
            &&& !st.hub.peers(own, k) ==> new == old
            &&& st.hub.peers(own, k) && old.queue.len() < old.depth ==> new == (Leg {
                queue: old.queue.push(frame),
                ..old
            })
            &&& st.hub.peers(own, k) && old.queue.len() >= old.depth ==> new.queue == old.queue
                && new.counters.dropped == old.counters.dropped.wrapping_add(1)
            &&& me.queue == st.hub.legs[own].queue
            &&& me.counters.in_count == st.hub.legs[own].counters.in_count.wrapping_add(1)
            &&& me.counters.accepted == st.hub.legs[own].counters.accepted.wrapping_add(1)
            &&& after.cfg.remote == Some(peer)
            &&& todo.jitter is None
            &&& todo.accounted == st.hub.legs[own].pts.declares((pkt[1] % 128) as u8)
        }),
{
    assert(!stun::is_stun_message(pkt));
    assert(clipped(pkt) =~= pkt);
}

/// A Binding Request that a peer signed with the channel's ICE password is answered
/// to where it came from, on any channel, with the response to its transaction ID
/// that carries the peer's address; nothing else is left to do for it.
pub proof fn lemma_signed_request_is_replied(
    st: Recv,
    txid: Seq<u8>,
    attrs: Seq<Attr>,
    peer: Endpoint,
    now: u64,
    now_ntp_mid: u32,
)
    requires
        txid.len() == 12,
        st.cfg.icepwd.len() > 0,
        are_sized(attrs),
        attrs_bytes(attrs).len() + 32 <= 0xFFFF,
        forall|i: int|
            0 <= i < attrs.len() ==> (#[trigger] attrs[i]).kind != 8 && attrs[i].kind != 0x8028,
    ensures
        ({
            let pkt = signed_request(txid, attrs, st.cfg.icepwd);
            let (after, todo) = st.received(pkt, peer, now, now_ntp_mid);
            &&& todo.reply == Some(stun::binding_response(peer, txid, st.cfg.icepwd))
            &&& todo.dtls is None && !todo.accounted && todo.jitter is None
            &&& after.hub == st.hub
            &&& after.cfg.in_count == st.cfg.in_count
            &&& after.cfg.rx == st.cfg.rx
        }),
{
    let pkt = signed_request(txid, attrs, st.cfg.icepwd);
    lemma_signed_request_is_answered(txid, attrs, st.cfg.icepwd);
}

/// STUN is not answered by a channel without an ICE password, nor where a message
/// is no request that holds under it; then nothing is sent, and only the remote of
/// a channel that is not guarded changes.
pub proof fn lemma_other_stun_is_not_replied(
    st: Recv,
    pkt: Seq<u8>,
    peer: Endpoint,
    now: u64,
    now_ntp_mid: u32,
)
    requires
        stun::is_stun_message(pkt),
        st.cfg.icepwd.len() == 0 || !stun::is_answerable(pkt, st.cfg.icepwd, false),
    ensures
        ({
            let (after, todo) = st.received(pkt, peer, now, now_ntp_mid);
            &&& todo.reply is None && todo.dtls is None && !todo.accounted && todo.jitter is None
            &&& after == (Recv { cfg: after.cfg, ..st })
            &&& after.cfg == (crate::recv_loop::packet::Cfg {
                remote: after.cfg.remote,
                ..st.cfg
            })
        }),
{
}

/// A DTLS record, by its first byte, is handed to the handshake as it is, and is
/// nothing else. On a secure relay leg the remote follows it until there are keys.
pub proof fn lemma_dtls_is_handed_on(
    st: Recv,
    pkt: Seq<u8>,
    peer: Endpoint,
    now: u64,
    now_ntp_mid: u32,
)
    requires
        pkt.len() > 0,
        20 <= pkt[0] <= 63,
        !stun::is_stun_message(pkt),
    ensures
        ({
            let (after, todo) = st.received(pkt, peer, now, now_ntp_mid);
            let guarded = st.cfg.relay is Some && st.hub.legs[st.cfg.relay->0.own].secure;
            &&& todo.dtls == Some(pkt)
            &&& todo.reply is None && !todo.accounted && todo.jitter is None
            &&& after == (Recv { cfg: after.cfg, ..st })
            &&& after.cfg == (crate::recv_loop::packet::Cfg {
                remote: if guarded && st.cfg.keys is Some {
                    st.cfg.remote
                } else {
                    Some(peer)
                },
                ..st.cfg
            })
        }),
{
}

/// An RTP packet on a channel that is no relay leg is counted and accounted by its
/// SSRC, number and timestamp, and goes to the jitter buffer: its bytes, up to
/// 1500 of them.
pub proof fn lemma_audio_is_buffered(
    st: Recv,
    pkt: Seq<u8>,
    peer: Endpoint,
    now: u64,
    now_ntp_mid: u32,
)
    requires
        st.cfg.relay is None,
        pkt.len() >= 12,
        128 <= pkt[0] <= 191,
        !(200 <= pkt[1] <= 204),
    ensures
        ({
            let (after, todo) = st.received(pkt, peer, now, now_ntp_mid);
            &&& todo.reply is None && todo.dtls is None && todo.accounted
            &&& todo.jitter matches Some(p) && p.is_prefix_of(pkt) && p.len() == if pkt.len()
                <= 1500 {
                pkt.len() as int
            } else {
                1500
            }
            &&& after == (Recv { cfg: after.cfg, ..st })
            &&& after.cfg == (crate::recv_loop::packet::Cfg {
                remote: Some(peer),
                in_count: st.cfg.in_count.wrapping_add(1),
                rx: st.cfg.rx.heard(
                    word_at(pkt, 8) as u32,
                    half_at(pkt, 2) as u16,
                    word_at(pkt, 4) as u32,
                    now,
                ),
                ..st.cfg
            })
        }),
{
    assert(!stun::is_stun_message(pkt));
    lemma_header_fields(pkt);
    lemma_packet_is_cut(pkt);
}

/// A datagram that is none of these and too short for RTP is let be.
pub proof fn lemma_short_is_ignored(
    st: Recv,
    pkt: Seq<u8>,
    peer: Endpoint,
    now: u64,
    now_ntp_mid: u32,
)
    requires
        pkt.len() == 0 || (pkt.len() < 12 && !(20 <= pkt[0] <= 63) && !is_control_byte_pair(pkt)),
    ensures
        ({
            let (after, todo) = st.received(pkt, peer, now, now_ntp_mid);
            &&& todo.reply is None && todo.dtls is None && !todo.accounted && todo.jitter is None
            &&& after == (Recv { cfg: after.cfg, ..st })
            &&& after.cfg == (crate::recv_loop::packet::Cfg {
                remote: after.cfg.remote,
                ..st.cfg
            })
        }),
{
}

/// Reports on a channel without protection are accounted, item by item where the
/// datagram reads as a compound, and not at all where it does not; on a relay leg
/// and on any other.
pub proof fn lemma_clear_reports_are_accounted(
    st: Recv,
    pkt: Seq<u8>,
    peer: Endpoint,
    now: u64,
    now_ntp_mid: u32,
)
    requires
        pkt.len() >= 2,
        128 <= pkt[0] <= 191,
        200 <= pkt[1] <= 204,
        st.cfg.keys is None,
        st.rtcp_log is None,
    ensures
        ({
            let after = st.received(pkt, peer, now, now_ntp_mid).0.cfg;
            match parsed(pkt) {
                Ok(items) => (after.rx, after.report) == accounted(
                    st.cfg.rx,
                    st.cfg.report,
                    items,
                    st.cfg.local_ssrc,
                    now,
                    now_ntp_mid,
                ),
                Err(_) => after.rx == st.cfg.rx && after.report == st.cfg.report,
            }
        }),
{
    assert(!stun::is_stun_message(pkt));
}

/// Reports on a channel with keys are accounted by what they hold in the clear, and
/// not at all where they do not open.
pub proof fn lemma_protected_reports_are_accounted(
    st: Recv,
    pkt: Seq<u8>,
    peer: Endpoint,
    now: u64,
    now_ntp_mid: u32,
)
    requires
        pkt.len() >= 2,
        128 <= pkt[0] <= 191,
        200 <= pkt[1] <= 204,
        st.with_rtcp_context().rtcp_log is Some,
    ensures
        ({
            let after = st.received(pkt, peer, now, now_ntp_mid).0.cfg;
            match st.with_rtcp_context().rtcp_opened(pkt).1 {
                Some(plain) => match parsed(plain) {
                    Ok(items) => (after.rx, after.report) == accounted(
                        st.cfg.rx,
                        st.cfg.report,
                        items,
                        st.cfg.local_ssrc,
                        now,
                        now_ntp_mid,
                    ),
                    Err(_) => after.rx == st.cfg.rx && after.report == st.cfg.report,
                },
                None => after.rx == st.cfg.rx && after.report == st.cfg.report,
            }
        }),
{
    assert(!stun::is_stun_message(pkt));
}

/// What an RTP packet on a secure relay leg opens to is handed to every other leg of
/// the group and to no other, and the leg counts it as accepted. What does not open
/// reaches nobody, and is counted as failed, or as too early before there are keys.
pub proof fn lemma_secure_media_is_handed_on(
    st: Recv,
    pkt: Seq<u8>,
    peer: Endpoint,
    now: u64,
    now_ntp_mid: u32,
    k: u64,
)
    requires
        st.cfg.relay is Some,
        st.hub.legs.contains_key(st.cfg.relay->0.own),
        st.hub.legs[st.cfg.relay->0.own].secure,
        12 <= pkt.len(),
        128 <= pkt[0] <= 191,
        !(200 <= pkt[1] <= 206),
        st.hub.legs.contains_key(k),
        k != st.cfg.relay->0.own,
    ensures
        ({
            let own = st.cfg.relay->0.own;
            let (after, todo) = st.received(pkt, peer, now, now_ntp_mid);
            let (old, new) = (st.hub.legs[k], after.hub.legs[k]);
            let (c, d) = (st.hub.legs[own].counters, after.hub.legs[own].counters);
            let counted = crate::relay::leg::RelayCounters {
                in_count: c.in_count.wrapping_add(1),
                ..c
            };
            &&& todo.reply is None && todo.dtls is None && todo.jitter is None
            &&& after.cfg.in_count == st.cfg.in_count.wrapping_add(1)
            &&& match st.rtp_opened(pkt).1 {
                Some(plain) => {
                    let frame = Frame { src: own, pts: st.hub.legs[own].pts, pkt: plain };
                    &&& !st.hub.peers(own, k) ==> new == old
                    &&& st.hub.peers(own, k) && old.queue.len() < old.depth ==> new == (Leg {
                        queue: old.queue.push(frame),
                        ..old
                    })
                    &&& st.hub.peers(own, k) && old.queue.len() >= old.depth ==> new.queue
                        == old.queue && new.counters.dropped == old.counters.dropped.wrapping_add(1)
                    &&& d == (crate::relay::leg::RelayCounters {
                        accepted: c.accepted.wrapping_add(1),
                        ..counted
                    })
                    &&& todo.accounted == st.hub.legs[own].pts.declares((plain[1] % 128) as u8)
                    &&& todo.accounted ==> after.cfg.rx == st.cfg.rx.heard(
                        ssrc_of(plain),
                        sequence_of(plain),
                        timestamp_of(plain),
                        now,
                    )
                    &&& !todo.accounted ==> after.cfg.rx == st.cfg.rx
                },
                None => {
                    &&& new == old
                    &&& !todo.accounted && after.cfg.rx == st.cfg.rx
                    &&& st.cfg.keys is None && st.rtp_log is None ==> d == (
                    crate::relay::leg::RelayCounters {
                        prekey_dropped: c.prekey_dropped.wrapping_add(1),
                        ..counted
                    })
                    &&& st.rtp_log is Some && st.rtp_gate is Some ==> d == (
                    crate::relay::leg::RelayCounters {
                        decrypt_failed: c.decrypt_failed.wrapping_add(1),
                        ..counted
                    })
                },
            }
        }),
{
    assert(!stun::is_stun_message(pkt));
}

} // verus!
