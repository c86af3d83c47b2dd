//! The sending side of a relay leg: what goes out to its remote, and when.
//!
//! One context serves RTP and RTCP alike, so one task owns all that a leg
//! sends.
use vstd::prelude::*;
use webrtc_srtp::context::Context;

use crate::dtls_session::{local_srtp_params, SrtpKeyingMaterial};
use crate::relay::feedback::{build_nack, build_pli};
use crate::relay::feedback::{lemma_entry_bytes, nack_bytes, pli_bytes};
use crate::relay::hub::Hub;
use crate::relay::hub::RelayHub;
use crate::relay::leg::Frame;
use crate::relay::leg::{RelayCounters, RelayFrame};
use crate::relay::nack::NackReq;
use crate::relay::outbound::Out;
use crate::relay::outbound::{Outbound, MAX_SOURCES};
use crate::relay::stamp::stamped;
use crate::rtp::{payload_type_of, sequence_of, ssrc_of};
use crate::rtp::{timestamp_of, RTP_FIXED_HEADER_LEN};
use crate::srtp::{bytes_of, encrypted_rtcp, log_after_sealing, new_log, sealed_rtp, slot_log};
use crate::srtp::{is_control, is_datagram, is_sealable, protects_rtcp, protects_rtp};
use crate::srtp::{LOG_ENCRYPT_RTCP, LOG_LIMIT};
use crate::srtp::{encrypt_rtcp, encrypt_rtp, new_context};
use crate::wire::{bytes16, bytes32, overwrite};
use crate::wire::{lemma_be32_of_bytes32, lemma_bytes32_len};
use vstd::slice::slice_to_vec;

verus! {

/// The most entries of one NACK to a remote.
pub const MAX_SENT_FCI: usize = 255;

/// The log of an outbound context: what it is, where there is one; else that
/// of a new one, once there are keys of the lengths that the profile has.
pub open spec fn outbound_log(
    log: Option<Seq<(u8, Seq<u8>)>>,
    keys: Option<SrtpKeyingMaterial>,
) -> Option<Seq<(u8, Seq<u8>)>> {
    match (log, keys) {
        (Some(_), _) => log,
        (None, Some(k)) => if k.local_key().len() == k.profile.spec_key_len()
            && k.local_salt().len() == k.profile.spec_salt_len() {
            Some(new_log(k.local_key(), k.local_salt(), k.profile))
        } else {
            None
        },
        (None, None) => None,
    }
}

/// Builds a leg's outbound context once there are keys. Nothing happens when
/// there is one already.
pub fn maybe_build_encrypt(keys: &Option<SrtpKeyingMaterial>, slot: &mut Option<Context>)
    ensures
        slot_log(*final(slot)) == outbound_log(slot_log(*old(slot)), *keys),
        *old(slot) is Some ==> *final(slot) == *old(slot),
{
    if slot.is_some() {
        return;
    }
    if let Some(k) = keys {
        let (key, salt, profile) = local_srtp_params(k);
        if let Some(ctx) = new_context(key, salt, profile) {
            *slot = Some(ctx);
        }
    }
}

/// A packet under another SSRC, sequence number and payload type.
pub open spec fn restamped(pkt: Seq<u8>, ssrc: u32, seq: u16, pt: u8) -> Seq<u8> {
    let moved = overwrite(overwrite(pkt, 8, bytes32(ssrc)), 2, bytes16(seq));
    moved.update(1, (moved[1] / 128 * 128 + pt % 128) as u8)
}

/// What the sending side of a leg changes.
pub struct Sending {
    pub hub: Hub,
    pub out: Out,
    /// The log of the outbound context, where there is one.
    pub log: Option<Seq<(u8, Seq<u8>)>>,
}

/// The state that these values are in.
pub open spec fn sending(hub: RelayHub, out: Outbound, encrypt: Option<Context>) -> Sending {
    Sending { hub: hub@, out: out@, log: slot_log(encrypt) }
}

impl Sending {
    /// The leg has an outbound context where it needs one.
    pub open spec fn ready(self, own: u64, keys: Option<SrtpKeyingMaterial>) -> Sending {
        Sending {
            log: if self.hub.legs[own].secure {
                outbound_log(self.log, keys)
            } else {
                self.log
            },
            ..self
        }
    }

    /// A packet is encrypted where there is a context.
    pub open spec fn sealing(self, pkt: Seq<u8>) -> (Sending, Option<Seq<u8>>) {
        match self.log {
            Some(log) => (
                Sending { log: Some(log_after_sealing(log, pkt)), ..self },
                sealed_rtp(log, pkt),
            ),
            None => (self, Some(pkt)),
        }
    }

    /// A packet gets the identity that its source has on this leg.
    pub open spec fn stamping(self, own: u64, frame: Frame, pt: u8, now: u64) -> (
        Sending,
        Option<Seq<u8>>,
    ) {
        let s = stamped(
            self.out,
            self.hub.legs[own],
            self.hub.members_of(own).contains(frame.src),
            frame.src,
            ssrc_of(frame.pkt),
            sequence_of(frame.pkt),
            pt,
            now,
        );
        let next = Sending {
            hub: Hub { legs: self.hub.legs.insert(own, s.leg), ..self.hub },
            out: s.out,
            ..self
        };
        (
            next,
            match s.stamp {
                Some((ssrc, seq)) => Some(restamped(frame.pkt, ssrc, seq, pt)),
                None => None,
            },
        )
    }

    /// A frame is for the remote of a leg: what is to go out, before it is
    /// encrypted. Nothing while there is no remote, and nothing on a secure leg
    /// without a context. A payload type that the leg has no counterpart for is
    /// dropped before the packet leaves a trace.
    pub open spec fn outgoing(
        self,
        own: u64,
        remote: bool,
        keys: Option<SrtpKeyingMaterial>,
        frame: Frame,
        now: u64,
    ) -> (Sending, Option<Seq<u8>>) {
        let leg = self.hub.legs[own];
        let next = self.ready(own, keys);
        if !remote {
            (self, None)
        } else if leg.secure && next.log is None {
            (next, None)
        } else {
            match leg.pts.mapped(frame.pts, payload_type_of(frame.pkt)) {
                Some(pt) => next.stamping(own, frame, pt, now),
                None => (
                    Sending {
                        hub: self.hub.with_counters(
                            own,
                            RelayCounters {
                                pt_dropped: leg.counters.pt_dropped.wrapping_add(1),
                                ..leg.counters
                            },
                        ),
                        ..next
                    },
                    None,
                ),
            }
        }
    }
}

impl Sending {
    /// A frame is forwarded to the remote of a leg: what is then sent.
    pub open spec fn forwarding(
        self,
        own: u64,
        remote: bool,
        keys: Option<SrtpKeyingMaterial>,
        frame: Frame,
        now: u64,
    ) -> (Sending, Option<Seq<u8>>) {
        let (next, pkt) = self.outgoing(own, remote, keys, frame, now);
        match pkt {
            Some(p) => next.sealing(p),
            None => (next, None),
        }
    }
}

/// What of RTCP is sent, and the log of the outbound context then: on a secure
/// leg it is encrypted, and not sent while there is no context.
pub open spec fn rtcp_sealed(
    secure: bool,
    keys: Option<SrtpKeyingMaterial>,
    log: Option<Seq<(u8, Seq<u8>)>>,
    pkt: Seq<u8>,
) -> (Option<Seq<(u8, Seq<u8>)>>, Option<Seq<u8>>) {
    if secure {
        match outbound_log(log, keys) {
            Some(l) => (Some(l.push((LOG_ENCRYPT_RTCP, pkt))), encrypted_rtcp(l, pkt)),
            None => (None, None),
        }
    } else {
        (log, Some(pkt))
    }
}

/// Protects RTCP for the remote of a leg. It succeeds where there is a context,
/// or none is needed.
fn seal_rtcp(
    secure: bool,
    keys: &Option<SrtpKeyingMaterial>,
    encrypt: &mut Option<Context>,
    pkt: Vec<u8>,
) -> (r: Option<Vec<u8>>)
    ensures
        (slot_log(*final(encrypt)), bytes_of(r)) == rtcp_sealed(
            secure,
            *keys,
            slot_log(*old(encrypt)),
            pkt@,
        ),
        is_control(pkt@) && (secure ==> outbound_log(slot_log(*old(encrypt)), *keys) is Some)
            ==> r is Some,
        secure && r is Some ==> protects_rtcp(
            outbound_log(slot_log(*old(encrypt)), *keys)->0,
            pkt@,
            bytes_of(r),
        ),
{
    if !secure {
        return Some(pkt);
    }
    maybe_build_encrypt(keys, encrypt);
    match encrypt {
        Some(ctx) => encrypt_rtcp(ctx, pkt.as_slice()),
        None => None,
    }
}

/// What to send to the remote of a leg for one frame; `None` for nothing.
/// `remote` says whether there is a remote. Nothing is sent in the clear before
/// the handshake of a secure leg is done.
pub fn forward(
    hub: &mut RelayHub,
    own: u64,
    remote: bool,
    keys: &Option<SrtpKeyingMaterial>,
    encrypt: &mut Option<Context>,
    out: &mut Outbound,
    frame: RelayFrame,
    now: u64,
) -> (r: Option<Vec<u8>>)
    requires
        old(hub)@.inv(),
        old(hub)@.legs.contains_key(own),
        old(out)@.inv(),
        old(out)@.sources.len() < MAX_SOURCES,
        frame.pkt.inv(),
    ensures
        (sending(*final(hub), *final(out), *final(encrypt)), bytes_of(r)) == sending(
            *old(hub),
            *old(out),
            *old(encrypt),
        ).forwarding(own, remote, *keys, frame@, now),
        ({
            let (next, pkt) = sending(*old(hub), *old(out), *old(encrypt)).outgoing(
                own,
                remote,
                *keys,
                frame@,
                now,
            );
            &&& pkt is Some && next.log is None ==> r is Some
            &&& pkt is Some && next.log is Some && next.log->0.len() < LOG_LIMIT && is_sealable(
                pkt->0,
            ) && is_datagram(pkt->0) ==> r is Some
            &&& pkt is Some && next.log is Some ==> protects_rtp(
                next.log->0,
                pkt->0,
                bytes_of(r),
            )
        }),
        final(out)@.inv(),
        final(out)@.sources.len() <= old(out)@.sources.len() + 1,
        final(hub)@.inv(),
{
    if !remote {
        return None;
    }
    let ghost before = sending(*old(hub), *old(out), *old(encrypt));
    let secure = match hub.leg(own) {
        Some(leg) => leg.is_secure(),
        None => false,
    };
    if secure {
        maybe_build_encrypt(keys, encrypt);
        if encrypt.is_none() {
            return None;
        }
    }
    let ghost ready = before.ready(own, *keys);
    assert(sending(*hub, *out, *encrypt) == ready);
    let mut pkt = frame.pkt;
    let mapped: Option<u8> = match hub.leg(own) {
        Some(leg) => leg.pts().map_from(&frame.src_pts, pkt.payload_type()),
        None => None,
    };
    let pt: u8 = match mapped {
        Some(pt) => pt,
        None => {
            if let Some(leg) = hub.leg(own) {
                let c: RelayCounters = leg.snapshot();
                hub.set_counters(
                    own,
                    RelayCounters { pt_dropped: c.pt_dropped.wrapping_add(1), ..c },
                );
            }
            return None;
        },
    };
    match out.stamp(hub, own, frame.src, pkt.ssrc(), pkt.sequence_number(), pt, now) {
        Some((ssrc, seq)) => {
            let ghost bytes = pkt@;
            pkt.set_ssrc(ssrc);
            pkt.set_sequence_number(seq);
            pkt.set_payload_type(pt);
            assert(pkt@ == restamped(bytes, ssrc, seq, pt));
            match encrypt {
                Some(ctx) => encrypt_rtp(ctx, pkt.as_slice()),
                None => Some(slice_to_vec(pkt.as_slice())),
            }
        },
        // A straggler of a source that has left.
        None => None,
    }
}

/// Counts a packet that was sent to the remote of a leg.
pub fn count_sent(hub: &mut RelayHub, own: u64)
    requires
        old(hub)@.inv(),
        old(hub)@.legs.contains_key(own),
    ensures
        final(hub)@ == old(hub)@.with_counters(
            own,
            RelayCounters {
                out_count: old(hub)@.legs[own].counters.out_count.wrapping_add(1),
                ..old(hub)@.legs[own].counters
            },
        ),
        final(hub)@.inv(),
{
    if let Some(leg) = hub.leg(own) {
        let c: RelayCounters = leg.snapshot();
        hub.set_counters(own, RelayCounters { out_count: c.out_count.wrapping_add(1), ..c });
    }
}

/// The entries of a NACK that are sent.
pub open spec fn sent_entries(fci: Seq<(u16, u16)>) -> Seq<(u16, u16)> {
    if fci.len() <= MAX_SENT_FCI {
        fci
    } else {
        fci.take(MAX_SENT_FCI as int)
    }
}

/// What to send to the remote of a leg to ask it for packets again; `None` for
/// nothing. `ssrc` is the leg's own. Entries beyond `MAX_SENT_FCI` are not
/// asked for.
pub fn send_nack(
    ssrc: u32,
    secure: bool,
    remote: bool,
    keys: &Option<SrtpKeyingMaterial>,
    encrypt: &mut Option<Context>,
    req: &NackReq,
) -> (r: Option<Vec<u8>>)
    ensures
        (slot_log(*final(encrypt)), bytes_of(r)) == if remote {
            rtcp_sealed(
                secure,
                *keys,
                slot_log(*old(encrypt)),
                nack_bytes(ssrc, req.media_ssrc, sent_entries(req.fci@)),
            )
        } else {
            (slot_log(*old(encrypt)), None)
        },
        secure && r is Some ==> protects_rtcp(
            outbound_log(slot_log(*old(encrypt)), *keys)->0,
            nack_bytes(ssrc, req.media_ssrc, sent_entries(req.fci@)),
            bytes_of(r),
        ),
        r is Some == (remote && (secure ==> outbound_log(slot_log(*old(encrypt)), *keys) is Some)),
{
    if !remote {
        return None;
    }
    let mut fci: Vec<(u16, u16)> = Vec::new();
    let mut i: usize = 0;
    while i < req.fci.len() && i < MAX_SENT_FCI
        invariant
            i <= req.fci@.len(),
            i <= MAX_SENT_FCI,
            fci@ == req.fci@.take(i as int),
        decreases req.fci@.len() - i,
    {
        fci.push(req.fci[i]);
        assert(fci@ =~= req.fci@.take(i + 1));
        i += 1;
    }
    assert(req.fci@.len() <= MAX_SENT_FCI ==> fci@ =~= req.fci@);
    let clipped = NackReq { media_ssrc: req.media_ssrc, fci };
    let nack: Vec<u8> = build_nack(ssrc, &clipped);
    proof {
        lemma_entry_bytes(clipped.fci@);
        lemma_bytes32_len(ssrc);
        lemma_bytes32_len(req.media_ssrc);
        assert(is_control(nack@));
    }
    seal_rtcp(secure, keys, encrypt, nack)
}

/// What to send to the remote of a leg to ask it for a keyframe; `None` for
/// nothing. It is about the stream that is received, so nothing is sent until
/// there is one.
pub fn send_pli(
    ssrc: u32,
    secure: bool,
    remote: bool,
    media_ssrc: Option<u32>,
    keys: &Option<SrtpKeyingMaterial>,
    encrypt: &mut Option<Context>,
) -> (r: Option<Vec<u8>>)
    ensures
        (slot_log(*final(encrypt)), bytes_of(r)) == match media_ssrc {
            Some(media) if remote => rtcp_sealed(
                secure,
                *keys,
                slot_log(*old(encrypt)),
                pli_bytes(ssrc, media),
            ),
            _ => (slot_log(*old(encrypt)), None),
        },
        secure && r is Some ==> protects_rtcp(
            outbound_log(slot_log(*old(encrypt)), *keys)->0,
            pli_bytes(ssrc, media_ssrc->0),
            bytes_of(r),
        ),
        r is Some == (remote && media_ssrc is Some && (secure ==> outbound_log(
            slot_log(*old(encrypt)),
            *keys,
        ) is Some)),
{
    if !remote {
        return None;
    }
    match media_ssrc {
        Some(media) => {
            let pli: Vec<u8> = build_pli(ssrc, media);
            proof {
                lemma_bytes32_len(ssrc);
                lemma_bytes32_len(media);
                assert(is_control(pli@));
            }
            seal_rtcp(secure, keys, encrypt, pli)
        },
        None => None,
    }
}

/// A forwarded packet keeps its media: the timestamp, the marker, what follows
/// the fixed header, and the first byte. It goes out under the SSRC, number and
/// payload type that it is given.
pub proof fn lemma_forwarded_media_is_untouched(pkt: Seq<u8>, ssrc: u32, seq: u16, pt: u8)
    requires
        pkt.len() >= RTP_FIXED_HEADER_LEN,
    ensures
        ({
            let r = restamped(pkt, ssrc, seq, pt);
            &&& r.len() == pkt.len()
            &&& r[0] == pkt[0]
            &&& r[1] / 128 == pkt[1] / 128
            &&& timestamp_of(r) == timestamp_of(pkt)
            &&& forall|i: int| 12 <= i < pkt.len() ==> r[i] == pkt[i]
            &&& ssrc_of(r) == ssrc
            &&& sequence_of(r) == seq
            &&& payload_type_of(r) == pt % 128
        }),
{
    lemma_bytes32_len(ssrc);
    let r = restamped(pkt, ssrc, seq, pt);
    assert(r.subrange(8, 12) =~= bytes32(ssrc));
    lemma_be32_of_bytes32(r, 8, ssrc);
    reveal(crate::wire::be32);
    assert(r[4] == pkt[4] && r[5] == pkt[5] && r[6] == pkt[6] && r[7] == pkt[7]);
}

/// A secure leg without keys sends nothing: no media, no feedback.
pub proof fn lemma_nothing_leaves_before_keys(
    s: Sending,
    own: u64,
    remote: bool,
    frame: Frame,
    now: u64,
    rtcp: Seq<u8>,
)
    requires
        s.hub.legs[own].secure,
        s.log is None,
    ensures
        s.forwarding(own, remote, None, frame, now).1 is None,
        rtcp_sealed(true, None, s.log, rtcp).1 is None,
{
}

/// A packet under a payload type that the leg has no counterpart for leaves no
/// outbound state.
pub proof fn lemma_unmapped_leaves_no_trace(
    s: Sending,
    own: u64,
    remote: bool,
    keys: Option<SrtpKeyingMaterial>,
    frame: Frame,
    now: u64,
)
    requires
        s.hub.legs[own].pts.mapped(frame.pts, payload_type_of(frame.pkt)) is None,
    ensures
        s.forwarding(own, remote, keys, frame, now).0.out == s.out,
        s.forwarding(own, remote, keys, frame, now).1 is None,
{
}

} // verus!
