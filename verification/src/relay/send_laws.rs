//! What leaves a relay leg, byte by byte, and how it relates to what came in.
use vstd::prelude::*;

use crate::dtls_session::SrtpKeyingMaterial;
use crate::relay::hub::Hub;
use crate::relay::hub_laws::{lemma_peers_are_together, together};
use crate::relay::leg::{Frame, Leg, RelayCounters};
use crate::relay::member_laws::lemma_members_are_forwarded;
use crate::relay::outbound::{routes_of, MAX_SOURCES};
use crate::relay::return_laws::lemma_stamped_maps_back;
use crate::relay::routing::route_of;
use crate::relay::send::{
    lemma_forwarded_media_is_untouched, restamped, rtcp_sealed, sent_entries, Sending,
};
use crate::relay::seq_map::Numbering;
use crate::rtcp_laws::{half_at, lemma_big_endian, word_at};
use crate::rtp::{clipped, payload_type_of, sequence_of, ssrc_of, timestamp_of};
use crate::srtp::sealed_rtp;

verus! {

/// The fields of the fixed header stand where RFC 3550 has them.
pub proof fn lemma_header_fields(pkt: Seq<u8>)
    requires
        pkt.len() >= 12,
    ensures
        payload_type_of(pkt) == pkt[1] % 128,
        sequence_of(pkt) == half_at(pkt, 2),
        timestamp_of(pkt) == word_at(pkt, 4),
        ssrc_of(pkt) == word_at(pkt, 8),
{
    lemma_big_endian(pkt, 2, 0, 0);
    lemma_big_endian(pkt, 4, 0, 0);
    lemma_big_endian(pkt, 8, 0, 0);
}

/// A packet keeps its bytes, up to 1500 of them.
pub proof fn lemma_packet_is_cut(s: Seq<u8>)
    ensures
        s.len() <= 1500 ==> clipped(s) == s,
        s.len() > 1500 ==> clipped(s).len() == 1500 && clipped(s).is_prefix_of(s),
{
}

/// A packet under another identity differs in its payload type, its number and its
/// SSRC, and in no other bit.
pub proof fn lemma_restamp_layout(pkt: Seq<u8>, ssrc: u32, seq: u16, pt: u8)
    requires
        pkt.len() >= 12,
        pt < 128,
    ensures
        ({
            let r = restamped(pkt, ssrc, seq, pt);
            &&& r.len() == pkt.len()
            &&& r[0] == pkt[0]
            &&& r[1] == pkt[1] / 128 * 128 + pt
            &&& half_at(r, 2) == seq
            &&& word_at(r, 4) == word_at(pkt, 4)
            &&& word_at(r, 8) == ssrc
            &&& r.skip(12) == pkt.skip(12)
        }),
{
    let r = restamped(pkt, ssrc, seq, pt);
    lemma_forwarded_media_is_untouched(pkt, ssrc, seq, pt);
    lemma_header_fields(r);
    lemma_header_fields(pkt);
    assert(r.skip(12) =~= pkt.skip(12));
}

/// A frame of a member of the group, under a payload type that the leg has one for,
/// goes out of a clear leg with a remote: with its media untouched, under that
/// payload type, and under an SSRC and a number by which the leg finds its source,
/// the source's SSRC and the source's number again.
pub proof fn lemma_member_goes_out(
    s: Sending,
    own: u64,
    keys: Option<SrtpKeyingMaterial>,
    frame: Frame,
    now: u64,
    pt: u8,
)
    requires
        s.hub.inv(),
        s.out.inv(),
        s.out.sources.len() < MAX_SOURCES,
        s.hub.in_step(own, s.out),
        s.hub.legs[own].routes == routes_of(s.out.sources),
        !s.hub.legs[own].secure,
        s.log is None,
        frame.src != own,
        together(s.hub, own, frame.src),
        12 <= frame.pkt.len(),
        s.hub.legs[own].pts.mapped(frame.pts, payload_type_of(frame.pkt)) == Some(pt),
        pt < 128,
    ensures
        ({
            let (after, sent) = s.forwarding(own, true, keys, frame, now);
            &&& sent matches Some(p) && {
                &&& p.len() == frame.pkt.len()
                &&& p[0] == frame.pkt[0]
                &&& p[1] == frame.pkt[1] / 128 * 128 + pt
                &&& word_at(p, 4) == word_at(frame.pkt, 4)
                &&& p.skip(12) == frame.pkt.skip(12)
                &&& route_of(after.hub.legs[own].routes, ssrc_of(p)) matches Some(r) && {
                    &&& r.src == frame.src
                    &&& r.src_ssrc == word_at(frame.pkt, 8)
                    &&& r.pt == Some(pt)
                    &&& (half_at(p, 2) - r.offset - half_at(frame.pkt, 2)) % 0x1_0000 == 0
                }
            }
            &&& after.hub.groups == s.hub.groups
            &&& after.hub.legs[own].counters == s.hub.legs[own].counters
        }),
{
    let leg = s.hub.legs[own];
    lemma_peers_are_together(s.hub, own, frame.src);
    let (ssrc, seq) = (ssrc_of(frame.pkt), sequence_of(frame.pkt));
    lemma_members_are_forwarded(s.out, s.hub, own, frame.src, ssrc, seq, pt, now);
    lemma_stamped_maps_back(s.out, leg, true, frame.src, ssrc, seq, pt, now);
    let st = crate::relay::stamp::stamped(
        s.out,
        leg,
        true,
        frame.src,
        ssrc,
        seq,
        pt,
        now,
    );
    assert(s.hub.members_of(own).contains(frame.src));
    let (x, n) = st.stamp.unwrap();
    lemma_restamp_layout(frame.pkt, x, n, pt);
    lemma_header_fields(frame.pkt);
    lemma_header_fields(restamped(frame.pkt, x, n, pt));
}

/// What a secure leg with a context sends is what it would send in the clear,
/// sealed; and what it keeps of it is the same.
pub proof fn lemma_secure_leg_seals(
    s: Sending,
    own: u64,
    remote: bool,
    keys: Option<SrtpKeyingMaterial>,
    frame: Frame,
    now: u64,
)
    requires
        s.hub.legs.contains_key(own),
        s.hub.legs[own].secure,
        s.log is Some,
    ensures
        ({
            let leg = Leg { secure: false, ..s.hub.legs[own] };
            let clear = Sending {
                hub: Hub { legs: s.hub.legs.insert(own, leg), ..s.hub },
                log: None,
                ..s
            };
            let (after, sent) = s.forwarding(own, remote, keys, frame, now);
            let (open, plain) = clear.forwarding(own, remote, keys, frame, now);
            &&& sent == match plain {
                Some(p) => sealed_rtp(s.log->0, p),
                None => None,
            }
            &&& after.out == open.out
        }),
{
    let leg = Leg { secure: false, ..s.hub.legs[own] };
    let clear = Sending {
        hub: Hub { legs: s.hub.legs.insert(own, leg), ..s.hub },
        log: None,
        ..s
    };
    assert(clear.hub.members_of(own) == s.hub.members_of(own));
}

/// Without a remote nothing is sent, and nothing changes.
pub proof fn lemma_no_remote_no_packet(
    s: Sending,
    own: u64,
    keys: Option<SrtpKeyingMaterial>,
    frame: Frame,
    now: u64,
)
    ensures
        s.forwarding(own, false, keys, frame, now) == (s, None::<Seq<u8>>),
{
}

/// A frame that the leg has no payload type for is counted, and is all that is.
pub proof fn lemma_unmapped_is_counted(
    s: Sending,
    own: u64,
    keys: Option<SrtpKeyingMaterial>,
    frame: Frame,
    now: u64,
)
    requires
        s.hub.legs.contains_key(own),
        s.hub.legs[own].secure ==> s.log is Some,
        s.hub.legs[own].pts.mapped(frame.pts, payload_type_of(frame.pkt)) is None,
    ensures
        ({
            let (after, sent) = s.forwarding(own, true, keys, frame, now);
            let (c, d) = (s.hub.legs[own].counters, after.hub.legs[own].counters);
            &&& sent is None
            &&& d == (RelayCounters { pt_dropped: c.pt_dropped.wrapping_add(1), ..c })
            &&& after.hub.legs == s.hub.legs.insert(
                own,
                Leg { counters: d, ..s.hub.legs[own] },
            )
            &&& after.out == s.out && after.log == s.log
        }),
{
}

/// RTCP of a clear leg goes out as it is; of a NACK, the first 255 entries do, and
/// all where there are no more.
pub proof fn lemma_control_goes_out(
    keys: Option<SrtpKeyingMaterial>,
    log: Option<Seq<(u8, Seq<u8>)>>,
    pkt: Seq<u8>,
    fci: Seq<(u16, u16)>,
)
    ensures
        rtcp_sealed(false, keys, log, pkt) == (log, Some(pkt)),
        sent_entries(fci).is_prefix_of(fci),
        fci.len() <= 255 ==> sent_entries(fci).len() == fci.len(),
        fci.len() > 255 ==> sent_entries(fci).len() == 255,
{
}

/// A stream that continued a series keeps its first number while it is fewer than
/// 0x4000 past it, and then forgets it; one that did not has none.
pub proof fn lemma_first_number(h: u16, first: u16, later: u16)
    requires
        later.wrapping_sub(first) < 0x7FFF,
    ensures
        Numbering::continuing(Some(h)).mapped(first).base == Some(h.wrapping_add(1)),
        Numbering::continuing(Some(h)).mapped(first).mapped(later).base == if later.wrapping_sub(
            first,
        ) < 0x4000 {
            Some(h.wrapping_add(1))
        } else {
            None
        },
        Numbering::continuing(None).mapped(first).mapped(later).base is None,
{
}

} // verus!
