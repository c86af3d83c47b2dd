use projectrtp::relay::feedback::{
    build_nack, build_pli, keyframe_targets, parse_feedback, wants_keyframe,
};
use projectrtp::relay::hub::RelayHub;
use projectrtp::relay::leg::{RelayShared, StreamInfo, NACK_QUEUE_DEPTH};
use projectrtp::relay::nack::{clip_nack, NackLimiter, NackReq, NACK_DEDUPE_WINDOW};
use projectrtp::relay::outbound::{
    OutRoute, Outbound, MAIN_IDLE_TAKEOVER, MAX_STREAMS_PER_SOURCE,
};
use projectrtp::relay::pt_map::{PtMap, MAX_NAMED_CODECS};
use projectrtp::relay::routing::MAX_NACK_FCI;
use projectrtp::relay::seq_map::SeqMap;
use projectrtp::rtp::RtpPacket;

/// A fixed test clock: `t(ms)` is `ms` after an arbitrary origin.
fn t(ms: u64) -> u64 {
    5_000_000_000 + ms * 1_000_000
}

/// A hub with plain legs.
fn hub(ids: &[u64]) -> RelayHub {
    let mut h = RelayHub::new();
    for id in ids {
        h.add_leg(RelayShared::new(*id, 8, false, 96));
    }
    h
}

fn rtp(sn: u16) -> RtpPacket {
    RtpPacket::from_bytes(&[
        0x80,
        96,
        (sn >> 8) as u8,
        sn as u8,
        0,
        0,
        0,
        0,
        0,
        0,
        0,
        0x55,
        1,
        2,
        3,
        4,
    ])
}

/// Frames queued for a leg, as (source leg, sequence number).
fn drain(h: &mut RelayHub, id: u64) -> Vec<(u64, u16)> {
    let mut v = Vec::new();
    while let Some(f) = h.take_frame(id) {
        v.push((f.src, f.pkt.sequence_number()));
    }
    v
}

fn route(ssrc: u32, src: u64) -> OutRoute {
    OutRoute { ssrc, src, src_ssrc: 0, offset: 0, base: None, pt: None }
}

fn keyframe_asked(h: &mut RelayHub, id: u64) -> bool {
    h.take_pli(id)
}

fn nacks(h: &RelayHub, id: u64) -> Vec<NackReq> {
    h.leg(id).unwrap().nacks().clone()
}

fn req(media_ssrc: u32, fci: Vec<(u16, u16)>) -> NackReq {
    NackReq { media_ssrc, fci }
}

fn routes(h: &RelayHub, id: u64) -> Vec<OutRoute> {
    h.leg(id).unwrap().out_routes().clone()
}

fn routed_sources(h: &RelayHub, id: u64) -> Vec<u64> {
    let mut v: Vec<u64> = routes(h, id).iter().map(|r| r.src).collect();
    v.sort();
    v
}

#[test]
fn group_fans_out_to_every_other_member() {
    let mut h = hub(&[1, 2, 3, 4, 5]);
    assert!(h.join(1, 2));
    assert!(h.join(1, 3)); // extends the group, like the audio mix
    h.fan_out(1, rtp(10));
    h.fan_out(2, rtp(20));
    assert_eq!(drain(&mut h, 1), vec![(2, 20)]);
    assert_eq!(drain(&mut h, 2), vec![(1, 10)]);
    assert_eq!(drain(&mut h, 3), vec![(1, 10), (2, 20)]);
    // Same group again: fine. A leg in another group: refused.
    assert!(h.join(3, 2));
    assert!(h.join(4, 5));
    assert!(!h.join(1, 4));
    assert!(h.join(1, 1));
}

#[test]
fn leaving_stops_forwarding_both_ways_and_retires_the_source() {
    let mut h = hub(&[1, 2, 3]);
    assert!(h.join(1, 2));
    assert!(h.join(2, 3));
    h.leave_group(3);
    h.fan_out(1, rtp(1));
    h.fan_out(3, rtp(2));
    assert_eq!(drain(&mut h, 2), vec![(1, 1)]);
    assert!(drain(&mut h, 3).is_empty(), "forwarded into a leg that left");
    assert!(drain(&mut h, 1).is_empty(), "a leg that left still forwards");
    assert_eq!(*h.leg(1).unwrap().retired(), vec![3]);
    assert_eq!(*h.leg(2).unwrap().retired(), vec![3]);
    // The re-pairing case: join(A,B), B leaves, join(A,C): B's media must not
    // reach A.
    let mut h = hub(&[1, 2, 3]);
    assert!(h.join(1, 2));
    h.leave_group(2);
    assert!(h.join(1, 3));
    h.fan_out(2, rtp(7));
    h.fan_out(3, rtp(8));
    assert_eq!(drain(&mut h, 1), vec![(3, 8)]);
    // Rejoining clears the retirement so the rejoiner is not reaped.
    assert!(h.join(1, 2));
    assert!(!h.leg(1).unwrap().retired().contains(&2));
}

#[test]
fn fan_out_racing_a_leave_forwards_nothing() {
    let mut h = hub(&[1, 2, 3]);
    assert!(h.join(1, 2));
    assert!(h.join(1, 3));
    let group = h.find_group(1).unwrap(); // the group is looked up ...
    h.leave_group(1); // ... then the leave wins
    h.fan_out_to(group, 1, rtp(1));
    assert!(drain(&mut h, 2).is_empty(), "forwarded from a leg that left");
    assert!(drain(&mut h, 3).is_empty(), "forwarded from a leg that left");
}

#[test]
fn departed_source_is_reaped_without_a_new_source() {
    let mut h = hub(&[9, 1, 2]);
    assert!(h.join(9, 1));
    assert!(h.join(9, 2));
    let mut out = Outbound::new(0xAAAA);
    assert_eq!(out.stamp(&mut h, 9, 1, 0x11, 10, 96, t(0)), Some((0xAAAA, 10)));
    let (s2, _) = out.stamp(&mut h, 9, 2, 0x22, 20, 96, t(0)).unwrap();
    // A straggler from 2 queued before it left arrives after.
    h.leave_group(2);
    assert_eq!(out.stamp(&mut h, 9, 2, 0x22, 21, 96, t(0)), None);
    assert_eq!(out.stamp(&mut h, 9, 1, 0x11, 11, 96, t(0)), Some((0xAAAA, 11)));
    let got: Vec<(u32, u64)> = routes(&h, 9).iter().map(|r| (r.ssrc, r.src)).collect();
    assert_eq!(got, vec![(0xAAAA, 1)]);
    assert_eq!(out.source_count(), 1);
    assert!(out.is_free(s2));
    // And without a straggler: 1 leaves, the next packet (from 2, which
    // rejoined) reaps it.
    assert!(h.join(9, 2));
    h.leave_group(1);
    out.stamp(&mut h, 9, 2, 0x22, 22, 96, t(0));
    assert!(!routes(&h, 9).iter().any(|r| r.src == 1));
    assert!(!out.knows(1));
}

#[test]
fn straggler_after_reap_gets_no_new_source_entry() {
    let mut h = hub(&[9, 1, 2]);
    assert!(h.join(9, 1));
    assert!(h.join(9, 2));
    let mut out = Outbound::new(0xAAAA);
    out.stamp(&mut h, 9, 1, 0x11, 10, 96, t(0)).unwrap();
    out.stamp(&mut h, 9, 2, 0x22, 20, 96, t(0)).unwrap();
    h.leave_group(2);
    assert_eq!(out.stamp(&mut h, 9, 1, 0x11, 11, 96, t(0)), Some((0xAAAA, 11))); // reaps 2
    assert_eq!(out.stamp(&mut h, 9, 2, 0x22, 21, 96, t(0)), None, "b21 re-created b");
    assert_eq!(out.stamp(&mut h, 9, 2, 0x22, 22, 96, t(0)), None);
    assert_eq!(routed_sources(&h, 9), vec![1]);
    assert!(!out.knows(2));
}

#[test]
fn stragglers_from_departed_sources_in_a_three_party_group() {
    let mut h = hub(&[9, 1, 2, 3]);
    for l in [1, 2, 3] {
        assert!(h.join(9, l));
    }
    let mut out = Outbound::new(0xAAAA);
    out.stamp(&mut h, 9, 1, 0x11, 10, 96, t(0)).unwrap();
    out.stamp(&mut h, 9, 2, 0x22, 20, 96, t(0)).unwrap();
    // 3's first packet is still queued when 3 leaves; 2 leaves too.
    h.leave_group(3);
    h.leave_group(2);
    out.stamp(&mut h, 9, 1, 0x11, 11, 96, t(0)).unwrap(); // reaps 2 and 3
    assert_eq!(out.stamp(&mut h, 9, 3, 0x33, 30, 96, t(0)), None, "c created after leaving");
    assert_eq!(out.stamp(&mut h, 9, 2, 0x22, 21, 96, t(0)), None, "b re-created");
    out.stamp(&mut h, 9, 1, 0x11, 12, 96, t(0)).unwrap();
    assert_eq!(routed_sources(&h, 9), vec![1]);
    assert_eq!(out.source_count(), 1);
    // A source that rejoins is forwarded again.
    assert!(h.join(9, 2));
    assert!(out.stamp(&mut h, 9, 2, 0x22, 40, 96, t(0)).is_some());
    assert_eq!(routed_sources(&h, 9), vec![1, 2]);
}

#[test]
fn outbound_ssrc_per_source_and_reuse_after_leave() {
    let mut h = hub(&[9, 1, 2, 3, 4, 5]);
    for l in [1, 2, 3, 4] {
        assert!(h.join(9, l));
    }
    let mut out = Outbound::new(0xAAAA);
    // First source: the leg's own SSRC, sequence passed through.
    assert_eq!(out.stamp(&mut h, 9, 1, 0x11, 100, 96, t(0)), Some((0xAAAA, 100)));
    // Second source: a distinct SSRC of its own, own sequence space.
    let (s2, sn) = out.stamp(&mut h, 9, 2, 0x22, 5000, 96, t(0)).unwrap();
    assert!(s2 != 0xAAAA && s2 != 0);
    assert_eq!(sn, 5000);
    assert_eq!(out.stamp(&mut h, 9, 1, 0x11, 101, 96, t(0)), Some((0xAAAA, 101)));
    let mut map: Vec<(u32, u64)> = routes(&h, 9).iter().map(|r| (r.ssrc, r.src)).collect();
    map.sort();
    let mut want = vec![(0xAAAA, 1), (s2, 2)];
    want.sort();
    assert_eq!(map, want);
    // Source 1 leaves; the next new source inherits the leg's own SSRC and
    // continues its series (no reuse, no jump back).
    h.leave_group(1);
    assert_eq!(out.stamp(&mut h, 9, 3, 0x33, 7, 96, t(0)), Some((0xAAAA, 102)));
    assert_eq!(out.stamp(&mut h, 9, 3, 0x33, 9, 96, t(0)), Some((0xAAAA, 104)));
    assert!(!routes(&h, 9).iter().any(|r| r.src == 1));
    // Source 2 leaves; a new source reaps it and inherits its SSRC.
    h.leave_group(2);
    assert_eq!(out.stamp(&mut h, 9, 4, 0x44, 1, 96, t(0)), Some((s2, 5001)));
    // A source that is not (or no longer) a member gets nothing.
    assert_eq!(out.stamp(&mut h, 9, 5, 0x55, 1, 96, t(0)), None);
    assert_eq!(out.stamp(&mut h, 9, 2, 0x22, 5001, 96, t(0)), None);
}

#[test]
fn keyframe_request_routes_to_the_named_source() {
    let mut h = hub(&[1, 2, 3]);
    assert!(h.join(1, 2));
    assert!(h.join(1, 3));
    for l in [1, 2, 3] {
        keyframe_asked(&mut h, l); // clear the join-time requests
    }
    // 1 forwards 2 as 0xB0 and 3 as 0xC0.
    h.set_out_routes(1, vec![route(0xB0, 2), route(0xC0, 3)]);
    h.request_keyframe(1, &vec![0xC0]);
    assert!(keyframe_asked(&mut h, 3));
    assert!(!keyframe_asked(&mut h, 2));
    assert!(!keyframe_asked(&mut h, 1));
    // Unknown SSRC: ask every source rather than leave a frozen picture.
    h.request_keyframe(1, &vec![0xDEAD]);
    assert!(keyframe_asked(&mut h, 2) && keyframe_asked(&mut h, 3));
    h.request_keyframe(1, &vec![]);
    assert!(keyframe_asked(&mut h, 2) && keyframe_asked(&mut h, 3));
}

/// The SSRC of a source that has left still stands in the routes: it names
/// nobody that can be asked, so every source is.
#[test]
fn keyframe_request_for_a_stale_ssrc_asks_every_source() {
    let mut h = hub(&[1, 2, 3, 4]);
    for id in [2, 3, 4] {
        assert!(h.join(1, id));
    }
    h.set_out_routes(1, vec![route(0xB0, 2), route(0xC0, 3), route(0xD0, 4)]);
    h.leave_group(2);
    for id in [1, 2, 3, 4] {
        keyframe_asked(&mut h, id);
    }
    h.request_keyframe(1, &vec![0xB0]);
    assert!(!keyframe_asked(&mut h, 2), "a leg that left was asked");
    assert!(keyframe_asked(&mut h, 3) && keyframe_asked(&mut h, 4));
    // Beside one that is still there, the stale one asks nobody more.
    h.request_keyframe(1, &vec![0xB0, 0xC0]);
    assert!(keyframe_asked(&mut h, 3) && !keyframe_asked(&mut h, 4));
}

/// The generator never leaves zero from this primary SSRC; the streams of the
/// other sources get the lowest numbers that are free.
#[test]
fn every_source_gets_an_ssrc_of_its_own() {
    let mut h = hub(&[1, 2, 3, 4]);
    for id in [2, 3, 4] {
        assert!(h.join(1, id));
    }
    let mut out = Outbound::new(0x9E37_79B9);
    let mut given = Vec::new();
    for (src, ssrc) in [(2, 0xB2), (3, 0xC3), (4, 0xD4)] {
        given.push(out.stamp(&mut h, 1, src, ssrc, 0, 96, t(0)).unwrap().0);
    }
    assert_eq!(given, vec![0x9E37_79B9, 1, 2]);
}

#[test]
fn keyframe_targets_name_the_media_ssrcs() {
    let rr = [0x80u8, 201, 0, 1, 0, 0, 0, 1];
    let mut compound = rr.to_vec();
    compound.extend_from_slice(&build_pli(0x1, 0xB0));
    assert_eq!(keyframe_targets(&compound), Some(vec![0xB0]));
    // FIR: the FCI entries name the streams (two here).
    let fir = [
        0x84u8, 206, 0, 6, 0, 0, 0, 1, 0, 0, 0, 0, // header, media ssrc unused
        0, 0, 0, 0xB0, 1, 0, 0, 0, // FCI 1
        0, 0, 0, 0xC0, 1, 0, 0, 0, // FCI 2
    ];
    assert_eq!(keyframe_targets(&fir), Some(vec![0xB0, 0xC0]));
    // A NACK is not a keyframe request (it is passed through instead).
    assert_eq!(
        keyframe_targets(&[0x81, 205, 0, 3, 0, 0, 0, 1, 0, 0, 0, 0xC0, 0, 1, 0, 0]),
        None
    );
    assert_eq!(keyframe_targets(&rr), None);
}

#[test]
fn nack_passes_through_to_the_source_translated() {
    let mut h = hub(&[1, 2, 3]);
    assert!(h.join(1, 2));
    assert!(h.join(1, 3));
    for l in [1, 2, 3] {
        keyframe_asked(&mut h, l); // clear the join-time requests
    }
    // 1 forwards 2 and 3. 2's stream restarted under a new SSRC, so its
    // sequence numbers are offset on the way out.
    let mut out = Outbound::new(0xAAAA);
    assert_eq!(out.stamp(&mut h, 1, 2, 0xB1, 100, 96, t(0)), Some((0xAAAA, 100)));
    assert_eq!(out.stamp(&mut h, 1, 2, 0xB2, 7000, 96, t(1000)), Some((0xAAAA, 101)));
    let (c_out, c_sn) = out.stamp(&mut h, 1, 3, 0xC1, 40, 96, t(0)).unwrap();

    // The receiver NACKs 103 (+104, 106 via BLP) of 2's stream and 41 of 3's,
    // in one compound behind an RR, as a browser sends it.
    let mut compound = vec![0x80u8, 201, 0, 1, 0, 0, 0, 9];
    // 100 predates the restart
    compound.extend_from_slice(&build_nack(9, &req(0xAAAA, vec![(103, 0b101), (100, 0)])));
    compound.extend_from_slice(&build_nack(9, &req(c_out, vec![(c_sn.wrapping_add(1), 0)])));
    let fb = parse_feedback(&compound);
    assert_eq!(fb.keyframe, None, "a NACK must not become a keyframe request");
    h.on_feedback(1, &fb, t(0));

    assert_eq!(nacks(&h, 2), vec![req(0xB2, vec![(7002, 0b101)])]);
    assert_eq!(nacks(&h, 3), vec![req(0xC1, vec![(41, 0)])]);
    assert!(nacks(&h, 1).is_empty());
    for l in [1, 2, 3] {
        assert!(!keyframe_asked(&mut h, l), "NACK asked leg {l} for a keyframe");
    }
    // An SSRC we never sent is dropped, not broadcast.
    h.relay_nacks(1, &vec![(0xDEAD, vec![(1, 0)])], t(0));
    assert_eq!(nacks(&h, 2).len(), 1);
    assert_eq!(nacks(&h, 3).len(), 1);
}

#[test]
fn nack_long_after_a_rebase_is_still_relayed() {
    let mut h = hub(&[1, 2]);
    assert!(h.join(1, 2));
    let mut out = Outbound::new(0xAAAA);
    out.stamp(&mut h, 1, 2, 0xB1, 100, 96, t(0)).unwrap();
    out.stamp(&mut h, 1, 2, 0xB2, 7000, 96, t(1000)).unwrap(); // rebase: base = 101
    let mut last = (0, 0);
    for i in 1..=40_000u16 {
        last = out
            .stamp(&mut h, 1, 2, 0xB2, 7000u16.wrapping_add(i), 96, t(1000))
            .unwrap();
    }
    h.relay_nacks(1, &vec![(0xAAAA, vec![(last.1, 0)])], t(1000));
    assert_eq!(nacks(&h, 2), vec![req(0xB2, vec![(7000u16.wrapping_add(40_000), 0)])]);
}

#[test]
fn nack_entry_straddling_the_rebase_is_reanchored() {
    let mut h = hub(&[1, 2]);
    assert!(h.join(1, 2));
    let mut out = Outbound::new(0xAAAA);
    out.stamp(&mut h, 1, 2, 0xB1, 100, 96, t(0)).unwrap();
    assert_eq!(out.stamp(&mut h, 1, 2, 0xB2, 7000, 96, t(1000)), Some((0xAAAA, 101)));
    out.stamp(&mut h, 1, 2, 0xB2, 7010, 96, t(1000)).unwrap();
    // Asks for 99 (pid), 100 (bit 0), 101 (bit 1), 104 (bit 4): only 101 and
    // 104 are the new stream's (source 7000 and 7003).
    h.relay_nacks(1, &vec![(0xAAAA, vec![(99, 0b1_0011)])], t(1000));
    assert_eq!(nacks(&h, 2), vec![req(0xB2, vec![(7000, 0b100)])]);
    assert_eq!(clip_nack(99, 0b1, 101), None); // 99, 100: all old
    assert_eq!(clip_nack(99, 0b11, 101), Some((101, 0)));
    assert_eq!(clip_nack(101, 0b1, 101), Some((101, 0b1)));
    // Across the wrap: base 1, pid 65534 asks 65534, 65535, 2: (2, 0).
    assert_eq!(clip_nack(65534, 0b1001, 1), Some((2, 0)));
}

#[test]
fn nack_entries_relayed_per_compound_are_capped() {
    let mut h = hub(&[1, 2]);
    assert!(h.join(1, 2));
    let mut out = Outbound::new(0xAAAA);
    out.stamp(&mut h, 1, 2, 0xB1, 0, 96, t(0)).unwrap();
    let fci: Vec<(u16, u16)> = (0..255u16).map(|i| (i * 17, 0xFFFF)).collect();
    h.relay_nacks(1, &vec![(0xAAAA, fci.clone()), (0xAAAA, fci)], t(0));
    let entries: usize = nacks(&h, 2).iter().map(|r| r.fci.len()).sum();
    assert!(entries > 0 && entries <= MAX_NACK_FCI, "{entries} entries relayed");
}

#[test]
fn repeated_nack_for_the_same_packets_is_deduplicated() {
    let mut h = hub(&[1, 2, 3]);
    assert!(h.join(1, 2));
    assert!(h.join(1, 3));
    let (mut out_a, mut out_c) = (Outbound::new(0xAAAA), Outbound::new(0xCCCC));
    out_a.stamp(&mut h, 1, 2, 0xB1, 100, 96, t(0)).unwrap();
    out_c.stamp(&mut h, 3, 2, 0xB1, 100, 96, t(0)).unwrap();
    h.relay_nacks(1, &vec![(0xAAAA, vec![(103, 0b101)])], t(0));
    h.relay_nacks(1, &vec![(0xAAAA, vec![(103, 0b101)])], t(1));
    h.relay_nacks(3, &vec![(0xCCCC, vec![(103, 0)])], t(2));
    // A partly-new request passes only its new part, re-packed.
    h.relay_nacks(3, &vec![(0xCCCC, vec![(104, 0b11)])], t(3));
    assert_eq!(
        nacks(&h, 2),
        vec![req(0xB1, vec![(103, 0b101)]), req(0xB1, vec![(105, 0)])]
    );
}

#[test]
fn nack_limiter_window_expires() {
    let mut l = NackLimiter::default();
    let t0 = t(0);
    let r = req(7, vec![(65535, 0b1)]); // across the wrap: 65535, 0
    assert_eq!(l.admit_request(&r, t0), Some(r.clone()));
    assert_eq!(l.admit_request(&r, t0 + 50_000_000), None);
    assert_eq!(l.admit_request(&r, t0 + NACK_DEDUPE_WINDOW), Some(r.clone()));
    // Another SSRC is independent.
    let other = req(8, r.fci.clone());
    assert_eq!(l.admit_request(&other, t0), Some(other.clone()));
}

#[test]
fn nack_wire_format() {
    let n = build_nack(0x1122_3344, &req(0xAABB_CCDD, vec![(0x0102, 0x0304), (0x0506, 0)]));
    assert_eq!(n.len(), 20);
    assert_eq!(n[0], 0x81);
    assert_eq!(n[1], 205);
    assert_eq!(u16::from_be_bytes([n[2], n[3]]), 4);
    assert_eq!(&n[4..8], &0x1122_3344u32.to_be_bytes());
    assert_eq!(&n[8..12], &0xAABB_CCDDu32.to_be_bytes());
    assert_eq!(&n[12..20], &[1, 2, 3, 4, 5, 6, 0, 0]);
    assert_eq!(
        parse_feedback(&n).nacks,
        vec![(0xAABB_CCDD, vec![(0x0102, 0x0304), (0x0506, 0)])]
    );
}

fn named(v: &[(&str, u32)]) -> Vec<(String, u32)> {
    v.iter().map(|(l, p)| (l.to_string(), *p)).collect()
}

#[test]
fn pt_map_single_codec_is_primary_to_primary_and_drops_the_rest() {
    let (src, dst) = (PtMap::new(96, vec![]), PtMap::new(98, vec![]));
    assert_eq!(dst.map_from(&src, 96), Some(98));
    assert_eq!(dst.map_from(&src, 97), None, "RTX re-stamped as the video codec");
    assert_eq!(src.map_from(&src, 96), Some(96));
    // A receiver that declared nothing takes the source PT unchanged.
    let none = PtMap::new(0, vec![]);
    assert!(none.is_empty());
    assert_eq!(none.map_from(&src, 97), Some(97));
    // A source that declared nothing has no codec to map from.
    assert_eq!(dst.map_from(&none, 96), None);
    assert!(src.declares(96) && !src.declares(97) && none.declares(97));
}

#[test]
fn pt_map_named_codecs_map_by_label() {
    let src = PtMap::new(96, named(&[("VP8", 96), ("h264/42e01f", 102), ("rtx", 97)]));
    let dst = PtMap::new(
        100,
        named(&[(" vp8 ", 100), ("H264/42E01F", 108), ("av1", 45)]),
    );
    assert_eq!(dst.map_from(&src, 96), Some(100));
    assert_eq!(dst.map_from(&src, 102), Some(108));
    assert_eq!(dst.map_from(&src, 97), None, "no rtx on the receiver");
    assert_eq!(dst.map_from(&src, 45), None, "the source never declared 45");
    // No primary on the receiver: a primary packet maps by its label.
    let dst2 = PtMap::new(0, named(&[("vp8", 120)]));
    assert_eq!(dst2.map_from(&src, 96), Some(120));
    assert_eq!(dst2.map_from(&src, 102), None);
    // Invalid entries are ignored; the table is bounded.
    let bad = PtMap::new(300, named(&[("x", 0), ("y", 128), ("", 99)]));
    assert!(bad.is_empty());
    let many: Vec<(String, u32)> = (0..100).map(|i| (format!("c{i}"), 96)).collect();
    assert_eq!(PtMap::new(0, many).named_count(), MAX_NAMED_CODECS);
}

#[test]
fn frames_carry_the_source_payload_types() {
    let mut h = hub(&[1, 2]);
    assert!(h.join(1, 2));
    h.set_pts(1, PtMap::new(96, named(&[("vp8", 96)])));
    h.fan_out(1, rtp(1));
    let f = h.take_frame(2).unwrap();
    assert_eq!(f.src_pts, PtMap::new(96, named(&[("vp8", 96)])));
}

#[test]
fn streams_report_the_outbound_mapping_by_source_label() {
    let mut h = RelayHub::new();
    for (id, label) in [(9, "me"), (1, "uuid-a"), (2, "uuid-b")] {
        h.add_leg(RelayShared::new(id, 8, false, 96).with_label(label.into()));
    }
    assert!(h.join(9, 1));
    assert!(h.join(9, 2));
    assert!(h.streams(9).is_empty());
    let mut out = Outbound::new(0xAAAA);
    out.stamp(&mut h, 9, 1, 0xA1, 1, 100, t(0)).unwrap();
    let (a2, _) = out.stamp(&mut h, 9, 1, 0xA2, 1, 100, t(1)).unwrap();
    let (b1, _) = out.stamp(&mut h, 9, 2, 0xB1, 1, 101, t(1)).unwrap();
    let info = |source: &str, ssrc, source_ssrc, pt| StreamInfo {
        source: source.into(),
        ssrc,
        source_ssrc,
        pt: Some(pt),
    };
    assert_eq!(
        h.streams(9),
        vec![
            info("uuid-a", 0xAAAA, 0xA1, 100),
            info("uuid-a", a2, 0xA2, 100),
            info("uuid-b", b1, 0xB1, 101),
        ]
    );
    // A PT change on a stream shows.
    out.stamp(&mut h, 9, 2, 0xB1, 2, 102, t(2)).unwrap();
    assert_eq!(h.streams(9)[2].pt, Some(102));
    // A source that left is not listed, even before the send task reaps.
    h.leave_group(2);
    assert_eq!(h.streams(9).len(), 2);
    assert!(h.streams(9).iter().all(|s| s.source == "uuid-a"));
    // An unlabelled leg is named by its id.
    assert_eq!(RelayShared::new(7, 8, false, 96).label(), "7");
}

#[test]
fn seq_map_preserves_gaps_and_order() {
    let mut m = SeqMap::default();
    // A fresh series passes straight through; loss and reorder survive.
    assert_eq!(m.map(1000), 1000);
    assert_eq!(m.map(1003), 1003); // 1001-1002 lost upstream
    assert_eq!(m.map(1002), 1002); // late, still in order slot
    assert_eq!(m.highest(), Some(1003));
    // Wrap.
    let mut w = SeqMap::default();
    assert_eq!(w.map(65534), 65534);
    assert_eq!(w.map(1), 1); // 65535, 0 lost across the wrap
    assert_eq!(w.highest(), Some(1));
    assert_eq!(w.map(65535), 65535); // late; highest unchanged
    assert_eq!(w.highest(), Some(1));
}

#[test]
fn seq_map_continuing_rebases_without_reuse() {
    // A stream taking over a series that reached 501, starting anywhere,
    // continues at highest + 1 ...
    let mut m = SeqMap::continuing(Some(501));
    assert_eq!(m.map(9), 502);
    // ... and keeps its own gaps under the new offset.
    assert_eq!(m.map(12), 505);
    assert_eq!(m.map(11), 504);
    assert_eq!(m.route(), (502u16.wrapping_sub(9), Some(502)));
}

#[test]
fn second_ssrc_alongside_the_main_stream_never_kills_it() {
    let mut h = hub(&[9, 1]);
    assert!(h.join(9, 1));
    let mut out = Outbound::new(0xAAAA);
    assert_eq!(out.stamp(&mut h, 9, 1, 0xA, 100, 96, t(0)), Some((0xAAAA, 100)));
    let (rtx, sn) = out.stamp(&mut h, 9, 1, 0xB, 7, 96, t(1)).unwrap();
    assert!(rtx != 0xAAAA && rtx != 0, "second SSRC reused the main one");
    assert_eq!(sn, 7, "a fresh outbound SSRC passes its numbers through");
    // Interleaved: each keeps its own series; neither is dropped.
    for k in 1..=50u16 {
        let ms = 2 + u64::from(k);
        assert_eq!(
            out.stamp(&mut h, 9, 1, 0xA, 100 + k, 96, t(ms)),
            Some((0xAAAA, 100 + k))
        );
        assert_eq!(out.stamp(&mut h, 9, 1, 0xB, 7 + k, 96, t(ms)), Some((rtx, 7 + k)));
    }
    // A NACK for either outbound stream reaches the source under the right
    // source SSRC.
    h.relay_nacks(9, &vec![(0xAAAA, vec![(120, 0)]), (rtx, vec![(20, 0)])], t(60));
    assert_eq!(
        nacks(&h, 1),
        vec![req(0xA, vec![(120, 0)]), req(0xB, vec![(20, 0)])]
    );
    let mut got: Vec<(u32, u32)> = routes(&h, 9).iter().map(|r| (r.ssrc, r.src_ssrc)).collect();
    got.sort();
    let mut want = vec![(0xAAAA, 0xA), (rtx, 0xB)];
    want.sort();
    assert_eq!(got, want);
}

#[test]
fn restart_after_the_main_stream_goes_quiet_keeps_the_outbound_identity() {
    let mut h = hub(&[9, 1]);
    assert!(h.join(9, 1));
    let mut out = Outbound::new(0xAAAA);
    assert_eq!(out.stamp(&mut h, 9, 1, 0xA, 500, 96, t(0)), Some((0xAAAA, 500)));
    assert_eq!(out.stamp(&mut h, 9, 1, 0xA, 501, 96, t(10)), Some((0xAAAA, 501)));
    let later = 10 + MAIN_IDLE_TAKEOVER / 1_000_000;
    assert_eq!(out.stamp(&mut h, 9, 1, 0xB, 9, 96, t(later)), Some((0xAAAA, 502)));
    assert_eq!(
        out.stamp(&mut h, 9, 1, 0xB, 12, 96, t(later + 1)),
        Some((0xAAAA, 505))
    );
    let (old, _) = out.stamp(&mut h, 9, 1, 0xA, 502, 96, t(later + 2)).unwrap();
    assert_ne!(old, 0xAAAA, "a straggler of the old SSRC took the main stream");
    assert_eq!(
        out.stamp(&mut h, 9, 1, 0xB, 13, 96, t(later + 3)),
        Some((0xAAAA, 506))
    );
}

#[test]
fn a_new_ssrc_takes_over_once_the_main_stream_has_gone_quiet() {
    let mut h = hub(&[9, 1]);
    assert!(h.join(9, 1));
    let mut out = Outbound::new(0xAAAA);
    assert_eq!(out.stamp(&mut h, 9, 1, 0xA, 100, 96, t(0)), Some((0xAAAA, 100)));
    let (own, _) = out.stamp(&mut h, 9, 1, 0xB, 3000, 96, t(20)).unwrap();
    assert_ne!(own, 0xAAAA);
    let quiet = MAIN_IDLE_TAKEOVER / 1_000_000;
    assert_eq!(
        out.stamp(&mut h, 9, 1, 0xB, 3001, 96, t(quiet)),
        Some((0xAAAA, 101))
    );
    let got: Vec<(u32, u32)> = routes(&h, 9).iter().map(|r| (r.ssrc, r.src_ssrc)).collect();
    assert_eq!(got, vec![(0xAAAA, 0xB)], "the old outbound SSRC stays routed");
    // Its old outbound SSRC is free again for the next stream.
    assert_eq!(
        out.stamp(&mut h, 9, 1, 0xC, 1, 96, t(quiet + 1)).map(|o| o.0),
        Some(own)
    );
}

#[test]
fn streams_per_source_are_bounded_and_the_main_stream_survives() {
    let mut h = hub(&[9, 1]);
    assert!(h.join(9, 1));
    let mut out = Outbound::new(0xAAAA);
    let mut ms = 0;
    let mut tick = || {
        ms += 1;
        t(ms)
    };
    assert_eq!(out.stamp(&mut h, 9, 1, 0xA, 0, 96, tick()), Some((0xAAAA, 0)));
    let (kept, _) = out.stamp(&mut h, 9, 1, 0xF00D, 0, 96, tick()).unwrap();
    for k in 0..1000u32 {
        let seq = (k + 1) as u16;
        out.stamp(&mut h, 9, 1, 0x1_0000 + k, 0, 96, tick()).unwrap();
        // The main stream and one busy extra stream keep flowing.
        assert_eq!(out.stamp(&mut h, 9, 1, 0xA, seq, 96, tick()), Some((0xAAAA, seq)));
        assert_eq!(out.stamp(&mut h, 9, 1, 0xF00D, seq, 96, tick()), Some((kept, seq)));
    }
    assert_eq!(out.stream_count(1), MAX_STREAMS_PER_SOURCE);
    assert_eq!(routes(&h, 9).len(), MAX_STREAMS_PER_SOURCE);
    assert!(out.free_count() <= 1, "free pool grew: {}", out.free_count());
}

#[test]
fn every_ssrc_of_a_departed_source_is_dropped() {
    let mut h = hub(&[9, 1, 2]);
    assert!(h.join(9, 1));
    assert!(h.join(9, 2));
    let mut out = Outbound::new(0xAAAA);
    out.stamp(&mut h, 9, 1, 0x11, 10, 96, t(0)).unwrap();
    out.stamp(&mut h, 9, 2, 0x21, 20, 96, t(0)).unwrap();
    out.stamp(&mut h, 9, 2, 0x22, 20, 96, t(0)).unwrap();
    h.leave_group(2);
    assert_eq!(out.stamp(&mut h, 9, 2, 0x22, 21, 96, t(1)), None);
    assert_eq!(out.stamp(&mut h, 9, 1, 0x11, 11, 96, t(1)), Some((0xAAAA, 11)));
    assert_eq!(out.stamp(&mut h, 9, 2, 0x21, 21, 96, t(2)), None);
    assert_eq!(out.stamp(&mut h, 9, 2, 0x23, 1, 96, t(2000)), None);
    assert_eq!(routed_sources(&h, 9), vec![1]);
    assert_eq!(out.free_count(), 2, "both of b's outbound SSRCs freed");
}

#[test]
fn keyframe_request_inside_compound() {
    // A browser's PLI arrives as [RR, PLI]: an RR or SR goes first.
    // Classifying only the first header misses it.
    let rr = [0x80u8, 201, 0, 1, 0, 0, 0, 1]; // RR, no report blocks
    let mut compound = rr.to_vec();
    compound.extend_from_slice(&build_pli(0x1, 0x2));
    assert!(wants_keyframe(&compound));
    // an RR alone asks for nothing
    assert!(!wants_keyframe(&rr));
    // transport-cc (205/15) behind an RR stays ignored
    let mut cc = rr.to_vec();
    cc.extend_from_slice(&[0x8Fu8, 205, 0, 2, 0, 0, 0, 1, 0, 0, 0, 2]);
    assert!(!wants_keyframe(&cc));
}

#[test]
fn pli_wire_format() {
    let p = build_pli(0x1122_3344, 0xAABB_CCDD);
    assert_eq!(p[0], 0x81);
    assert_eq!(p[1], 206);
    assert_eq!(u16::from_be_bytes([p[2], p[3]]), 2);
    assert_eq!(u32::from_be_bytes([p[4], p[5], p[6], p[7]]), 0x1122_3344);
    assert_eq!(u32::from_be_bytes([p[8], p[9], p[10], p[11]]), 0xAABB_CCDD);
    assert!(wants_keyframe(&p));
}

#[test]
fn keyframe_classification() {
    // FIR (206 fmt 4): yes; NACK (205 fmt 1): no (passed through).
    assert!(wants_keyframe(&[0x84, 206, 0, 2, 0, 0, 0, 1, 0, 0, 0, 2]));
    assert!(!wants_keyframe(&[
        0x81, 205, 0, 3, 0, 0, 0, 1, 0, 0, 0, 2, 0, 1, 0, 0
    ]));
    // transport-cc (205 fmt 15) and REMB (206 fmt 15): no.
    assert!(!wants_keyframe(&[0x8F, 205, 0, 2, 0, 0, 0, 1, 0, 0, 0, 2]));
    assert!(!wants_keyframe(&[0x8F, 206, 0, 2, 0, 0, 0, 1, 0, 0, 0, 2]));
    // SR / RR: no.
    assert!(!wants_keyframe(&[0x80, 200, 0, 6, 0, 0, 0, 1, 0, 0, 0, 2]));
    assert!(!wants_keyframe(&[0x80, 201, 0, 1, 0, 0, 0, 1, 0, 0, 0, 2]));
    // Short garbage: no.
    assert!(!wants_keyframe(&[0x81, 206]));
}

#[test]
fn full_forward_queue_counts_the_drop() {
    let mut h = RelayHub::new();
    h.add_leg(RelayShared::new(1, 8, false, 96));
    h.add_leg(RelayShared::new(2, 2, false, 96));
    assert!(h.join(1, 2));
    for sn in 1..=3 {
        h.fan_out(1, rtp(sn));
    }
    assert_eq!(h.leg(2).unwrap().snapshot().dropped, 1);
    assert_eq!(drain(&mut h, 2), vec![(1, 1), (1, 2)]);
}

#[test]
fn nack_queue_is_bounded() {
    let mut h = hub(&[1, 2]);
    assert!(h.join(1, 2));
    let mut out = Outbound::new(0xAAAA);
    out.stamp(&mut h, 1, 2, 0xB1, 0, 96, t(0)).unwrap();
    for i in 0..100u16 {
        h.relay_nacks(1, &vec![(0xAAAA, vec![(i * 20, 0)])], t(0));
    }
    assert_eq!(nacks(&h, 2).len(), NACK_QUEUE_DEPTH);
    assert!(h.leg(2).unwrap().nack_pending());
    assert_eq!(h.take_nacks(2).len(), NACK_QUEUE_DEPTH);
    assert!(!h.leg(2).unwrap().nack_pending());
}

#[test]
fn peers_are_mutual_and_closing_a_leg_ends_them() {
    let mut h = hub(&[1, 2, 3]);
    assert!(!h.has_member(1, 2));
    assert!(h.join(3, 1));
    assert!(h.join(1, 2));
    assert_eq!(h.members(2), vec![1, 3, 2]);
    assert!(h.has_member(2, 3) && h.has_member(3, 2));
    h.close_leg(3);
    assert!(h.leg(3).is_none());
    assert_eq!(h.members(2), vec![1, 2]);
    assert!(!h.join(1, 3), "a leg that is gone is not joined");
}

#[test]
fn sends_the_same_ssrc_for_a_repaired_pair() {
    let mut h = hub(&[9, 1]);
    assert!(h.join(9, 1));
    let mut out = Outbound::new(0xAAAA);
    assert_eq!(out.stamp(&mut h, 9, 1, 0x11, 10, 96, t(0)), Some((0xAAAA, 10)));
    h.leave_group(1);
    assert!(h.join(9, 1));
    // Rejoined before anything was reaped: the stream goes on as it was.
    assert_eq!(out.stamp(&mut h, 9, 1, 0x11, 11, 96, t(1)), Some((0xAAAA, 11)));
}

#[test]
fn an_outbound_ssrc_leads_back_to_its_source_alone() {
    let mut h = hub(&[1, 2, 3]);
    assert!(h.join(1, 2) && h.join(1, 3));
    for id in [1, 2, 3] {
        h.take_pli(id);
    }
    let mut out = Outbound::new(0xAAAA);
    let (a, n) = out.stamp(&mut h, 1, 2, 0x22, 700, 96, t(0)).unwrap();
    let (b, m) = out.stamp(&mut h, 1, 3, 0x33, 900, 96, t(0)).unwrap();
    assert_ne!(a, b);
    assert_eq!((n, m), (700, 900));

    h.request_keyframe(1, &vec![b]);
    assert!(!keyframe_asked(&mut h, 2));
    assert!(keyframe_asked(&mut h, 3));
    h.relay_nacks(1, &vec![(a, vec![(n, 0)])], t(1));
    assert_eq!(nacks(&h, 2), vec![req(0x22, vec![(700, 0)])]);
    assert!(nacks(&h, 3).is_empty());

    // Source 2 leaves and 3 stays: the leg's own SSRC is free, and its numbers
    // go on with the next stream on it.
    h.leave_group(2);
    let (c, k) = out.stamp(&mut h, 1, 3, 0x34, 5, 96, t(10)).unwrap();
    assert_eq!((c, k), (a, 701));
}
