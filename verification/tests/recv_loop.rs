use hmac::{Hmac, Mac};
use projectrtp::dtls_session::SrtpKeyingMaterial;
use projectrtp::endpoint::Endpoint;
use projectrtp::recv_loop::fresh::{srtcp_index, Freshness, FRESH_MAX_SSRCS, FRESH_MAX_STUN};
use projectrtp::recv_loop::gate::{Protected, SsrcGate, GATE_MAX_PROBED, GATE_MAX_TRUSTED};
use projectrtp::recv_loop::packet::{
    handle_packet, is_muxed_rtcp, is_muxed_rtcp_fb, Inbound, Outcome, RecvLoopConfig, RelayRecv,
};
use projectrtp::relay::hub::RelayHub;
use projectrtp::relay::leg::{RelayCounters, RelayShared};
use projectrtp::rtcp_stats::{RemoteReport, RxStats};
use projectrtp::srtp::{decrypt_rtcp_checked, marked, srtcp_min_len, ProtectionProfile};
use webrtc_srtp::context::Context;
use webrtc_srtp::protection_profile::ProtectionProfile as OutsideProfile;

const KEY: [u8; 16] = [7u8; 16];
const SALT: [u8; 14] = [9u8; 14];

fn keys() -> SrtpKeyingMaterial {
    // local_is_server = true: remote (inbound) params are the client_write
    // pair, which is what the tests encrypt with.
    SrtpKeyingMaterial {
        profile: ProtectionProfile::Aes128CmHmacSha1_80,
        client_write_key: KEY.to_vec(),
        client_write_salt: SALT.to_vec(),
        server_write_key: vec![1u8; 16],
        server_write_salt: vec![2u8; 14],
        local_is_server: true,
    }
}

/// The far endpoint's outbound context.
fn remote_encryptor() -> Context {
    Context::new(&KEY, &SALT, OutsideProfile::Aes128CmHmacSha1_80, None, None).unwrap()
}

/// A context with keys that are not the session's.
fn bogus_encryptor() -> Context {
    Context::new(&[3u8; 16], &SALT, OutsideProfile::Aes128CmHmacSha1_80, None, None).unwrap()
}

/// RR (one report block about our SSRC 0x66, so the accounting has something
/// observable to fold) followed by a PSFB PLI.
fn rr_pli() -> Vec<u8> {
    let mut c = vec![0x81u8, 201, 0, 7, 0, 0, 0, 0x55];
    c.extend_from_slice(&[0, 0, 0, 0x66]); // report block: ssrc
    c.extend_from_slice(&[0x40, 0, 0, 3]); // fraction lost, cumulative
    c.extend_from_slice(&[0, 0, 0x12, 0x34]); // ext highest seq
    c.extend_from_slice(&[0, 0, 0, 9]); // jitter
    c.extend_from_slice(&[0u8; 8]); // LSR, DLSR
    c.extend_from_slice(&[0x81u8, 206, 0, 2, 0, 0, 0, 0x55, 0, 0, 0, 0x66]);
    c
}

const BARE_PLI: [u8; 12] = [0x81u8, 206, 0, 2, 0, 0, 0, 0x55, 0, 0, 0, 0x66];

fn addr(port: u16) -> Endpoint {
    Endpoint::V4 { ip: [127, 0, 0, 1], port }
}

/// A secure leg 1 with a secure peer 2.
struct Rig {
    cfg: RecvLoopConfig,
    hub: RelayHub,
    inbound: Inbound,
}

fn rig() -> Rig {
    let mut hub = RelayHub::new();
    hub.add_leg(RelayShared::new(1, 4, true, 96));
    hub.add_leg(RelayShared::new(2, 4, true, 96));
    assert!(hub.join(1, 2));
    // join asks every member for a keyframe; start the tests clean.
    let _ = hub.take_pli(2);
    let cfg = RecvLoopConfig {
        remote_addr: None,
        in_count: 0,
        rx_stats: RxStats::new(90000),
        remote_report: RemoteReport::default(),
        local_ssrc: 0x66,
        local_icepwd: Vec::new(),
        keys: None,
        relay: Some(RelayRecv::new(1)),
    };
    Rig { cfg, hub, inbound: Inbound::default() }
}

impl Rig {
    fn handle(&mut self, pkt: &[u8], peer: Endpoint) -> Outcome {
        handle_packet(
            &mut self.cfg,
            &mut self.hub,
            pkt,
            peer,
            &mut self.inbound,
            1_000_000_000,
            0,
        )
    }

    /// Did the receive loop ask the peer leg's send task for a keyframe?
    fn pli_requested(&mut self) -> bool {
        self.hub.take_pli(2)
    }

    fn own(&self) -> RelayCounters {
        self.hub.leg(1).unwrap().snapshot()
    }

    fn liveness(&self) -> u64 {
        self.hub.leg(1).unwrap().liveness()
    }

    fn remote(&self) -> Option<Endpoint> {
        self.cfg.remote_addr
    }
}

fn rtp_one() -> Vec<u8> {
    let mut rtp = vec![0x80u8, 96, 0, 1, 0, 0, 0, 1, 0, 0, 0, 0x55];
    rtp.extend_from_slice(&[0xAB; 20]);
    rtp
}

#[test]
fn compound_pli_over_srtcp_crosses_the_relay() {
    let mut r = rig();
    r.cfg.keys = Some(keys());
    let enc = remote_encryptor().encrypt_rtcp(&rr_pli()).unwrap();
    assert!(is_muxed_rtcp(&enc), "compound must hit the is_muxed_rtcp branch");
    r.handle(&enc, addr(9));
    assert!(r.pli_requested(), "PLI inside SRTCP compound lost");
    let rr = r.cfg.remote_report;
    assert!(rr.valid, "RR inside SRTCP compound not folded");
    assert_eq!(rr.ext_highest_seq, 0x1234);
}

#[test]
fn bare_pli_over_srtcp_crosses_the_relay() {
    let mut r = rig();
    r.cfg.keys = Some(keys());
    let enc = remote_encryptor().encrypt_rtcp(&BARE_PLI).unwrap();
    r.handle(&enc, addr(9));
    assert!(r.pli_requested(), "bare SRTCP PLI lost");
}

#[test]
fn pre_key_rtcp_is_not_scanned_on_a_secure_leg() {
    let mut r = rig();
    // No keys. Even a datagram that would classify as a keyframe request if
    // read as plaintext must not trigger one.
    r.handle(&rr_pli(), addr(9));
    assert!(!r.pli_requested(), "scanned pre-key compound");
    r.handle(&BARE_PLI, addr(9));
    assert!(!r.pli_requested(), "scanned pre-key feedback");
}

#[test]
fn short_srtcp_is_dropped_not_panicked() {
    let mut r = rig();
    r.cfg.keys = Some(keys());

    let short: [&[u8]; 4] = [
        &[0x80, 206, 0, 0],
        &[0x81, 205, 0, 0, 1, 2],
        &[0x80, 200, 0, 0],
        // one byte under the AES-CM-80 minimum (8 + 4 + 10)
        &[
            0x80, 201, 0, 1, 0, 0, 0, 0x55, 0, 0, 0, 0, 0, 0, 0, 0, 0, 0, 0, 0, 0,
        ],
    ];
    for pkt in short {
        r.handle(pkt, addr(9));
    }
    assert_eq!(r.own().decrypt_failed, short.len() as u64);

    // ...and the leg still takes a genuine packet afterwards.
    let enc = remote_encryptor().encrypt_rtcp(&rr_pli()).unwrap();
    r.handle(&enc, addr(9));
    assert!(r.pli_requested(), "leg dead after short SRTCP");

    // The control port and the audio branch share the checked decrypt; AEAD
    // profiles have their own (longer) trailer.
    for (profile, outside) in [
        (ProtectionProfile::Aes128CmHmacSha1_80, OutsideProfile::Aes128CmHmacSha1_80),
        (ProtectionProfile::AeadAes128Gcm, OutsideProfile::AeadAes128Gcm),
    ] {
        let salt = vec![9u8; profile.salt_len()];
        assert_eq!(profile.salt_len(), outside.salt_len());
        let mut ctx = Context::new(&KEY, &salt, outside, None, None).unwrap();
        for len in 0..srtcp_min_len(profile) {
            let mut pkt = vec![0u8; len];
            if len > 1 {
                pkt[0] = 0x80;
                pkt[1] = 200;
            }
            assert!(decrypt_rtcp_checked(&mut ctx, &pkt, Some(profile)).is_none());
        }
    }
}

#[test]
fn srtcp_with_the_e_flag_clear_is_not_authenticated() {
    let mut r = rig();
    let real = addr(9);
    let spoof = addr(6666);
    r.cfg.keys = Some(keys());
    let mut enc = remote_encryptor();
    let good = enc.encrypt_rtp(&rtp_one()).unwrap();
    r.handle(&good, real);
    assert_eq!(r.remote(), Some(real));
    let _ = r.pli_requested();

    // plaintext compound + E=0 index word + 10 junk "tag" bytes, no key
    let forge = |plain: &[u8], ssrc: u32| {
        let mut p = plain.to_vec();
        p[4..8].copy_from_slice(&ssrc.to_be_bytes());
        p.extend_from_slice(&[0, 0, 0, 1]);
        p.extend_from_slice(&[0x5A; 10]);
        p
    };
    let failed = r.own().decrypt_failed;
    for i in 0..100u32 {
        for plain in [&rr_pli()[..], &BARE_PLI[..]] {
            let pkt = forge(plain, 0x1000 + i);
            r.handle(&pkt, spoof);
        }
    }
    assert_eq!(r.remote(), Some(real), "E=0 SRTCP moved the remote");
    assert!(!r.pli_requested(), "E=0 SRTCP PLI crossed the relay");
    assert_eq!(r.own().decrypt_failed, failed + 200);
    assert_eq!(r.own().rtcp_in, 0);

    // ...and the browser's genuine SRTCP still gets through.
    let genuine = enc.encrypt_rtcp(&rr_pli()).unwrap();
    r.handle(&genuine, real);
    assert!(r.pli_requested(), "genuine SRTCP locked out");
    assert_eq!(r.own().rtcp_in, 1);
}

#[test]
fn ssrc_gate_only_hands_authenticated_ssrcs_to_the_real_context() {
    let mut gate = SsrcGate::new(&keys());
    let mut real = remote_encryptor(); // same keys: a decrypt context

    for i in 0..10_000u32 {
        let mut pkt = vec![0x80u8, 96, 0, 1, 0, 0, 0, 1];
        pkt.extend_from_slice(&i.to_be_bytes());
        pkt.extend_from_slice(&[0xAB; 30]);
        assert!(gate.decrypt(&mut real, i, &pkt, Protected::Rtp).is_none());
    }
    assert_eq!(gate.trusted_count(), 0);
    assert!(gate.probed_count() <= GATE_MAX_PROBED);

    let mut enc = remote_encryptor();
    let mut rtp = vec![0x80u8, 96, 0, 1, 0, 0, 0, 1, 0, 0, 0, 0x55];
    rtp.extend_from_slice(&[0xCD; 20]);
    let first = enc.encrypt_rtp(&rtp).unwrap();
    assert_eq!(
        &gate.decrypt(&mut real, 0x55, &first, Protected::Rtp).unwrap()[..],
        &rtp[..]
    );
    assert!(gate.trusts(0x55));
    rtp[3] = 2;
    let second = enc.encrypt_rtp(&rtp).unwrap();
    assert_eq!(
        &gate.decrypt(&mut real, 0x55, &second, Protected::Rtp).unwrap()[..],
        &rtp[..]
    );
    // A forged packet under the SSRC reaches the real context, and fails there.
    rtp[3] = 3;
    assert!(gate.decrypt(&mut real, 0x55, &rtp, Protected::Rtp).is_none());
    assert!(gate.trusts(0x55));
    assert_eq!(gate.trusted_count(), 1);
}

#[test]
fn ssrc_gate_trusts_a_bounded_number() {
    let mut gate = SsrcGate::new(&keys());
    let mut real = remote_encryptor();
    let mut enc = remote_encryptor();
    for i in 0..100u32 {
        let mut rtp = vec![0x80u8, 96, 0, 1, 0, 0, 0, 1];
        rtp.extend_from_slice(&i.to_be_bytes());
        rtp.extend_from_slice(&[1; 8]);
        let e = enc.encrypt_rtp(&rtp).unwrap();
        let got = gate.decrypt(&mut real, i, &e, Protected::Rtp);
        assert_eq!(got.is_some(), (i as usize) < GATE_MAX_TRUSTED);
    }
    assert_eq!(gate.trusted_count(), GATE_MAX_TRUSTED);
}

#[test]
fn secure_leg_counts_prekey_decrypt_failure_and_accepted() {
    let mut r = rig();
    let from = addr(9);
    let rtp = rtp_one();

    // Before keys: RTP and RTCP are pre-key drops.
    r.handle(&rtp, from);
    r.handle(&rr_pli(), from);
    let c = r.own();
    assert_eq!((c.in_count, c.prekey_dropped, c.accepted), (1, 2, 0));
    assert_eq!(r.liveness(), 0);

    r.cfg.keys = Some(keys());
    // Keys present but the packet was not protected with them.
    let bogus = bogus_encryptor().encrypt_rtp(&rtp).unwrap();
    r.handle(&bogus, from);
    assert_eq!(r.own().decrypt_failed, 1);
    assert_eq!(r.liveness(), 0);

    // Properly protected RTP and SRTCP are accepted.
    let mut enc = remote_encryptor();
    let good = enc.encrypt_rtp(&rtp).unwrap();
    r.handle(&good, from);
    let rtcp = enc.encrypt_rtcp(&rr_pli()).unwrap();
    r.handle(&rtcp, from);
    let c = r.own();
    assert_eq!((c.accepted, c.rtcp_in, c.decrypt_failed), (1, 1, 1));
    assert_eq!(r.liveness(), 2);
}

#[test]
fn secure_leg_latches_remote_only_from_authenticated_packets() {
    let mut r = rig();
    let real = addr(9);
    let spoof = addr(6666);
    let mut rtp = rtp_one();

    // Pre-key: DTLS may latch (the handshake needs an answer address);
    // unauthenticatable RTP may not.
    r.handle(&[22u8, 0xfe, 0xfd, 0], real);
    assert_eq!(r.remote(), Some(real));
    r.handle(&rtp, spoof);
    assert_eq!(r.remote(), Some(real), "pre-key RTP moved the remote");

    r.cfg.keys = Some(keys());
    let mut enc = remote_encryptor();
    let good = enc.encrypt_rtp(&rtp).unwrap();
    r.handle(&good, real);
    assert_eq!(r.remote(), Some(real));

    // Spoofed plaintext RTP, forged SRTP/SRTCP, and post-key DTLS.
    let mut bogus = bogus_encryptor();
    rtp[3] = 2;
    let forged_rtp = bogus.encrypt_rtp(&rtp).unwrap();
    let forged_rtcp = bogus.encrypt_rtcp(&rr_pli()).unwrap();
    let forged_pli = bogus.encrypt_rtcp(&BARE_PLI).unwrap();
    for pkt in [
        rtp.clone(),
        forged_rtp.to_vec(),
        forged_rtcp.to_vec(),
        forged_pli.to_vec(),
        vec![22u8, 0xfe, 0xfd, 0],
    ] {
        r.handle(&pkt, spoof);
        assert_eq!(
            r.remote(),
            Some(real),
            "unauthenticated {:?} moved the remote",
            &pkt[..2]
        );
    }

    // An authenticated packet from a new address does move it (the browser's
    // network changed).
    let moved = addr(7777);
    let e = enc.encrypt_rtcp(&rr_pli()).unwrap();
    r.handle(&e, moved);
    assert_eq!(r.remote(), Some(moved));
}

/// STUN request signed with `pwd` (MESSAGE-INTEGRITY), or bare (header only)
/// when `pwd` is `None`. `txid` fills the transaction ID; `nominate` adds
/// USE-CANDIDATE inside the signed part.
fn stun_request(pwd: Option<&[u8]>, txid: u8, nominate: bool) -> Vec<u8> {
    let mut pk = vec![0u8; 20];
    pk[1] = 0x01; // Binding Request
    pk[4..8].copy_from_slice(&0x2112_A442u32.to_be_bytes());
    pk[8..20].copy_from_slice(&[txid; 12]);
    let Some(pwd) = pwd else { return pk };
    if nominate {
        pk.extend_from_slice(&[0x00, 0x25, 0, 0]);
    }
    let mi_off = pk.len();
    pk.extend_from_slice(&[0x00, 0x08, 0, 20]);
    let len = (mi_off - 20 + 24) as u16;
    pk[2..4].copy_from_slice(&len.to_be_bytes());
    let mut mac = <Hmac<sha1::Sha1> as Mac>::new_from_slice(pwd).unwrap();
    mac.update(&pk[..mi_off]);
    pk.extend_from_slice(&mac.finalize().into_bytes());
    pk
}

const PWD: &[u8] = b"icepwd-secret";

#[test]
fn secure_leg_latches_only_integrity_checked_stun() {
    let mut r = rig();
    r.cfg.local_icepwd = b"icepwd-secret".to_vec();
    let real = addr(9);
    let spoof = addr(6666);
    let signed = stun_request(Some(PWD), 1, true);
    r.handle(&signed, real);
    assert_eq!(r.remote(), Some(real));

    for pkt in [
        stun_request(None, 2, false),
        stun_request(Some(b"wrong"), 3, true),
    ] {
        let o = r.handle(&pkt, spoof);
        assert_eq!(r.remote(), Some(real), "unauthenticated STUN moved the remote");
        assert!(o.reply.is_none(), "unauthenticated STUN answered");
    }

    let moved = addr(7777);
    r.handle(&stun_request(Some(PWD), 4, true), moved);
    assert_eq!(r.remote(), Some(moved), "fresh nomination must re-latch");
}

#[test]
fn secure_leg_stun_latch_needs_fresh_nomination() {
    let mut r = rig();
    r.cfg.local_icepwd = b"icepwd-secret".to_vec();
    let real = addr(40_001);
    let spoof = addr(40_002);

    // Before any remote exists a signed check latches even without
    // USE-CANDIDATE, so ICE/DTLS can start (regular nomination).
    let first = stun_request(Some(PWD), 9, false);
    r.handle(&first, real);
    assert_eq!(r.remote(), Some(real), "first signed check must latch");

    let captured = stun_request(Some(PWD), 1, true);
    r.handle(&captured, real);
    assert_eq!(r.remote(), Some(real));

    r.handle(&captured, spoof);
    assert_eq!(r.remote(), Some(real), "replayed signed STUN latched");

    let ping = stun_request(Some(PWD), 2, false);
    let got = r.handle(&ping, spoof);
    assert_eq!(r.remote(), Some(real), "non-nominating ping latched");
    assert!(got.reply.is_some(), "signed ping must still be answered");

    r.handle(&stun_request(Some(PWD), 3, true), spoof);
    assert_eq!(r.remote(), Some(spoof), "fresh nomination must latch");
}

#[test]
fn secure_leg_does_not_latch_on_a_replayed_packet() {
    let mut r = rig();
    let real = addr(9);
    let spoof = addr(6666);
    r.cfg.keys = Some(keys());
    let mut enc = remote_encryptor();
    let rtp_sn = |sn: u16| {
        let mut p = vec![0x80u8, 96, 0, 0, 0, 0, 0, 1, 0, 0, 0, 0x55];
        p[2..4].copy_from_slice(&sn.to_be_bytes());
        p.extend_from_slice(&[0xAB; 20]);
        p
    };
    let mut sent_rtp = Vec::new();
    for sn in 1..=3u16 {
        let e = enc.encrypt_rtp(&rtp_sn(sn)).unwrap().to_vec();
        r.handle(&e, real);
        sent_rtp.push(e);
    }
    let rtcp1 = enc.encrypt_rtcp(&rr_pli()).unwrap().to_vec();
    let rtcp2 = enc.encrypt_rtcp(&rr_pli()).unwrap().to_vec();
    let fb1 = enc.encrypt_rtcp(&BARE_PLI).unwrap().to_vec();
    for p in [&rtcp1, &rtcp2, &fb1] {
        r.handle(p, real);
    }
    assert_eq!(r.remote(), Some(real));

    // Replays of old and of the latest packets, RTP and SRTCP (muxed-RTCP
    // branch and feedback branch): all authenticate.
    let before = r.own();
    for p in sent_rtp.iter().chain([&rtcp1, &rtcp2, &fb1]) {
        r.handle(p, spoof);
        assert_eq!(
            r.remote(),
            Some(real),
            "replayed {:?} moved the remote",
            &p[..2]
        );
    }
    let after = r.own();
    assert_eq!(
        after.accepted + after.rtcp_in,
        before.accepted + before.rtcp_in + 6,
        "replays must authenticate, or this test proves nothing"
    );

    // Fresh traffic from a new address (NAT rebinding) still moves it, via RTP
    // and via SRTCP.
    let moved = addr(7777);
    let e = enc.encrypt_rtp(&rtp_sn(4)).unwrap();
    r.handle(&e, moved);
    assert_eq!(r.remote(), Some(moved));
    let moved2 = addr(7778);
    let e = enc.encrypt_rtcp(&rr_pli()).unwrap();
    r.handle(&e, moved2);
    assert_eq!(r.remote(), Some(moved2));
}

#[test]
fn freshness_is_wrap_aware_and_per_ssrc() {
    let mut f = Freshness::default();
    assert!(f.rtp(1, 65534));
    assert!(f.rtp(1, 2)); // across the wrap
    assert!(!f.rtp(1, 65535)); // older, late
    assert!(!f.rtp(1, 2)); // duplicate
    assert!(f.rtp(2, 0)); // another SSRC has its own series
    assert!(f.rtcp(1, 5));
    assert!(!f.rtcp(1, 5));
    assert!(!f.rtcp(1, 4));
    assert!(f.rtcp(1, 6));
}

/// On an audio leg SRTCP is checked for its length alone: what is not marked as
/// encrypted is read as it is, without its trailer.
#[test]
fn audio_leg_reads_unmarked_srtcp() {
    let mut unmarked = rr_pli();
    unmarked.extend_from_slice(&[0, 0, 0, 1]);
    unmarked.extend_from_slice(&[0x5A; 10]);
    let profile = ProtectionProfile::Aes128CmHmacSha1_80;
    assert!(!marked(&unmarked, Some(profile)));
    let mut ctx = remote_encryptor();
    assert_eq!(decrypt_rtcp_checked(&mut ctx, &unmarked, Some(profile)), Some(rr_pli()));
    assert_eq!(decrypt_rtcp_checked(&mut ctx, &unmarked, None), None);

    let mut r = rig();
    r.cfg.keys = Some(keys());
    r.handle(&unmarked, addr(9));
    assert!(!r.cfg.remote_report.valid, "read on a relay leg");
    r.cfg.relay = None;
    r.handle(&unmarked, addr(9));
    assert_eq!(r.cfg.remote_report.ext_highest_seq, 0x1234);
    // One that is marked has to authenticate there too.
    let mut forged = unmarked.clone();
    let at = forged.len() - 14;
    forged[at] = 0x80;
    assert!(marked(&forged, Some(profile)));
    assert_eq!(decrypt_rtcp_checked(&mut ctx, &forged, Some(profile)), None);
}

#[test]
fn freshness_is_bounded() {
    let mut f = Freshness::default();
    let id = |n: usize| {
        let mut t = [0u8; 12];
        t[..8].copy_from_slice(&(n as u64).to_be_bytes());
        t
    };
    for n in 0..FRESH_MAX_STUN {
        assert!(f.stun(id(n)));
    }
    assert!(!f.stun(id(0)));
    // One more pushes the oldest out.
    assert!(f.stun(id(FRESH_MAX_STUN)));
    assert!(f.stun(id(0)));
    assert!(!f.stun(id(2)));
}

/// The first packet under an SSRC is fresh however many SSRCs there are, and no
/// SSRC is forgotten for it.
#[test]
fn no_ssrc_is_forgotten() {
    let mut f = Freshness::default();
    for s in 0..FRESH_MAX_SSRCS as u32 {
        assert!(f.rtp(s, 9) && f.rtcp(s, 9));
    }
    assert!(!f.rtp(0, 9) && !f.rtcp(0, 9));
    assert!(f.rtp(1000, 1) && f.rtcp(1000, 1));
    assert!(!f.rtp(1000, 1) && !f.rtcp(1000, 1));
    assert!(!f.rtp(0, 9) && !f.rtcp(0, 9), "a replay after many SSRCs");
    assert!(f.rtp(0, 10) && f.rtcp(0, 10));
}

/// A leg tracks no more SSRCs than its gate trusts: the next one does not move
/// the remote.
#[test]
fn a_leg_tracks_what_its_gate_trusts() {
    let mut r = rig();
    r.cfg.keys = Some(keys());
    let mut enc = remote_encryptor();
    let mut packet = |ssrc: u32, sn: u8| {
        let mut p = vec![0x80u8, 96, 0, sn, 0, 0, 0, 1];
        p.extend_from_slice(&ssrc.to_be_bytes());
        p.extend_from_slice(&[0xAB; 20]);
        enc.encrypt_rtp(&p).unwrap()
    };
    for s in 0..FRESH_MAX_SSRCS as u32 {
        let sealed = packet(s, 1);
        r.handle(&sealed, addr(100 + s as u16));
        assert_eq!(r.remote(), Some(addr(100 + s as u16)));
    }
    let last = r.remote();
    let one_more = packet(1000, 1);
    r.handle(&one_more, addr(6666));
    assert_eq!(r.remote(), last);
    let newer = packet(0, 2);
    r.handle(&newer, addr(7777));
    assert_eq!(r.remote(), Some(addr(7777)));
}

#[test]
fn clear_leg_latches_from_any_packet() {
    let mut r = rig();
    r.hub.set_secure(1, false);
    let from = addr(4242);
    let rtp = vec![0x80u8, 96, 0, 1, 0, 0, 0, 1, 0, 0, 0, 0x55];
    r.handle(&rtp, from);
    assert_eq!(r.remote(), Some(from));
    r.cfg.relay = None; // and an audio leg
    let other = addr(4343);
    r.handle(&rtp, other);
    assert_eq!(r.remote(), Some(other));
}

#[test]
fn pli_target_follows_only_accepted_negotiated_packets() {
    let mut r = rig();
    let from = addr(9);
    let pkt = |pt: u8, sn: u8, ssrc: u8| {
        let mut p = vec![0x80u8, pt, 0, sn, 0, 0, 0, 1, 0, 0, 0, ssrc];
        p.extend_from_slice(&[0xAB; 20]);
        p
    };
    // Secure leg: forged packets (keys present, no valid auth) under a new
    // SSRC do not latch the PLI target.
    r.cfg.keys = Some(keys());
    let mut enc = remote_encryptor();
    let e = enc.encrypt_rtp(&pkt(96, 1, 0x55)).unwrap();
    r.handle(&e, from);
    assert_eq!(r.cfg.rx_stats.remote_ssrc(), Some(0x55));
    for sn in 1..=3 {
        let forged = pkt(96, sn, 0x77);
        r.handle(&forged, from);
    }
    assert_eq!(r.cfg.rx_stats.remote_ssrc(), Some(0x55), "forged SSRC latched");
    // An authentic second stream under a PT the leg did not negotiate (RTX,
    // say) is forwarded but not the PLI target.
    for sn in 1..=3 {
        let e = enc.encrypt_rtp(&pkt(97, sn, 0x99)).unwrap();
        r.handle(&e, from);
    }
    assert_eq!(r.cfg.rx_stats.remote_ssrc(), Some(0x55), "RTX SSRC latched");
    // A real restart under the negotiated PT still relatches.
    for sn in 1..=3 {
        let e = enc.encrypt_rtp(&pkt(96, sn, 0x44)).unwrap();
        r.handle(&e, from);
    }
    assert_eq!(r.cfg.rx_stats.remote_ssrc(), Some(0x44));
}

#[test]
fn secure_leg_drops_inbound_rtp_until_keys() {
    let mut r = rig();
    let from = addr(9);
    r.hub.add_leg(RelayShared::new(3, 4, false, 96));
    assert!(r.hub.join(1, 3));

    let rtp = rtp_one();
    r.handle(&rtp, from);
    assert!(
        r.hub.take_frame(3).is_none(),
        "forwarded pre-key (unauthenticated) RTP"
    );

    r.cfg.keys = Some(keys());
    let enc = remote_encryptor().encrypt_rtp(&rtp).unwrap();
    r.handle(&enc, from);
    let got = r.hub.take_frame(3).expect("decrypted RTP not forwarded");
    assert_eq!(got.src, 1);
    assert_eq!(
        got.pkt.as_slice(),
        &rtp[..],
        "forwarded bytes are not the plaintext"
    );
}

#[test]
fn classifies_rtcp_packet_types() {
    // Version-2 RTCP header (0x80) + each RTCP packet type.
    for pt in 200u8..=204 {
        assert!(is_muxed_rtcp(&[0x80, pt]), "PT {pt} should demux as RTCP");
    }
}

#[test]
fn rtp_audio_is_not_mistaken_for_rtcp() {
    // PCMU (pt 0), PCMA (8), G722 (9), rfc2833 (101), with and without the
    // marker bit. None of the second bytes fall in 200..=204.
    for pt in [0u8, 8, 9, 101] {
        assert!(!is_muxed_rtcp(&[0x80, pt]), "RTP pt {pt} misread as RTCP");
        let marked = 0x80 | pt; // marker bit set
        assert!(
            !is_muxed_rtcp(&[0x80, marked]),
            "marked RTP pt {pt} misread as RTCP"
        );
    }
}

#[test]
fn rejects_out_of_range_and_short() {
    assert!(!is_muxed_rtcp(&[0x80, 199]), "205- boundary below");
    assert!(!is_muxed_rtcp(&[0x80, 205]), "205 is above BYE/APP window");
    assert!(!is_muxed_rtcp(&[0x00, 200]), "STUN-range first byte");
    assert!(!is_muxed_rtcp(&[0x30, 200]), "DTLS-range first byte");
    assert!(!is_muxed_rtcp(&[0x80]), "too short");
    assert!(!is_muxed_rtcp(&[]), "empty");
}

#[test]
fn feedback_types_are_a_range_of_their_own() {
    assert!(is_muxed_rtcp_fb(&[0x80, 205]) && is_muxed_rtcp_fb(&[0xBF, 206]));
    assert!(!is_muxed_rtcp_fb(&[0x80, 204]) && !is_muxed_rtcp_fb(&[0x80, 207]));
    assert!(!is_muxed_rtcp_fb(&[0x7F, 205]) && !is_muxed_rtcp_fb(&[0x80]));
}

#[test]
fn audio_channel_queues_rtp_and_accounts_it() {
    let mut r = rig();
    r.cfg.relay = None;
    let o = r.handle(&rtp_one(), addr(5));
    assert!(o.accounted && o.reply.is_none() && o.dtls.is_none());
    assert_eq!(o.jitter.unwrap().as_slice(), &rtp_one()[..]);
    assert_eq!(r.cfg.in_count, 1);
    assert_eq!(r.cfg.rx_stats.remote_ssrc(), Some(0x55));
    // Feedback is not a relay leg's here, and is taken for RTP.
    let o = r.handle(&BARE_PLI, addr(5));
    assert!(o.jitter.is_some());
    // Too short for RTP: nothing.
    let o = r.handle(&[0x80, 0, 1], addr(5));
    assert!(!o.accounted && o.jitter.is_none());
    assert_eq!(r.cfg.in_count, 2);
    // DTLS goes to the handshake.
    let o = r.handle(&[22, 1, 2], addr(5));
    assert_eq!(o.dtls, Some(vec![22, 1, 2]));
    let o = r.handle(&[], addr(6));
    assert!(o.dtls.is_none());
    assert_eq!(r.remote(), Some(addr(6)));
}

#[test]
fn audio_channel_reads_encrypted_reports() {
    let mut r = rig();
    r.cfg.relay = None;
    r.cfg.keys = Some(keys());
    let enc = remote_encryptor().encrypt_rtcp(&rr_pli()).unwrap();
    r.handle(&enc, addr(5));
    assert!(r.cfg.remote_report.valid);
    assert_eq!(r.cfg.remote_report.cumulative_lost, 3);
    assert!(!r.pli_requested(), "feedback of a channel that is no leg");
}

#[test]
fn unsecured_channel_answers_a_bare_request() {
    let mut r = rig();
    r.cfg.relay = None;
    let bare = stun_request(None, 7, false);
    assert!(r.handle(&bare, addr(5)).reply.is_none(), "no password, no answer");
    r.cfg.local_icepwd = PWD.to_vec();
    let reply = r.handle(&bare, addr(5)).reply.unwrap();
    assert_eq!(reply.len(), 64);
    assert_eq!(reply[..2], [1, 1]);
    assert_eq!(reply[8..20], [7; 12]);
}

#[test]
fn index_is_read_from_before_the_tag() {
    let mut enc = remote_encryptor();
    for want in 1..=3u32 {
        let e = enc.encrypt_rtcp(&rr_pli()).unwrap();
        assert_eq!(
            srtcp_index(&e, ProtectionProfile::Aes128CmHmacSha1_80),
            Some(want)
        );
    }
    let mut gcm =
        Context::new(&KEY, &[9u8; 12], OutsideProfile::AeadAes128Gcm, None, None).unwrap();
    let e = gcm.encrypt_rtcp(&rr_pli()).unwrap();
    assert_eq!(srtcp_index(&e, ProtectionProfile::AeadAes128Gcm), Some(1));
    assert_eq!(srtcp_index(&[0; 21], ProtectionProfile::Aes128CmHmacSha1_80), None);
    assert_eq!(srtcp_index(&[0; 22], ProtectionProfile::Aes128CmHmacSha1_80), Some(0));
    assert_eq!(srtcp_index(&[0; 11], ProtectionProfile::AeadAes128Gcm), None);
}

#[test]
fn extension_that_overruns_is_a_failed_decrypt() {
    let mut r = rig();
    r.cfg.keys = Some(keys());
    // One-byte extension of one word whose element says 16 bytes.
    let mut p = vec![0x90u8, 96, 0, 1, 0, 0, 0, 1, 0, 0, 0, 0x55];
    p.extend_from_slice(&[0xBE, 0xDE, 0, 1, 0x1F, 0, 0, 0]);
    r.handle(&p, addr(9));
    assert_eq!(r.own().decrypt_failed, 1);
    assert_eq!(r.own().in_count, 1);
}
