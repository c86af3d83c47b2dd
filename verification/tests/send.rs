use projectrtp::dtls_session::SrtpKeyingMaterial;
use projectrtp::relay::hub::RelayHub;
use projectrtp::relay::leg::{RelayFrame, RelayShared};
use projectrtp::relay::nack::NackReq;
use projectrtp::relay::outbound::{OutRoute, Outbound};
use projectrtp::relay::pli::{PliLimiter, PLI_MIN_INTERVAL};
use projectrtp::relay::pt_map::PtMap;
use projectrtp::relay::send::{
    count_sent, forward, maybe_build_encrypt, send_nack, send_pli, MAX_SENT_FCI,
};
use projectrtp::relay::step::{next_step, Step};
use projectrtp::rtp::RtpPacket;
use projectrtp::srtp::{
    decrypt_rtcp_checked, decrypt_rtp, encrypt_rtcp, encrypt_rtp, new_context, srtcp_min_len,
    ProtectionProfile,
};
use webrtc_srtp::context::Context;

fn keys() -> Option<SrtpKeyingMaterial> {
    Some(SrtpKeyingMaterial {
        profile: ProtectionProfile::Aes128CmHmacSha1_80,
        client_write_key: vec![7; 16],
        client_write_salt: vec![9; 14],
        server_write_key: vec![1; 16],
        server_write_salt: vec![2; 14],
        local_is_server: true,
    })
}

/// Leg 1 (secure or not) with source leg 2; both negotiated payload types.
fn pair(secure: bool) -> RelayHub {
    let mut h = RelayHub::new();
    h.add_leg(RelayShared::new(1, 8, secure, 100));
    h.add_leg(RelayShared::new(2, 8, false, 96));
    assert!(h.join(1, 2));
    h
}

fn bytes(pt: u8, sn: u16) -> Vec<u8> {
    let mut p = vec![0x80, pt, 0, 0, 0, 0, 0, 42, 0, 0, 0, 0x55];
    p[2..4].copy_from_slice(&sn.to_be_bytes());
    p.extend_from_slice(&[1, 2, 3, 4, 5]);
    p
}

fn frame(pt: u8, sn: u16) -> RelayFrame {
    RelayFrame {
        src: 2,
        src_pts: PtMap::new(96, vec![]),
        pkt: RtpPacket::from_bytes(&bytes(pt, sn)),
    }
}

#[test]
fn forwarded_packet_keeps_its_media() {
    let mut h = pair(false);
    let mut out = Outbound::new(0xAAAA);
    let mut enc = None;
    let sent = forward(&mut h, 1, true, &None, &mut enc, &mut out, frame(0x80 | 96, 9), 0).unwrap();
    let mut want = bytes(0x80 | 100, 9);
    want[8..12].copy_from_slice(&0xAAAAu32.to_be_bytes());
    assert_eq!(sent, want);
    count_sent(&mut h, 1);
    assert_eq!(h.leg(1).unwrap().snapshot().out_count, 1);
}

#[test]
fn nothing_is_forwarded_without_a_remote() {
    let mut h = pair(false);
    let mut out = Outbound::new(0xAAAA);
    let mut enc = None;
    assert!(forward(&mut h, 1, false, &None, &mut enc, &mut out, frame(96, 9), 0).is_none());
    assert_eq!(out.source_count(), 0);
}

#[test]
fn unmapped_payload_type_is_counted_and_leaves_no_state() {
    let mut h = pair(false);
    let mut out = Outbound::new(0xAAAA);
    let mut enc = None;
    assert!(forward(&mut h, 1, true, &None, &mut enc, &mut out, frame(97, 9), 0).is_none());
    assert_eq!(h.leg(1).unwrap().snapshot().pt_dropped, 1);
    assert_eq!(out.source_count(), 0);
}

#[test]
fn secure_leg_sends_nothing_in_the_clear() {
    let mut h = pair(true);
    let mut out = Outbound::new(0xAAAA);
    let mut enc: Option<Context> = None;
    assert!(forward(&mut h, 1, true, &None, &mut enc, &mut out, frame(96, 9), 0).is_none());
    assert!(send_pli(1, true, true, Some(2), &None, &mut enc).is_none());
    let req = NackReq { media_ssrc: 5, fci: vec![(1, 0)] };
    assert!(send_nack(1, true, true, &None, &mut enc, &req).is_none());
    assert_eq!(out.source_count(), 0, "a packet that could not go out left state");

    // With keys the packet is protected for the remote.
    let sent = forward(&mut h, 1, true, &keys(), &mut enc, &mut out, frame(96, 9), 0).unwrap();
    let mut want = bytes(100, 9);
    want[8..12].copy_from_slice(&0xAAAAu32.to_be_bytes());
    assert_ne!(sent[12..17], want[12..]);
    let mut remote =
        new_context(&[1; 16], &[2; 14], ProtectionProfile::Aes128CmHmacSha1_80).unwrap();
    assert_eq!(remote.decrypt_rtp(&sent).unwrap()[..], want[..]);
    let pli = send_pli(1, true, true, Some(2), &keys(), &mut enc).unwrap();
    assert_eq!(
        remote.decrypt_rtcp(&pli).unwrap()[..],
        [0x81, 206, 0, 2, 0, 0, 0, 1, 0, 0, 0, 2]
    );
    let nack = send_nack(1, true, true, &keys(), &mut enc, &req).unwrap();
    assert_eq!(
        remote.decrypt_rtcp(&nack).unwrap()[..],
        [0x81, 205, 0, 3, 0, 0, 0, 1, 0, 0, 0, 5, 0, 1, 0, 0]
    );
}

#[test]
fn keys_of_the_wrong_length_make_no_context() {
    let mut enc: Option<Context> = None;
    let mut bad = keys().unwrap();
    bad.server_write_key = vec![1; 15];
    maybe_build_encrypt(&Some(bad), &mut enc);
    assert!(enc.is_none());
    maybe_build_encrypt(&keys(), &mut enc);
    assert!(enc.is_some());
}

#[test]
fn straggler_of_a_source_that_left_is_not_sent() {
    let mut h = pair(false);
    let mut out = Outbound::new(0xAAAA);
    let mut enc = None;
    h.leave_group(2);
    assert!(forward(&mut h, 1, true, &None, &mut enc, &mut out, frame(96, 9), 0).is_none());
}

#[test]
fn feedback_needs_a_remote_and_a_source() {
    let mut enc: Option<Context> = None;
    assert!(send_pli(1, false, false, Some(2), &None, &mut enc).is_none());
    assert!(send_pli(1, false, true, None, &None, &mut enc).is_none());
    assert_eq!(
        send_pli(1, false, true, Some(2), &None, &mut enc),
        Some(vec![0x81, 206, 0, 2, 0, 0, 0, 1, 0, 0, 0, 2])
    );
    let many = NackReq { media_ssrc: 5, fci: (0..300).map(|i| (i * 20, 0)).collect() };
    assert!(send_nack(1, false, false, &None, &mut enc, &many).is_none());
    let nack = send_nack(1, false, true, &None, &mut enc, &many).unwrap();
    assert_eq!(nack.len(), 12 + 4 * MAX_SENT_FCI);
    assert_eq!(u16::from_be_bytes([nack[2], nack[3]]) as usize, 2 + MAX_SENT_FCI);
}

#[test]
fn keyframe_requests_are_spaced_and_none_is_lost() {
    let mut l = PliLimiter::default();
    let t0 = 1_000_000_000u64;
    assert!(l.on_request(t0));
    // It could not be sent: the interval does not start.
    assert!(l.on_request(t0 + 1));
    l.on_sent(t0 + 1);
    assert!(!l.on_request(t0 + 2), "inside the interval");
    assert_eq!(l.deadline, Some(t0 + 1 + PLI_MIN_INTERVAL));
    assert!(!l.on_request(t0 + 3));
    assert_eq!(l.deadline, Some(t0 + 1 + PLI_MIN_INTERVAL), "put off once");
    assert!(!l.on_deadline(t0 + PLI_MIN_INTERVAL));
    assert!(l.on_deadline(t0 + 1 + PLI_MIN_INTERVAL));
    assert!(!l.on_deadline(t0 + 2 + PLI_MIN_INTERVAL));
    l.on_sent(t0 + 1 + PLI_MIN_INTERVAL);
    assert!(l.on_request(t0 + 1 + 2 * PLI_MIN_INTERVAL));
}

/// What is sent serves a request that was put off: none follows it at once.
#[test]
fn a_request_that_was_put_off_is_sent_once() {
    let ms = 1_000_000u64;
    let mut l = PliLimiter::default();
    assert!(l.on_request(0));
    l.on_sent(0);
    assert!(!l.on_request(100 * ms));
    assert_eq!(l.deadline, Some(300 * ms));
    // A request at the end of the interval goes out and clears the one put off.
    assert!(l.on_request(300 * ms));
    l.on_sent(300 * ms);
    assert_eq!(l.deadline, None);
    for t in 300..600 {
        assert!(!l.on_deadline(t * ms), "a second request at {t} ms");
    }
    assert!(l.on_request(600 * ms));
}

#[test]
fn keyframes_go_before_nacks_and_both_before_media() {
    let mut h = pair(false);
    let mut l = PliLimiter::default();
    // Leg 2 sends the media of leg 1 as 0xB0; its remote has lost a packet.
    let route = OutRoute { ssrc: 0xB0, src: 1, src_ssrc: 5, offset: 0, base: None, pt: None };
    h.set_out_routes(2, vec![route]);
    h.request_keyframe(2, &vec![0xB0]);
    h.relay_nacks(2, &vec![(0xB0, vec![(1, 0)])], 0);
    h.fan_out(2, frame(96, 9).pkt);
    assert!(matches!(next_step(&mut h, 1, &mut l, 0), Step::Pli));
    l.on_sent(0);
    match next_step(&mut h, 1, &mut l, 1) {
        Step::Nacks(reqs) => {
            assert_eq!(reqs.len(), 1);
            assert_eq!((reqs[0].media_ssrc, &reqs[0].fci[..]), (5, &[(1, 0)][..]));
        }
        _ => panic!("the NACK is next"),
    }
    match next_step(&mut h, 1, &mut l, 2) {
        Step::Frame(f) => assert_eq!(f.src, 2),
        _ => panic!("the frame is next"),
    }
    assert!(matches!(next_step(&mut h, 1, &mut l, 3), Step::Wait));
    // One that is asked for inside the interval is put off, and goes at its end.
    h.request_keyframe(2, &vec![0xB0]);
    assert!(matches!(next_step(&mut h, 1, &mut l, 4), Step::Wait));
    assert!(matches!(next_step(&mut h, 1, &mut l, PLI_MIN_INTERVAL), Step::Pli));
    h.close_leg(1);
    assert!(matches!(next_step(&mut h, 1, &mut l, PLI_MIN_INTERVAL), Step::Gone));
}

#[test]
fn header_that_does_not_fit_is_not_encrypted() {
    let mut ctx = new_context(&[1; 16], &[2; 14], ProtectionProfile::Aes128CmHmacSha1_80).unwrap();
    let mut p = vec![0x90u8, 96, 0, 1, 0, 0, 0, 1, 0, 0, 0, 0x55];
    p.extend_from_slice(&[0xBE, 0xDE, 0, 1, 0x1F, 0, 0, 0]);
    assert!(encrypt_rtp(&mut ctx, &p).is_none());
    // The same with an element that fits.
    p[16] = 0x12;
    assert!(encrypt_rtp(&mut ctx, &p).is_some());
}

#[test]
fn what_one_end_protects_the_other_opens() {
    let profiles = [
        ProtectionProfile::Aes128CmHmacSha1_80,
        ProtectionProfile::Aes128CmHmacSha1_32,
        ProtectionProfile::Aes256CmHmacSha1_80,
        ProtectionProfile::Aes256CmHmacSha1_32,
        ProtectionProfile::AeadAes128Gcm,
        ProtectionProfile::AeadAes256Gcm,
    ];
    for profile in profiles {
        let (key, salt) = (vec![5; profile.key_len()], vec![6; profile.salt_len()]);
        let context = || new_context(&key, &salt, profile).unwrap();
        assert!(new_context(&key[1..], &salt, profile).is_none());
        assert!(new_context(&key, &salt[1..], profile).is_none());
        let (mut near, mut far) = (context(), context());

        // Control: every packet opens, in any order, also at a new context.
        let pli = send_pli(1, false, true, Some(2), &None, &mut None).unwrap();
        let first = encrypt_rtcp(&mut near, &pli).unwrap();
        let second = encrypt_rtcp(&mut near, &pli).unwrap();
        assert_ne!(first, second);
        assert!(first.len() >= srtcp_min_len(profile) && first[..8] == pli[..8]);
        let open = |c: &mut Context, p: &[u8]| decrypt_rtcp_checked(c, p, Some(profile));
        assert_eq!(open(&mut far, &second), Some(pli.clone()));
        assert_eq!(open(&mut far, &first), Some(pli.clone()));
        assert_eq!(open(&mut context(), &second), Some(pli.clone()));
        let mut forged = first.clone();
        forged[9] ^= 1;
        assert_eq!(open(&mut far, &forged), None);

        // Media: a stream opens from its first packet on, after forgeries too.
        let plain = bytes(96, 65_535);
        let sealed = encrypt_rtp(&mut near, &plain).unwrap();
        assert_eq!(sealed[..12], plain[..12]);
        assert_ne!(sealed[12..17], plain[12..17]);
        let mut forged = sealed.clone();
        forged[13] ^= 1;
        assert_eq!(decrypt_rtp(&mut far, &forged), None);
        assert_eq!(decrypt_rtp(&mut far, &sealed), Some(plain));
        let wrapped = bytes(96, 0);
        let sealed = encrypt_rtp(&mut near, &wrapped).unwrap();
        assert_eq!(decrypt_rtp(&mut far, &sealed), Some(wrapped));
        // A later round opens too, with packets lost and out of order.
        for sn in [30_000u16, 60_000, 20_000, 10_000, 20_001] {
            let plain = bytes(96, sn);
            let late = encrypt_rtp(&mut near, &plain).unwrap();
            if sn != 10_000 {
                assert_eq!(decrypt_rtp(&mut far, &late), Some(plain));
            }
        }
        // So does a packet with a header extension that its elements fill.
        let mut ext = vec![0x90u8, 96, 0x4E, 0x22, 0, 0, 0, 1, 0, 0, 0, 0x55];
        ext.extend_from_slice(&[0xBE, 0xDE, 0, 1, 0x12, 1, 2, 3, 9, 8, 7]);
        let late = encrypt_rtp(&mut near, &ext).unwrap();
        assert_eq!(late[..20], ext[..20]);
        assert_eq!(decrypt_rtp(&mut far, &late), Some(ext));
        // One that begins in the middle does not know the rollover.
        assert_eq!(decrypt_rtp(&mut context(), &sealed), None);
    }
}
