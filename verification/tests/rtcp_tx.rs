use projectrtp::endpoint::Endpoint;
use projectrtp::rtcp::{parse, RtcpItem};
use projectrtp::rtcp_tx::{
    due_report, maybe_send_rtcp, next_interval_ticks, next_unit, report_now, rtcp_remote_addr,
    send_bye, RtcpSchedule, RTCP_MIN_INTERVAL_TICKS,
};
use projectrtp::srtp::{new_context, ProtectionProfile};
use projectrtp::state::ChannelState;

const RTCP_COMPENSATION: f64 = 1.21828;

#[test]
fn interval_stays_within_rfc_bounds() {
    let mut rng = 0x1234_5678_9abc_def0u64;
    let lo = (RTCP_MIN_INTERVAL_TICKS as f64 * 0.5 / RTCP_COMPENSATION) as u64;
    let hi = (RTCP_MIN_INTERVAL_TICKS as f64 * 1.5 / RTCP_COMPENSATION) as u64;
    for _ in 0..100_000 {
        let t = next_interval_ticks(&mut rng);
        assert!(t >= lo && t <= hi, "interval {t} out of [{lo},{hi}]");
    }
}

#[test]
fn unit_is_in_unit_interval() {
    let mut rng = 0x0fed_cba9_8765_4321u64;
    for _ in 0..100_000 {
        let u = next_unit(&mut rng) as f64 / (1u64 << 53) as f64;
        assert!((0.0..1.0).contains(&u), "unit {u} out of [0,1)");
    }
}

#[test]
fn interval_is_the_scaled_minimum() {
    let mut rng = 0x0bad_cafe_1234_5678u64;
    for _ in 0..10_000 {
        let mut same = rng;
        let unit = next_unit(&mut same) as f64 / (1u64 << 53) as f64;
        let want = (RTCP_MIN_INTERVAL_TICKS as f64 * (0.5 + unit) / RTCP_COMPENSATION) as u64;
        assert_eq!(next_interval_ticks(&mut rng), want);
        assert_eq!(rng, same);
    }
}

#[test]
fn generator_first_steps() {
    let mut rng = 1u64;
    let first = next_unit(&mut rng);
    // 1 ^ (1 << 25), then folded by its high bits.
    assert_eq!(rng, 0x0200_0001);
    assert_eq!(first, 0x0200_0001u64.wrapping_mul(0x2545_F491_4F6C_DD1D) >> 11);
}

#[test]
fn first_report_comes_after_half_an_interval() {
    let mut s = RtcpSchedule { next_tick: 0, rng: 99 };
    let mut rng = 99u64;
    let half = next_interval_ticks(&mut rng) / 2;
    assert!(!s.poll(10));
    assert_eq!(s.next_tick, 10 + half);
    assert!(!s.poll(10 + half - 1));
    let whole = next_interval_ticks(&mut rng);
    assert!(s.poll(10 + half));
    assert_eq!(s.next_tick, 10 + half + whole);
    assert!(!s.poll(10 + half + 1));
}

fn channel() -> ChannelState {
    ChannelState::new(0x00AB_CDEF, "192.0.2.1", 1)
}

#[test]
fn channel_starts_with_a_name_and_a_seed() {
    let c = channel();
    assert_eq!(c.cname, "00abcdef@192.0.2.1");
    assert_eq!(c.rtcp.rng, (1 ^ (0x00AB_CDEFu64 << 32)) | 1);
    assert!(c.get_remote_addr().is_none());
    assert!(c.inbound.gates.rtp.is_none() && c.inbound.gates.rtcp.is_none());
    let report = c.recv.remote_report;
    assert!(!report.valid && report.rtt.is_none());
    assert_eq!((report.fraction_lost, report.cumulative_lost), (0, 0));
    assert_eq!((report.ext_highest_seq, report.jitter), (0, 0));
    // Nanoseconds that cancel the SSRC still leave a seed.
    let z = ChannelState::new(5, "::1", 5u64 << 32);
    assert_eq!(z.rtcp.rng, 1);
}

#[test]
fn control_goes_to_the_next_port_unless_shared() {
    let mut c = channel();
    assert!(rtcp_remote_addr(&c).is_none());
    let v4 = Endpoint::V4 { ip: [10, 0, 0, 1], port: 65535 };
    c.set_remote_addr(v4);
    assert_eq!(
        rtcp_remote_addr(&c),
        Some(Endpoint::V4 { ip: [10, 0, 0, 1], port: 0 })
    );
    c.rtcpmux = true;
    assert_eq!(rtcp_remote_addr(&c), Some(v4));
    let v6 = Endpoint::V6 { ip: [1; 16], port: 8, flowinfo: 3, scope_id: 4 };
    c.set_remote_addr(v6);
    assert_eq!(rtcp_remote_addr(&c), Some(v6));
    c.rtcpmux = false;
    assert_eq!(
        rtcp_remote_addr(&c),
        Some(Endpoint::V6 { ip: [1; 16], port: 9, flowinfo: 0, scope_id: 0 })
    );
}

#[test]
fn receiver_report_until_something_was_sent() {
    let mut c = channel();
    c.set_remote_addr(Endpoint::V4 { ip: [10, 0, 0, 1], port: 4000 });
    let (to, bytes) = report_now(&mut c, 0, 0, (1, 2), false).unwrap();
    assert_eq!(to.port(), 4001);
    assert_eq!(
        parse(&bytes).unwrap(),
        vec![RtcpItem::ReceiverReport { ssrc: 0x00AB_CDEF, reports: vec![] }]
    );
    // CNAME follows.
    let text = b"00abcdef@192.0.2.1";
    assert!(bytes.windows(text.len()).any(|w| w == text));

    c.out_count = 0x1_0000_0002;
    c.out_octets = 0x2_0000_0003;
    c.out_ts = 77;
    c.recv.rx_stats.on_packet_at(0x55, 10, 0, 0);
    c.recv.rx_stats.on_packet_at(0x55, 11, 160, 0);
    let (_, bytes) = report_now(&mut c, 0, 33, (1, 2), true).unwrap();
    let items = parse(&bytes).unwrap();
    assert_eq!(items.len(), 2);
    match &items[0] {
        RtcpItem::SenderReport { ssrc, info, reports } => {
            assert_eq!(*ssrc, 0x00AB_CDEF);
            assert_eq!((info.ntp_sec, info.ntp_frac, info.rtp_ts), (1, 2, 77));
            assert_eq!((info.packet_count, info.octet_count), (2, 3));
            assert_eq!(reports.len(), 1);
            assert_eq!((reports[0].ssrc, reports[0].jitter), (0x55, 33));
        }
        other => panic!("expected SR, got {other:?}"),
    }
    assert_eq!(items[1], RtcpItem::Bye { ssrcs: vec![0x00AB_CDEF] });
}

#[test]
fn reports_follow_the_schedule_even_without_a_remote() {
    let mut c = channel();
    c.tick_count = 1;
    assert!(due_report(&mut c, 0, 0, (1, 2)).is_none(), "scheduled only");
    let due = c.rtcp.next_tick;
    assert!(due > 1);
    c.tick_count = due;
    assert!(due_report(&mut c, 0, 0, (1, 2)).is_none(), "nowhere to send it");
    assert!(c.rtcp.next_tick > due, "scheduled anew all the same");
    c.set_remote_addr(Endpoint::V4 { ip: [10, 0, 0, 1], port: 4000 });
    c.tick_count = c.rtcp.next_tick - 1;
    assert!(maybe_send_rtcp(&mut c, 0, 0).is_none());
    c.tick_count += 1;
    assert!(maybe_send_rtcp(&mut c, 0, 0).is_some());
    assert!(send_bye(&mut c, 0, 0).is_some());
}

#[test]
fn reports_of_a_secure_channel_are_encrypted() {
    let mut c = channel();
    c.set_remote_addr(Endpoint::V4 { ip: [10, 0, 0, 1], port: 4000 });
    assert!(!c.secure_not_ready());
    c.dtls = true;
    assert!(c.secure_not_ready());
    c.srtp_encrypt = new_context(&[1; 16], &[2; 14], ProtectionProfile::Aes128CmHmacSha1_80);
    assert!(!c.secure_not_ready());
    let (_, bytes) = report_now(&mut c, 0, 0, (1, 2), false).unwrap();
    let mut plain = channel();
    plain.set_remote_addr(Endpoint::V4 { ip: [10, 0, 0, 1], port: 4000 });
    let (_, clear) = report_now(&mut plain, 0, 0, (1, 2), false).unwrap();
    // Index and tag are added, the payload is not readable, the header is.
    assert_eq!(bytes.len(), clear.len() + 14);
    assert_eq!(bytes[..8], clear[..8]);
    assert_ne!(bytes[8..clear.len()], clear[8..]);
    let mut remote =
        new_context(&[1; 16], &[2; 14], ProtectionProfile::Aes128CmHmacSha1_80).unwrap();
    assert_eq!(remote.decrypt_rtcp(&bytes).unwrap()[..], clear[..]);
}

/// While the far end expects keys and there are none, no report goes out; with
/// keys it is protected.
#[test]
fn no_report_in_the_clear_before_the_keys() {
    let mut c = channel();
    c.set_remote_addr(Endpoint::V4 { ip: [10, 0, 0, 1], port: 4000 });
    c.dtls = true;
    assert!(c.secure_not_ready());
    assert!(report_now(&mut c, 0, 0, (1, 2), false).is_none());
    assert!(report_now(&mut c, 0, 0, (1, 2), true).is_none());
    assert!(send_bye(&mut c, 0, 0).is_none());
    c.srtp_encrypt = new_context(&[1; 16], &[2; 14], ProtectionProfile::Aes128CmHmacSha1_80);
    let (_, sealed) = report_now(&mut c, 0, 0, (1, 2), false).unwrap();
    c.srtp_encrypt = None;
    c.dtls = false;
    let (_, plain) = report_now(&mut c, 0, 0, (1, 2), false).unwrap();
    let mut far =
        new_context(&[1; 16], &[2; 14], ProtectionProfile::Aes128CmHmacSha1_80).unwrap();
    assert_ne!(sealed, plain);
    assert_eq!(far.decrypt_rtcp(&sealed).unwrap()[..], plain[..]);
}
