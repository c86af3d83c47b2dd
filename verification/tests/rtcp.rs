use projectrtp::rtcp::{
    build_compound, ntp_from_system_time, ntp_middle_32, ntp_now, parse, ParseError, ReportBlock,
    RtcpItem, SenderInfo, SystemTime, NTP_UNIX_OFFSET_SECS,
};

fn sample_report(ssrc: u32) -> ReportBlock {
    ReportBlock {
        ssrc,
        fraction_lost: 12,
        cumulative_lost: -5,
        ext_highest_seq: 0x0001_2345,
        jitter: 4321,
        lsr: 0xAABB_CCDD,
        dlsr: 0x0000_1000,
    }
}

fn sample_sender_info() -> SenderInfo {
    SenderInfo {
        ntp_sec: 0xE0E1_E2E3,
        ntp_frac: 0x1122_3344,
        rtp_ts: 0x0002_0000,
        packet_count: 500,
        octet_count: 80_000,
    }
}

#[test]
fn compound_is_32bit_aligned() {
    let pkt = build_compound(
        0x1234_5678,
        Some(&sample_sender_info()),
        &[sample_report(0xDEAD_BEEF)],
        Some("host@example.com"),
        false,
    );
    assert_eq!(pkt.len() % 4, 0, "compound must be word-aligned");
}

#[test]
fn sr_roundtrip() {
    let info = sample_sender_info();
    let r = sample_report(0xDEAD_BEEF);
    let pkt = build_compound(0x1234_5678, Some(&info), &[r], Some("a@b"), false);

    let items = parse(&pkt).expect("parse");
    assert_eq!(items.len(), 1, "SDES is skipped, only SR surfaces");
    match &items[0] {
        RtcpItem::SenderReport {
            ssrc,
            info: got_info,
            reports,
        } => {
            assert_eq!(*ssrc, 0x1234_5678);
            assert_eq!(*got_info, info);
            assert_eq!(reports.len(), 1);
            assert_eq!(reports[0], r);
        }
        other => panic!("expected SR, got {other:?}"),
    }
}

#[test]
fn rr_roundtrip() {
    let r0 = sample_report(0x1111_1111);
    let r1 = sample_report(0x2222_2222);
    let pkt = build_compound(0xABCD_0000, None, &[r0, r1], Some("cn"), false);

    let items = parse(&pkt).expect("parse");
    match &items[0] {
        RtcpItem::ReceiverReport { ssrc, reports } => {
            assert_eq!(*ssrc, 0xABCD_0000);
            assert_eq!(reports.len(), 2);
            assert_eq!(reports[0], r0);
            assert_eq!(reports[1], r1);
        }
        other => panic!("expected RR, got {other:?}"),
    }
}

#[test]
fn bye_roundtrip() {
    let pkt = build_compound(0x0BAD_F00D, None, &[], None, true);
    let items = parse(&pkt).expect("parse");
    // RR (with zero reports) then BYE.
    assert!(matches!(items[0], RtcpItem::ReceiverReport { .. }));
    match items.last().unwrap() {
        RtcpItem::Bye { ssrcs } => assert_eq!(ssrcs, &vec![0x0BAD_F00D]),
        other => panic!("expected BYE, got {other:?}"),
    }
}

#[test]
fn negative_cumulative_lost_survives() {
    // Duplicates can make cumulative lost negative (RFC 3550 A.3).
    let mut r = sample_report(1);
    r.cumulative_lost = -100;
    let pkt = build_compound(9, None, &[r], None, false);
    let items = parse(&pkt).unwrap();
    if let RtcpItem::ReceiverReport { reports, .. } = &items[0] {
        assert_eq!(reports[0].cumulative_lost, -100);
    } else {
        panic!("expected RR");
    }
}

#[test]
fn parse_rejects_bad_version() {
    let mut pkt = build_compound(1, None, &[], None, false);
    pkt[0] = 0x40; // version 1
    assert_eq!(parse(&pkt), Err(ParseError::BadVersion));
}

#[test]
fn parse_rejects_short_buffer() {
    assert_eq!(parse(&[0x80, 201]), Err(ParseError::TooShort));
}

#[test]
fn parse_rejects_length_overrun() {
    let mut pkt = build_compound(1, None, &[sample_report(1)], None, false);
    // Claim a huge length in the first sub-packet header.
    pkt[2] = 0xFF;
    pkt[3] = 0xFF;
    assert_eq!(parse(&pkt), Err(ParseError::BadLength));
}

#[test]
fn parse_captured_sr_bytes() {
    // A hand-authored SR: sender SSRC 0x11223344, one report block for
    // source 0x55667788. Verifies we decode a wire-format packet that we
    // did not encode ourselves.
    let pkt: [u8; 52] = [
        0x81, 200, 0x00, 0x0C,             // V=2 RC=1 PT=SR len=12 (13 words)
        0x11, 0x22, 0x33, 0x44,             // sender SSRC
        0x83, 0xAA, 0x7E, 0x80,             // NTP sec
        0x00, 0x00, 0x00, 0x00,             // NTP frac
        0x00, 0x00, 0x27, 0x10,             // RTP ts = 10000
        0x00, 0x00, 0x00, 0x64,             // packet count = 100
        0x00, 0x00, 0x3E, 0x80,             // octet count = 16000
        0x55, 0x66, 0x77, 0x88,             // report: SSRC
        0x00, 0x00, 0x00, 0x00,             // fraction 0, cumulative 0
        0x00, 0x00, 0x01, 0x00,             // ext highest seq = 256
        0x00, 0x00, 0x00, 0x0A,             // jitter = 10
        0x00, 0x00, 0x00, 0x00,             // LSR
        0x00, 0x00, 0x00, 0x00,             // DLSR
    ];
    let items = parse(&pkt).expect("parse captured SR");
    match &items[0] {
        RtcpItem::SenderReport {
            ssrc,
            info,
            reports,
        } => {
            assert_eq!(*ssrc, 0x1122_3344);
            assert_eq!(info.rtp_ts, 10_000);
            assert_eq!(info.packet_count, 100);
            assert_eq!(info.octet_count, 16_000);
            assert_eq!(reports.len(), 1);
            assert_eq!(reports[0].ssrc, 0x5566_7788);
            assert_eq!(reports[0].ext_highest_seq, 256);
            assert_eq!(reports[0].jitter, 10);
        }
        other => panic!("expected SR, got {other:?}"),
    }
}

#[test]
fn ntp_epoch_offset_is_applied() {
    // At the Unix epoch, NTP seconds equal the 1900 to 1970 offset.
    let (sec, frac) = ntp_from_system_time(SystemTime::SinceEpoch { secs: 0, nanos: 0 });
    assert_eq!(sec, NTP_UNIX_OFFSET_SECS as u32);
    assert_eq!(frac, 0);
}

#[test]
fn ntp_middle_32_packs_correctly() {
    let mid = ntp_middle_32(0xAABB_CCDD, 0x1122_3344);
    // low 16 of sec (CCDD) then high 16 of frac (1122).
    assert_eq!(mid, 0xCCDD_1122);
}

#[test]
fn fraction_of_a_second_is_scaled() {
    let (sec, frac) = ntp_from_system_time(SystemTime::SinceEpoch { secs: 1, nanos: 500_000_000 });
    assert_eq!(sec, NTP_UNIX_OFFSET_SECS as u32 + 1);
    assert_eq!(frac, 0x8000_0000);
    // Seconds wrap with the era.
    let (sec, _) = ntp_from_system_time(SystemTime::SinceEpoch { secs: 0x1_0000_0000, nanos: 0 });
    assert_eq!(sec, NTP_UNIX_OFFSET_SECS as u32);
}

#[test]
fn the_clock_runs() {
    let (sec, _) = ntp_now();
    // Some time after 2020.
    assert!(sec > NTP_UNIX_OFFSET_SECS as u32 + 1_577_836_800);
}

#[test]
fn sdes_is_padded_with_at_least_one_null() {
    for len in 0..9usize {
        let name: String = (0..len).map(|_| 'x').collect();
        let pkt = build_compound(1, None, &[], Some(&name), false);
        assert_eq!(pkt.len() % 4, 0);
        // RR header and SSRC, then SDES.
        let sdes = &pkt[8..];
        assert_eq!(sdes[0], 0x81);
        assert_eq!(sdes[1], 202);
        assert_eq!(sdes[8], 1);
        assert_eq!(sdes[9] as usize, len);
        assert!(sdes.len() > 10 + len, "no null behind the item");
        assert!(sdes[10 + len..].iter().all(|b| *b == 0));
        assert_eq!(
            (u16::from_be_bytes([sdes[2], sdes[3]]) as usize + 1) * 4,
            sdes.len()
        );
    }
}

#[test]
fn reports_beyond_the_count_field_are_left_out() {
    let rs: Vec<ReportBlock> = (0..40u32).map(sample_report).collect();
    let pkt = build_compound(7, None, &rs, None, false);
    assert_eq!(pkt[0] & 0x1F, 31);
    match &parse(&pkt).unwrap()[0] {
        RtcpItem::ReceiverReport { reports, .. } => assert_eq!(reports[..], rs[..31]),
        other => panic!("expected RR, got {other:?}"),
    }
}

#[test]
fn a_time_before_the_epoch_reads_as_the_epoch() {
    let epoch = ntp_from_system_time(SystemTime::SinceEpoch { secs: 0, nanos: 0 });
    assert_eq!(epoch, (2_208_988_800, 0));
    let half = ntp_from_system_time(SystemTime::SinceEpoch { secs: 0, nanos: 500_000_000 });
    assert_eq!(half, (2_208_988_800, 0x8000_0000));
    let before = ntp_from_system_time(SystemTime::BeforeEpoch { secs: 1, nanos: 5 });
    assert_eq!(before, epoch);
}
