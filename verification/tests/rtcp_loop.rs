use projectrtp::rtcp::{build_compound, ReportBlock, SenderInfo};
use projectrtp::rtcp_loop::{handle_packet, handle_rtcp_plain};
use projectrtp::rtcp_stats::{RemoteReport, RxStats, DEFAULT_CLOCK_RATE};

fn block(ssrc: u32, jitter: u32) -> ReportBlock {
    ReportBlock {
        ssrc,
        fraction_lost: 1,
        cumulative_lost: 2,
        ext_highest_seq: 3,
        jitter,
        lsr: 0x10,
        dlsr: 0x2,
    }
}

#[test]
fn sender_report_is_noted_and_its_block_about_us_folded() {
    let mut rx = RxStats::new(DEFAULT_CLOCK_RATE);
    let mut rr = RemoteReport::default();
    let info = SenderInfo {
        ntp_sec: 0xAABB_CCDD,
        ntp_frac: 0x1122_3344,
        rtp_ts: 0,
        packet_count: 0,
        octet_count: 0,
    };
    let pkt = build_compound(5, Some(&info), &[block(8, 1), block(9, 4)], Some("x"), true);
    handle_rtcp_plain(&pkt, &mut rx, &mut rr, 9, 1_000_000_000, 0x20);
    assert_eq!(rx.lsr(), 0xCCDD_1122);
    assert_eq!(rx.dlsr(1_500_000_000), 0x8000);
    assert!(rr.valid);
    assert_eq!(rr.jitter, 4);
    assert_eq!(rr.rtt, Some(0xE));
}

#[test]
fn reports_about_others_change_nothing() {
    let mut rx = RxStats::new(DEFAULT_CLOCK_RATE);
    let mut rr = RemoteReport::default();
    let pkt = build_compound(5, None, &[block(8, 1)], None, false);
    handle_rtcp_plain(&pkt, &mut rx, &mut rr, 9, 0, 0);
    assert!(!rr.valid);
    assert_eq!(rx.lsr(), 0);
}

#[test]
fn what_cannot_be_read_is_ignored() {
    let mut rx = RxStats::new(DEFAULT_CLOCK_RATE);
    let mut rr = RemoteReport::default();
    for pkt in [&[][..], &[0x40, 201, 0, 1, 0, 0, 0, 5][..], &[0x80, 201, 9, 9][..]] {
        handle_rtcp_plain(pkt, &mut rx, &mut rr, 9, 0, 0);
    }
    assert!(!rr.valid);
}

#[test]
fn control_port_packets_are_folded() {
    let mut rx = RxStats::new(DEFAULT_CLOCK_RATE);
    let mut rr = RemoteReport::default();
    let pkt = build_compound(5, None, &[block(9, 6)], None, false);
    handle_packet(&mut rx, &mut rr, 9, &pkt, 0);
    assert!(rr.valid);
    assert_eq!(rr.jitter, 6);
    assert!(rr.rtt.is_some());
}
