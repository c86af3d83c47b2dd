use projectrtp::rtcp::ReportBlock;
use projectrtp::rtcp_stats::{
    compute_rtt, RemoteReport, RxStats, DEFAULT_CLOCK_RATE, MAX_DROPOUT, RTP_SEQ_MOD,
};

/// Feed a sequence of (seq, ts) pairs with arrival == ts (zero jitter).
fn feed(rx: &mut RxStats, pairs: &[(u16, u32)]) {
    for &(seq, ts) in pairs {
        rx.update(seq, ts, ts);
    }
}

/// The jitter estimate that the deviations of a run of packets come to.
fn jitter_of(rx: &mut RxStats, packets: &[(u16, u32, u32)]) -> u32 {
    let mut jitter = 0.0f64;
    for &(seq, ts, arrival) in packets {
        rx.update(seq, ts, arrival);
        if let Some(d) = rx.deviation() {
            jitter += (f64::from(d) - jitter) / 16.0;
        }
    }
    jitter as u32
}

#[test]
fn in_order_no_loss() {
    let mut rx = RxStats::new(DEFAULT_CLOCK_RATE);
    let pairs: Vec<(u16, u32)> = (100u16..=110).map(|s| (s, s as u32 * 160)).collect();
    feed(&mut rx, &pairs);
    // Probation consumes seq 100; base latches at 101.
    assert_eq!(rx.ext_max(), 110);
    assert_eq!(rx.expected(), 10);
    assert_eq!(rx.received(), 10);
    assert_eq!(rx.cumulative_lost(), 0);
}

#[test]
fn gap_counts_as_loss() {
    let mut rx = RxStats::new(DEFAULT_CLOCK_RATE);
    // 103 and 104 are lost.
    feed(
        &mut rx,
        &[(100, 0), (101, 160), (102, 320), (105, 800), (106, 960)],
    );
    assert_eq!(rx.expected(), 6); // 101..=106
    assert_eq!(rx.received(), 4); // 101,102,105,106
    assert_eq!(rx.cumulative_lost(), 2);
}

#[test]
fn reorder_within_window_is_not_loss() {
    let mut rx = RxStats::new(DEFAULT_CLOCK_RATE);
    feed(
        &mut rx,
        &[(100, 0), (101, 160), (102, 320), (104, 640), (103, 480)],
    );
    assert_eq!(rx.ext_max(), 104);
    assert_eq!(rx.received(), 4); // 101,102,104,103 all counted
    assert_eq!(rx.cumulative_lost(), 0);
}

#[test]
fn sequence_wrap_is_handled() {
    let mut rx = RxStats::new(DEFAULT_CLOCK_RATE);
    feed(
        &mut rx,
        &[(65534, 0), (65535, 160), (0, 320), (1, 480), (2, 640)],
    );
    // base latches at 65535; cycle crossed at seq 0.
    assert_eq!(rx.ext_max(), RTP_SEQ_MOD + 2);
    assert_eq!(rx.expected(), 4);
    assert_eq!(rx.received(), 4);
    assert_eq!(rx.cumulative_lost(), 0);
}

#[test]
fn duplicate_packet_is_counted_no_loss() {
    let mut rx = RxStats::new(DEFAULT_CLOCK_RATE);
    // 102 arrives twice.
    feed(&mut rx, &[(100, 0), (101, 160), (102, 320), (102, 320)]);
    assert_eq!(rx.ext_max(), 102);
    assert_eq!(rx.received(), 3); // 101, 102, dup-102
    // expected = 2, received = 3: negative cumulative loss (RFC A.3).
    assert_eq!(rx.expected(), 2);
    assert_eq!(rx.cumulative_lost(), -1);
}

#[test]
fn zero_jitter_for_evenly_spaced_arrivals() {
    let mut rx = RxStats::new(DEFAULT_CLOCK_RATE);
    // arrival == ts for every packet: transit constant, jitter 0.
    let j = jitter_of(
        &mut rx,
        &[(100, 0, 0), (101, 160, 160), (102, 320, 320), (103, 480, 480)],
    );
    assert_eq!(j, 0);
}

#[test]
fn jitter_grows_with_uneven_arrivals() {
    let mut rx = RxStats::new(DEFAULT_CLOCK_RATE);
    // ts steps by 160; arrival steps by 200 then 240: transit changes.
    let j = jitter_of(
        &mut rx,
        &[
            (100, 0, 0),     // probation
            (101, 160, 200), // first valid: sets transit
            (102, 320, 400), // transit jumps: jitter rises
            (103, 480, 640),
        ],
    );
    assert!(j > 0, "jitter should be positive, got {j}");
}

#[test]
fn fraction_lost_over_intervals() {
    let mut rx = RxStats::new(DEFAULT_CLOCK_RATE);
    // Interval 1: clean run 101..=104.
    feed(
        &mut rx,
        &[(100, 0), (101, 160), (102, 320), (103, 480), (104, 640)],
    );
    assert_eq!(rx.fraction_lost(), 0);
    // Interval 2: 105,106 then jump to 109,110: 107,108 lost.
    feed(&mut rx, &[(105, 800), (106, 960), (109, 1440), (110, 1600)]);
    // expected_interval = 6, received_interval = 4, lost = 2: (2<<8)/6 = 85.
    assert_eq!(rx.fraction_lost(), 85);
}

#[test]
fn dlsr_and_lsr_zero_without_sender_report() {
    let rx = RxStats::new(DEFAULT_CLOCK_RATE);
    let now = 12_345_678;
    assert_eq!(rx.lsr(), 0);
    assert_eq!(rx.dlsr(now), 0);
}

#[test]
fn compute_rtt_none_without_lsr() {
    assert!(compute_rtt(0x1234_5678, 0, 0).is_none());
}

#[test]
fn compute_rtt_basic() {
    // now - lsr = 0x20000 units (2 s); dlsr = 0x10000 units (1 s): 1 s RTT.
    let units = compute_rtt(0x0003_0000, 0x0001_0000, 0x0001_0000).unwrap();
    let rtt = f64::from(units) / 65_536.0 * 1000.0;
    assert!((rtt - 1000.0).abs() < 0.01, "rtt was {rtt}");
}

#[test]
fn report_block_none_before_first_packet() {
    let mut rx = RxStats::new(DEFAULT_CLOCK_RATE);
    assert!(rx.report_block(1_000, 0).is_none());
}

#[test]
fn report_block_carries_latched_ssrc() {
    let mut rx = RxStats::new(DEFAULT_CLOCK_RATE);
    let now = 77_000_000;
    rx.on_packet_at(0xCAFE_BABE, 100, 0, now);
    rx.on_packet_at(0xCAFE_BABE, 101, 160, now);
    let rb = rx.report_block(now, 0).expect("have ssrc");
    assert_eq!(rb.ssrc, 0xCAFE_BABE);
}

#[test]
fn report_block_holds_every_figure() {
    let mut rx = RxStats::new(DEFAULT_CLOCK_RATE);
    for (seq, ts) in [(100u16, 0u32), (101, 160), (102, 320), (105, 800)] {
        rx.on_packet_at(9, seq, ts, 1_000_000_000);
    }
    rx.note_sender_report(0x0001_0002, 0x0003_0004, 2_000_000_000);
    // A second and a half later.
    let rb = rx.report_block(3_500_000_000, 17).unwrap();
    assert_eq!(
        rb,
        ReportBlock {
            ssrc: 9,
            fraction_lost: (2 * 256 / 5) as u8,
            cumulative_lost: 2,
            ext_highest_seq: 105,
            jitter: 17,
            lsr: 0x0002_0003,
            dlsr: 0x1_8000,
        }
    );
    // The interval is closed, the session is not.
    assert_eq!(rx.fraction_lost(), 0);
    assert_eq!(rx.fraction_lost_session(), 102);
}

#[test]
fn arrival_is_counted_in_clock_units_from_the_first_packet() {
    let mut rx = RxStats::new(8000);
    // 20 ms apart and 160 units apart: the transit time stays.
    for k in 0..4u16 {
        let at = 7_000_000_000 + u64::from(k) * 20_000_000;
        rx.on_packet_at(1, 100 + k, u32::from(k) * 160, at);
    }
    assert_eq!(rx.deviation(), Some(0));
    // 5 ms late is 40 units.
    rx.on_packet_at(1, 104, 640, 7_000_000_000 + 85_000_000);
    assert_eq!(rx.deviation(), Some(40));
}

#[test]
fn a_jump_restarts_only_with_two_in_a_row() {
    let mut rx = RxStats::new(DEFAULT_CLOCK_RATE);
    feed(&mut rx, &[(100, 0), (101, 160), (102, 320)]);
    let far = 102 + MAX_DROPOUT;
    assert!(!rx.update(far, 0, 0));
    assert_eq!(rx.ext_max(), 102);
    assert!(rx.update(far + 1, 160, 160));
    assert_eq!(rx.ext_max(), u32::from(far) + 1);
    assert_eq!(rx.received(), 1);
}

#[test]
fn source_moves_on_the_second_packet_in_a_row() {
    let mut rx = RxStats::new(DEFAULT_CLOCK_RATE);
    rx.on_packet_at(1, 10, 0, 0);
    rx.on_packet_at(2, 50, 0, 0);
    assert_eq!(rx.remote_ssrc(), Some(1));
    rx.on_packet_at(1, 11, 0, 0);
    rx.on_packet_at(2, 51, 0, 0);
    assert_eq!(rx.remote_ssrc(), Some(1), "not in a row");
    rx.on_packet_at(2, 52, 0, 0);
    assert_eq!(rx.remote_ssrc(), Some(2));
}

#[test]
fn report_about_us_is_folded_and_keeps_an_old_round_trip() {
    let mut r = RemoteReport::default();
    assert!(!r.valid && r.rtt.is_none());
    let rb = ReportBlock {
        ssrc: 1,
        fraction_lost: 3,
        cumulative_lost: -4,
        ext_highest_seq: 5,
        jitter: 6,
        lsr: 0x100,
        dlsr: 0x10,
    };
    r.update_from(&rb, 0x200);
    assert!(r.valid);
    assert_eq!((r.fraction_lost, r.cumulative_lost, r.ext_highest_seq, r.jitter), (3, -4, 5, 6));
    assert_eq!(r.rtt, Some(0xF0));
    r.update_from(&ReportBlock { lsr: 0, fraction_lost: 9, ..rb }, 0x300);
    assert_eq!(r.fraction_lost, 9);
    assert_eq!(r.rtt, Some(0xF0), "no echo keeps the last round trip");
}
