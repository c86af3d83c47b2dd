//! What the receiver accounting comes to over a run of packets (RFC 3550
//! appendix A), and what reports say of it.
use vstd::prelude::*;

use crate::endpoint::Endpoint;
use crate::rtcp::{
    lemma_compound_roundtrip, lemma_wire_block_in_range, parsed, wire_block, Item, ReportBlock,
    SenderInfo,
};
use crate::rtcp_loop::{accounted, folded_all};
use crate::rtcp_stats::{rtt_of, RemoteReport, Rx};
use crate::rtcp_tx::{
    blocks_of, interval_of, lemma_interval_bounds, report_made, report_of, reporting,
    rtcp_destination, unit_of,
    RtcpSchedule, RTCP_COMPENSATION, RTCP_MIN_INTERVAL_TICKS,
};
use crate::state::ChannelState;

verus! {

/// A packet that arrives: its number, its timestamp, and its arrival in timestamp
/// units.
pub struct Arrival {
    pub seq: u16,
    pub ts: u32,
    pub at: u32,
}

/// The accounting after one packet.
#[verifier::opaque]
pub open spec fn heard(rx: Rx, p: Arrival) -> Rx {
    rx.updated(p.seq, p.ts, p.at)
}

/// The accounting after packets, in order.
pub open spec fn run(rx: Rx, pkts: Seq<Arrival>) -> Rx
    decreases pkts.len(),
{
    if pkts.len() == 0 {
        rx
    } else {
        heard(run(rx, pkts.drop_last()), pkts.last())
    }
}

/// The number of the packet before packet `i`, where `from` is before them all.
pub open spec fn before(from: u16, pkts: Seq<Arrival>, i: int) -> u16 {
    if i <= 0 {
        from
    } else {
        pkts[i - 1].seq
    }
}

/// Each packet is ahead of the one before it, by fewer than 3000.
pub open spec fn goes_on(from: u16, pkts: Seq<Arrival>) -> bool {
    forall|i: int|
        0 <= i < pkts.len() ==> 1 <= (#[trigger] pkts[i]).seq.wrapping_sub(before(from, pkts, i))
            < 3000
}

/// How many numbers the packets go on by.
pub open spec fn stride(from: u16, pkts: Seq<Arrival>) -> int
    decreases pkts.len(),
{
    if pkts.len() == 0 {
        0
    } else {
        stride(from, pkts.drop_last()) + pkts.last().seq.wrapping_sub(
            before(from, pkts, pkts.len() - 1),
        )
    }
}

proof fn lemma_sum_wraps(x: int, y: int)
    requires
        x % 0x1_0000_0000 == 0,
        y % 0x1_0000_0000 == 0,
    ensures
        (x + y) % 0x1_0000_0000 == 0,
{
}

proof fn lemma_reduced_wraps(x: int, y: int, d: int)
    requires
        (x - y - d) % 0x1_0000_0000 == 0,
    ensures
        (x % 0x1_0000_0000 - y % 0x1_0000_0000 - d) % 0x1_0000_0000 == 0,
{
}

/// One packet that goes on, by `d`.
proof fn lemma_goes_on(rx: Rx, p: Arrival, d: u16)
    requires
        rx.inv(),
        rx.initialized,
        rx.probation == 0,
        d == p.seq.wrapping_sub(rx.max_seq),
        1 <= d < 3000,
    ensures
        ({
            let after = heard(rx, p);
            &&& (after.expected() - rx.expected() - d) % 0x1_0000_0000 == 0
            &&& (after.received - rx.received - 1) % 0x1_0000_0000 == 0
            &&& (after.ext_max() - rx.ext_max() - d) % 0x1_0000_0000 == 0
            &&& after.max_seq == p.seq
            &&& after.expected_prior == rx.expected_prior
            &&& after.received_prior == rx.received_prior
            &&& after.base_seq == rx.base_seq
            &&& after.inv() && after.initialized && after.probation == 0
        }),
{
    reveal(heard);
    let after = heard(rx, p);
    assert(after.received == rx.received.wrapping_add(1));
    if p.seq < rx.max_seq {
        assert(p.seq == rx.max_seq + d - 0x1_0000);
        assert(after.cycles == rx.cycles.wrapping_add(0x1_0000));
    } else {
        assert(p.seq == rx.max_seq + d);
        assert(after.cycles == rx.cycles);
    }
    assert((after.ext_max() - rx.ext_max() - d) % 0x1_0000_0000 == 0);
    lemma_reduced_wraps(
        after.ext_max() - after.base_seq + 1,
        rx.ext_max() - rx.base_seq + 1,
        d as int,
    );
}

/// Over a run of packets that go on, as many packets more are expected as the
/// numbers go on by, and as many more were received as there were: so each
/// number that is skipped is a packet lost. The highest number is the last one.
#[verifier::rlimit(60)]
pub proof fn lemma_run(rx: Rx, pkts: Seq<Arrival>)
    requires
        rx.inv(),
        rx.initialized,
        rx.probation == 0,
        goes_on(rx.max_seq, pkts),
    ensures
        ({
            let after = run(rx, pkts);
            let n = stride(rx.max_seq, pkts);
            &&& pkts.len() <= n
            &&& (after.expected() - rx.expected() - n) % 0x1_0000_0000 == 0
            &&& (after.received - rx.received - pkts.len()) % 0x1_0000_0000 == 0
            &&& (after.ext_max() - rx.ext_max() - n) % 0x1_0000_0000 == 0
            &&& after.max_seq == before(rx.max_seq, pkts, pkts.len() as int)
            &&& after.expected_prior == rx.expected_prior
            &&& after.received_prior == rx.received_prior
            &&& after.base_seq == rx.base_seq
            &&& after.inv() && after.initialized && after.probation == 0
        }),
    decreases pkts.len(),
{
    if pkts.len() > 0 {
        let front = pkts.drop_last();
        let p = pkts.last();
        lemma_goes_on_before(rx.max_seq, pkts);
        lemma_run(rx, front);
        let mid = run(rx, front);
        assert(pkts[pkts.len() - 1] == p);
        assert(before(rx.max_seq, pkts, pkts.len() - 1) == mid.max_seq);
        let d = p.seq.wrapping_sub(mid.max_seq);
        lemma_goes_on(mid, p, d);
        let after = run(rx, pkts);
        assert(after == heard(mid, p));
        let n = stride(rx.max_seq, front);
        let all = stride(rx.max_seq, pkts);
        assert(all == n + d);
        assert((after.expected() - rx.expected() - all) % 0x1_0000_0000 == 0) by {
            lemma_sum_wraps(
                after.expected() - mid.expected() - d,
                mid.expected() - rx.expected() - n,
            );
        }
        assert((after.received - rx.received - pkts.len()) % 0x1_0000_0000 == 0) by {
            lemma_sum_wraps(
                after.received - mid.received - 1,
                mid.received - rx.received - front.len(),
            );
        }
        assert((after.ext_max() - rx.ext_max() - all) % 0x1_0000_0000 == 0) by {
            lemma_sum_wraps(
                after.ext_max() - mid.ext_max() - d,
                mid.ext_max() - rx.ext_max() - n,
            );
        }
    }
}

proof fn lemma_goes_on_before(from: u16, pkts: Seq<Arrival>)
    requires
        goes_on(from, pkts),
        pkts.len() > 0,
    ensures
        goes_on(from, pkts.drop_last()),
{
    let front = pkts.drop_last();
    assert forall|i: int| 0 <= i < front.len() implies 1 <= (
    #[trigger] front[i]).seq.wrapping_sub(before(from, front, i)) < 3000 by {
        assert(front[i] == pkts[i]);
        assert(before(from, front, i) == before(from, pkts, i));
    }
}

proof fn lemma_new_counts(rx: Rx, after: Rx, n: int, len: int)
    requires
        rx.inv(),
        after.inv(),
        rx.cycles == 0,
        rx.ext_max() == rx.base_seq,
        after.base_seq == rx.base_seq,
        rx.received == 1,
        0 <= len <= n < 0x80_0000,
        (after.ext_max() - rx.ext_max() - n) % 0x1_0000_0000 == 0,
        (after.received - rx.received - len) % 0x1_0000_0000 == 0,
    ensures
        after.ext_max() == rx.ext_max() + n,
        after.expected() == 1 + n,
        after.received == 1 + len,
{
}

/// A new source: its first two packets are in sequence, and then it goes on. One
/// packet is expected and received with the second, and after the run as many
/// more as it goes on by, and as it has; what is lost is the difference.
pub proof fn lemma_new_source(clock_rate: u32, first: Arrival, second: Arrival, pkts: Seq<Arrival>)
    requires
        second.seq == first.seq.wrapping_add(1),
        goes_on(second.seq, pkts),
        stride(second.seq, pkts) < 0x80_0000,
    ensures
        ({
            let rx = run(Rx::fresh(clock_rate), seq![first, second]);
            let after = run(rx, pkts);
            let n = stride(second.seq, pkts);
            &&& after.expected() == 1 + n
            &&& after.received == 1 + pkts.len()
            &&& after.lost() == n - pkts.len()
            &&& after.ext_max() == second.seq + n
        }),
{
    reveal(heard);
    let fresh = Rx::fresh(clock_rate);
    let two = seq![first, second];
    let one = two.drop_last();
    let none = one.drop_last();
    assert(one =~= seq![first]);
    assert(none =~= Seq::<Arrival>::empty());
    assert(run(fresh, none) == fresh);
    let a = heard(fresh, first);
    assert(run(fresh, one) == a);
    let rx = heard(a, second);
    assert(run(fresh, two) == rx);
    assert(rx.probation == 0 && rx.max_seq == second.seq && rx.received == 1);
    assert(rx.ext_max() == second.seq && rx.base_seq == second.seq);
    lemma_run(rx, pkts);
    lemma_new_counts(rx, run(rx, pkts), stride(second.seq, pkts), pkts.len() as int);
}

proof fn lemma_interval_counts(a: u32, b: u32, n: int)
    requires
        (a - b - n) % 0x1_0000_0000 == 0,
        0 <= n < 0x1_0000_0000,
    ensures
        a.wrapping_sub(b) == n,
{
}

/// The fraction lost of a report is that of the run since the report before it,
/// in 256ths, rounded down.
pub proof fn lemma_fraction_of_run(rx: Rx, pkts: Seq<Arrival>)
    requires
        rx.inv(),
        rx.initialized,
        rx.probation == 0,
        goes_on(rx.max_seq, pkts),
        pkts.len() > 0,
        stride(rx.max_seq, pkts) < 0x1_0000_0000,
    ensures
        ({
            let f = run(rx.reported(), pkts).interval_fraction() as int;
            let n = stride(rx.max_seq, pkts);
            f * n <= (n - pkts.len()) * 256 < (f + 1) * n
        }),
{
    let start = rx.reported();
    assert(start.max_seq == rx.max_seq);
    lemma_run(start, pkts);
    let after = run(start, pkts);
    let n = stride(rx.max_seq, pkts);
    let lost = n - pkts.len();
    lemma_interval_counts(after.expected(), start.expected(), n);
    lemma_interval_counts(after.received, start.received, pkts.len() as int);
    assert(after.expected_interval() == n);
    assert(after.received_interval() == pkts.len());
    if lost > 0 {
        let q = lost * 256 / n;
        assert(q * n <= lost * 256 < (q + 1) * n && 0 <= q < 256) by (nonlinear_arith)
            requires
                q == lost * 256 / n,
                0 < lost < n,
        ;
        assert(after.interval_fraction() == q);
    } else {
        assert(after.interval_fraction() == 0);
        assert(0 * n == 0 && (0 + 1) * n == n) by (nonlinear_arith);
    }
}

/// The fraction lost of a session is the packets lost of those expected, in
/// 256ths, rounded down, where some were lost and some received.
pub proof fn lemma_fraction_of_session(rx: Rx)
    requires
        0 < rx.expected() - rx.received < 0x80_0000,
        rx.received > 0,
    ensures
        ({
            let f = rx.session_fraction() as int;
            f * rx.expected() <= (rx.expected() - rx.received) * 256 < (f + 1) * rx.expected()
        }),
{
    let (e, l) = (rx.expected() as int, rx.expected() - rx.received);
    let q = l * 256 / e;
    assert(q * e <= l * 256 < (q + 1) * e && 0 <= q < 256) by (nonlinear_arith)
        requires
            q == l * 256 / e,
            0 < l < e,
    ;
}

/// More packets than expected are a loss below zero, never a fraction; and the
/// loss stays within 24 bits with sign.
pub proof fn lemma_gain_is_no_fraction(rx: Rx)
    ensures
        rx.received >= rx.expected() ==> rx.lost() <= 0 && rx.session_fraction() == 0,
        -0x80_0000 <= rx.lost() <= 0x7F_FFFF,
        -0x80_0000 <= rx.expected() - rx.received <= 0x7F_FFFF ==> rx.lost() == rx.expected()
            - rx.received,
{
}

/// The deviation of two packets that count, one after the other, is how much
/// longer or shorter the second was on its way: the difference of their arrivals
/// less that of their timestamps, the shorter way round.
pub proof fn lemma_deviation(rx: Rx, a: Arrival, b: Arrival)
    requires
        rx.initialized,
        rx.counts(a.seq),
        rx.updated(a.seq, a.ts, a.at).counts(b.seq),
    ensures
        ({
            let d = rx.updated(a.seq, a.ts, a.at).updated(b.seq, b.ts, b.at).deviation;
            let late = b.at.wrapping_sub(a.at).wrapping_sub(b.ts.wrapping_sub(a.ts));
            &&& d is Some
            &&& d->0 <= 0x8000_0000
            &&& late <= 0x8000_0000 ==> d->0 == late
            &&& late > 0x8000_0000 ==> d->0 == 0x1_0000_0000 - late
        }),
{
    let (ta, tb) = (a.at.wrapping_sub(a.ts), b.at.wrapping_sub(b.ts));
    let late = b.at.wrapping_sub(a.at).wrapping_sub(b.ts.wrapping_sub(a.ts));
    assert(late == tb.wrapping_sub(ta));
}

/// An arrival is counted in units of the clock from the first one, rounded down,
/// modulo 2^32.
pub proof fn lemma_arrival_units(rx: Rx, e: u64, now: u64)
    requires
        rx.epoch == Some(e),
        e <= now,
        (now - e) * rx.clock_rate / 1_000_000_000 < 0x1_0000_0000,
    ensures
        rx.units(now) * 1_000_000_000 <= (now - e) * rx.clock_rate < (rx.units(now) + 1)
            * 1_000_000_000,
        rx.units(e) == 0,
{
    let n = (now - e) * rx.clock_rate;
    assert(n >= 0) by (nonlinear_arith)
        requires
            n == (now - e) * rx.clock_rate,
            e <= now,
            rx.clock_rate >= 0,
    ;
    assert((e - e) * rx.clock_rate == 0) by (nonlinear_arith);
}

/// The delay since a sender report is the time since it arrived, in 65536ths of a
/// second, rounded down; it is none without one.
pub proof fn lemma_delay(rx: Rx, at: u64, now: u64)
    requires
        rx.last_sr_at == Some(at),
        at <= now,
        (now - at) * 65536 / 1_000_000_000 < 0x1_0000_0000,
    ensures
        rx.delay_since_sr(now) * 1_000_000_000 <= (now - at) * 65536 < (rx.delay_since_sr(now) + 1)
            * 1_000_000_000,
        (Rx { last_sr_at: None, ..rx }).delay_since_sr(now) == 0,
{
}

/// A report that echoes a sender report, which left at the middle time `sent` and
/// was held for `held`, arrives after the round trip that is measured.
pub proof fn lemma_round_trip(sent: u32, held: u32, rtt: u32)
    ensures
        sent != 0 ==> rtt_of(sent.wrapping_add(held).wrapping_add(rtt), sent, held) == Some(rtt),
        rtt_of(rtt, 0, held) is None,
{
}

/// The block about a source names it, says where its numbers are, and echoes the
/// sender report that was noted last, with the time since.
pub proof fn lemma_block_says(rx: Rx, ssrc: u32, now: u64, jitter: u32)
    requires
        rx.cycles + rx.max_seq < 0x1_0000_0000,
    ensures
        ({
            let b = rx.block(ssrc, now, jitter);
            &&& b.ssrc == ssrc
            &&& b.jitter == jitter
            &&& b.ext_highest_seq % 0x1_0000 == (rx.cycles + rx.max_seq) % 0x1_0000
            &&& b.ext_highest_seq == rx.cycles + rx.max_seq
            &&& b.cumulative_lost == rx.lost()
            &&& b.fraction_lost == rx.interval_fraction()
            &&& b.lsr == rx.last_sr_ntp_mid
            &&& b.dlsr == rx.delay_since_sr(now)
        }),
{
}

/// The peer's view of our stream is what the last block about it says, whatever
/// blocks about others come with it; the round-trip time is measured where the
/// block echoes a report, and else stays.
pub proof fn lemma_last_block_counts(
    report: RemoteReport,
    blocks: Seq<ReportBlock>,
    local_ssrc: u32,
    now_ntp_mid: u32,
    i: int,
)
    requires
        0 <= i < blocks.len(),
        blocks[i].ssrc == local_ssrc,
        forall|k: int| i < k < blocks.len() ==> (#[trigger] blocks[k]).ssrc != local_ssrc,
    ensures
        ({
            let after = folded_all(report, blocks, local_ssrc, now_ntp_mid);
            let b = blocks[i];
            &&& after.valid
            &&& after.fraction_lost == b.fraction_lost
            &&& after.cumulative_lost == b.cumulative_lost
            &&& after.ext_highest_seq == b.ext_highest_seq
            &&& after.jitter == b.jitter
            &&& b.lsr != 0 ==> after.rtt == Some(
                now_ntp_mid.wrapping_sub(b.lsr).wrapping_sub(b.dlsr),
            )
            &&& b.lsr == 0 ==> after.rtt == folded_all(
                report,
                blocks.take(i),
                local_ssrc,
                now_ntp_mid,
            ).rtt
        }),
    decreases blocks.len(),
{
    let front = blocks.drop_last();
    if i < front.len() {
        assert(front[i] == blocks[i]);
        assert forall|k: int| i < k < front.len() implies (#[trigger] front[k]).ssrc
            != local_ssrc by {
            assert(front[k] == blocks[k]);
        }
        lemma_last_block_counts(report, front, local_ssrc, now_ntp_mid, i);
        assert(blocks[blocks.len() - 1].ssrc != local_ssrc);
        assert(front.take(i) =~= blocks.take(i));
    } else {
        assert(blocks.take(i) =~= front);
    }
}

/// A compound is accounted item by item: what a sender report says of its time is
/// kept for the next report, with its arrival; the blocks of both kinds of report
/// are folded into the peer's view; and a BYE changes nothing.
pub proof fn lemma_items_are_accounted(
    rx: Rx,
    report: RemoteReport,
    items: Seq<Item>,
    item: Item,
    local_ssrc: u32,
    now: u64,
    now_ntp_mid: u32,
)
    ensures
        ({
            let (r, p) = accounted(rx, report, items, local_ssrc, now, now_ntp_mid);
            let (s, q) = accounted(rx, report, items.push(item), local_ssrc, now, now_ntp_mid);
            &&& item matches Item::SenderReport { info, reports, .. } ==> {
                &&& s.last_sr_ntp_mid == (info.ntp_sec * 0x1_0000_0000 + info.ntp_frac) / 0x1_0000
                    % 0x1_0000_0000
                &&& s.last_sr_at == Some(now)
                &&& s == (Rx {
                    last_sr_ntp_mid: s.last_sr_ntp_mid,
                    last_sr_at: s.last_sr_at,
                    ..r
                })
                &&& q == folded_all(p, reports, local_ssrc, now_ntp_mid)
            }
            &&& item matches Item::ReceiverReport { reports, .. } ==> s == r && q == folded_all(
                p,
                reports,
                local_ssrc,
                now_ntp_mid,
            )
            &&& item is Bye ==> s == r && q == p
        }),
{
    assert(items.push(item).drop_last() =~= items);
    assert(items.push(item).last() == item);
}

/// A report, read back: a sender report of what was sent once anything was, else
/// a receiver report; with the block about the source that is heard, if there is
/// one; and a BYE where the channel ends.
pub proof fn lemma_report_says(
    state: ChannelState,
    now: u64,
    jitter: u32,
    ntp: (u32, u32),
    bye: bool,
)
    ensures
        ({
            let rx = state.recv.rx_stats@;
            let b = report_of(state, now, jitter, ntp, bye);
            let items = parsed(b)->Ok_0;
            let blocks = match rx.remote_ssrc {
                Some(ssrc) => seq![rx.block(ssrc, now, jitter)],
                None => Seq::empty(),
            };
            &&& parsed(b) is Ok
            &&& items.len() == if bye {
                2int
            } else {
                1
            }
            &&& state.out_count > 0 ==> (items[0] matches Item::SenderReport {
                ssrc,
                info,
                reports,
            } && {
                &&& ssrc == state.recv.local_ssrc
                &&& (info.ntp_sec, info.ntp_frac) == ntp
                &&& info.rtp_ts == state.out_ts
                &&& (info.packet_count - state.out_count) % 0x1_0000_0000 == 0
                &&& (info.octet_count - state.out_octets) % 0x1_0000_0000 == 0
                &&& reports == blocks
            })
            &&& state.out_count == 0 ==> (items[0] matches Item::ReceiverReport { ssrc, reports }
                && ssrc == state.recv.local_ssrc && reports == blocks)
            &&& bye ==> items[1] == (Item::Bye { ssrcs: seq![state.recv.local_ssrc] })
        }),
{
    let rx = state.recv.rx_stats@;
    let blocks = blocks_of(rx, now, jitter);
    let info = SenderInfo {
        ntp_sec: ntp.0,
        ntp_frac: ntp.1,
        rtp_ts: state.out_ts,
        packet_count: (state.out_count % 0x1_0000_0000) as u32,
        octet_count: (state.out_octets % 0x1_0000_0000) as u32,
    };
    let name = Some(vstd::utf8::encode_utf8(state.cname@));
    let i = if state.out_count > 0 {
        Some(info)
    } else {
        None
    };
    lemma_compound_roundtrip(state.recv.local_ssrc, i, blocks, name, bye);
    if let Some(ssrc) = rx.remote_ssrc {
        lemma_gain_is_no_fraction(rx);
        lemma_wire_block_in_range(rx.block(ssrc, now, jitter));
    }
    let kept = crate::rtcp::reported(blocks);
    assert(kept =~= blocks);
    assert(kept.map_values(|r: ReportBlock| wire_block(r)) =~= blocks);
}

/// Control goes to where media goes, on the same port where they share it, else
/// on the next one; nowhere while that is not known.
pub proof fn lemma_destination(remote: Endpoint)
    ensures
        rtcp_destination(None, true) is None && rtcp_destination(None, false) is None,
        rtcp_destination(Some(remote), true) == Some(remote),
        ({
            let to = rtcp_destination(Some(remote), false);
            &&& to is Some
            &&& to->0.octets() == remote.octets()
            &&& (to->0 is V4) == (remote is V4)
            &&& to->0.spec_port() == remote.spec_port().wrapping_add(1)
        }),
{
}

/// An interval is 250 ticks, scaled by one half and a unit, of 2^53 to one, over
/// 1.21828, rounded down; a larger unit never gives a shorter one.
pub proof fn lemma_interval(unit: u64, more: u64)
    requires
        unit <= more < 0x20_0000_0000_0000,
    ensures
        interval_of(unit) * 121_828 * 0x20_0000_0000_0000 <= 25_000_000 * (0x10_0000_0000_0000
            + unit) < (interval_of(unit) + 1) * 121_828 * 0x20_0000_0000_0000,
        interval_of(unit) <= interval_of(more),
        102 <= interval_of(unit) <= 307,
{
    lemma_interval_bounds(unit);
    lemma_interval_bounds(more);
    let d = RTCP_COMPENSATION * 0x20_0000_0000_0000;
    let n = RTCP_MIN_INTERVAL_TICKS * (0x10_0000_0000_0000 + unit) * 100_000;
    let m = RTCP_MIN_INTERVAL_TICKS * (0x10_0000_0000_0000 + more) * 100_000;
    let (p, q) = (n / d, m / d);
    assert(0 <= p < 308 && p * d <= n < (p + 1) * d) by (nonlinear_arith)
        requires
            p == n / d,
            0 <= n < 308 * d,
            d > 0,
    ;
    assert(0 <= q < 308 && q * d <= m < (q + 1) * d) by (nonlinear_arith)
        requires
            q == m / d,
            0 <= m < 308 * d,
            d > 0,
    ;
    assert(interval_of(unit) == p && interval_of(more) == q);
    assert(p * d == p * 121_828 * 0x20_0000_0000_0000);
    assert((p + 1) * d == (p + 1) * 121_828 * 0x20_0000_0000_0000);
    assert(p <= q) by (nonlinear_arith)
        requires
            p * d <= n,
            n <= m,
            m < (q + 1) * d,
            d > 0,
    ;
}

/// The first report is due after half an interval, which is between 51 and 153
/// ticks, and not at the tick that schedules it; every other an interval after
/// the one before it, between 102 and 307 ticks; and between them none is.
pub proof fn lemma_schedule(s: RtcpSchedule, tick: u64, later: u64)
    requires
        tick <= u64::MAX - 307,
    ensures
        s.next_tick == 0 ==> {
            let next = s.ticked(tick).next_tick;
            &&& !s.due(tick)
            &&& tick + 51 <= next <= tick + 153
            &&& s.ticked(tick).due(later) == (later >= next)
        },
        s.next_tick != 0 && tick >= s.next_tick ==> {
            let next = s.ticked(tick).next_tick;
            &&& s.due(tick)
            &&& tick + 102 <= next <= tick + 307
            &&& s.ticked(tick).due(later) == (later >= next)
        },
        s.next_tick != 0 && tick < s.next_tick ==> !s.due(tick) && s.ticked(tick) == s,
{
    let rng = crate::rtcp_tx::stepped(s.rng);
    let unit = unit_of(rng);
    lemma_interval_bounds(unit);
}

/// A report of a channel without protection goes out as it is to where control
/// goes, and closes the interval; without a remote none does, and nothing changes.
/// One that is due goes out, and no other.
pub proof fn lemma_report_goes_out(
    state: ChannelState,
    now: u64,
    jitter: u32,
    ntp: (u32, u32),
    bye: bool,
)
    requires
        !state.dtls,
        state.srtp_encrypt is None,
    ensures
        ({
            let made = report_made(state, now, jitter, ntp, bye);
            let rx = state.recv.rx_stats@;
            match state.recv.remote_addr {
                Some(remote) => {
                    &&& made.sent == Some(
                        (
                            rtcp_destination(Some(remote), state.rtcpmux)->0,
                            report_of(state, now, jitter, ntp, bye),
                        ),
                    )
                    &&& rx.remote_ssrc is Some ==> made.rx == (Rx {
                        expected_prior: rx.expected(),
                        received_prior: rx.received,
                        ..rx
                    })
                    &&& rx.remote_ssrc is None ==> made.rx == rx
                },
                None => made.sent is None && made.rx == rx,
            }
        }),
        ({
            let next = reporting(state, now, jitter, ntp);
            let due = state.rtcp.next_tick != 0 && state.tick_count >= state.rtcp.next_tick;
            &&& due ==> next.sent == report_made(state, now, jitter, ntp, false).sent
            &&& !due ==> next.sent is None && next.rx == state.recv.rx_stats@
        }),
{
}

/// A packet that is heard names the source, unless another is accounted: then two of
/// a new SSRC in a row do, and one between them under the old one starts over. Times
/// are counted from the first packet, and the packet is accounted by its number, its
/// timestamp and its arrival in units.
pub proof fn lemma_packet_is_heard(rx: Rx, ssrc: u32, seq: u16, ts: u32, now: u64)
    ensures
        ({
            let after = rx.heard(ssrc, seq, ts, now);
            let counted = rx.updated(seq, ts, rx.units(now));
            let known = rx.remote_ssrc == Some(ssrc);
            let again = rx.candidate == Some(ssrc);
            &&& rx.remote_ssrc is None || known || again ==> after.remote_ssrc == Some(ssrc)
            &&& known || (again && rx.remote_ssrc is Some) ==> after.candidate is None
            &&& rx.remote_ssrc is Some && !known && !again ==> after.remote_ssrc == rx.remote_ssrc
                && after.candidate == Some(ssrc)
            &&& after.epoch == match rx.epoch {
                Some(e) => Some(e),
                None => Some(now),
            }
            &&& after == (Rx {
                remote_ssrc: after.remote_ssrc,
                candidate: after.candidate,
                epoch: after.epoch,
                ..counted
            })
        }),
{
}

/// A packet that comes late, by fewer than 100, is received and nothing more is
/// expected for it. One that is far off is not received, and the packets go on as
/// if it had not come; unless the next is right behind it: then the source has
/// started over, and that one is the first.
pub proof fn lemma_late_and_far(rx: Rx, p: Arrival, q: Arrival)
    requires
        rx.inv(),
        rx.initialized,
        rx.probation == 0,
    ensures
        ({
            let after = heard(rx, p);
            let late = rx.max_seq.wrapping_sub(p.seq);
            let ahead = p.seq.wrapping_sub(rx.max_seq);
            let then = heard(after, q);
            &&& 1 <= late < 100 ==> {
                &&& after.received == rx.received.wrapping_add(1)
                &&& after.ext_max() == rx.ext_max() && after.expected() == rx.expected()
            }
            &&& 3000 <= ahead <= 65_435 && p.seq != rx.bad_seq ==> {
                &&& after.received == rx.received
                &&& after.ext_max() == rx.ext_max() && after.expected() == rx.expected()
                &&& q.seq == p.seq.wrapping_add(1) ==> {
                    &&& then.received == 1 && then.expected() == 1
                    &&& then.ext_max() == q.seq && then.base_seq == q.seq
                }
                &&& q.seq == rx.max_seq.wrapping_add(1) ==> {
                    &&& then.received == rx.received.wrapping_add(1)
                    &&& then.max_seq == q.seq && then.base_seq == rx.base_seq
                }
            }
        }),
{
    reveal(heard);
    let after = heard(rx, p);
    let late = rx.max_seq.wrapping_sub(p.seq);
    let ahead = p.seq.wrapping_sub(rx.max_seq);
    if 1 <= late < 100 {
        assert(ahead == 0x1_0000 - late);
    }
    if 3000 <= ahead <= 65_435 {
        if q.seq == p.seq.wrapping_add(1) {
            assert(q.seq.wrapping_sub(rx.max_seq) == ahead + 1);
        }
        if q.seq == rx.max_seq.wrapping_add(1) {
            assert(q.seq.wrapping_sub(rx.max_seq) == 1);
        }
    }
}

} // verus!
