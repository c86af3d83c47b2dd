//! Periodic RTCP: when a report is due, where it goes, and what it holds.
//!
//! The interval is randomised (RFC 3550 section 6.3.1), so that the reports of
//! many channels do not fall together. With two parties the bandwidth terms
//! stay below the minimum, which is the interval in effect.
use vstd::prelude::*;
use webrtc_srtp::context::Context;

use crate::endpoint::Endpoint;
use crate::rtcp::{build_compound, ntp_now, ReportBlock, SenderInfo};
use crate::rtcp::{compound_bytes, lemma_compound_fits};
use crate::rtcp_stats::Rx;
use crate::srtp::encrypt_rtcp;
use crate::srtp::{bytes_of, encrypted_rtcp, is_control, protects_rtcp, slot_log};
use crate::srtp::LOG_ENCRYPT_RTCP;
use crate::state::ChannelState;

verus! {

/// The minimum report interval: 250 ticks of 20 ms.
pub const RTCP_MIN_INTERVAL_TICKS: u64 = 250;

/// The compensation divisor of the interval, in units of 1/100000.
pub const RTCP_COMPENSATION: u64 = 121_828;

/// The longest interval.
pub const RTCP_MAX_INTERVAL_TICKS: u64 = 307;

/// The next state of the generator (xorshift64*).
pub open spec fn stepped(x: u64) -> u64 {
    let a = x ^ (x >> 12);
    let b = a ^ (a << 25);
    b ^ (b >> 27)
}

/// What the generator gives in a state: a number from 0 to 1, without 1, in
/// units of 2^-53.
pub open spec fn unit_of(x: u64) -> u64 {
    x.wrapping_mul(0x2545_F491_4F6C_DD1D) / 2048
}

/// An interval in whole ticks: the minimum, scaled by one half and `unit`, by
/// the compensation.
pub open spec fn interval_of(unit: u64) -> u64 {
    (RTCP_MIN_INTERVAL_TICKS * (0x10_0000_0000_0000 + unit) * 100_000 / (RTCP_COMPENSATION
        * 0x20_0000_0000_0000)) as u64
}

/// A uniform number from 0 to 1, without 1, in units of 2^-53.
pub fn next_unit(rng: &mut u64) -> (r: u64)
    ensures
        *final(rng) == stepped(*old(rng)),
        r == unit_of(*final(rng)),
        r < 0x20_0000_0000_0000,
{
    let mut x: u64 = *rng;
    x = x ^ (x >> 12);
    x = x ^ (x << 25);
    x = x ^ (x >> 27);
    *rng = x;
    x.wrapping_mul(0x2545_F491_4F6C_DD1D) / 2048
}

/// A randomised report interval in ticks: the minimum scaled uniformly from one
/// half to three halves, then divided by the compensation.
pub fn next_interval_ticks(rng: &mut u64) -> (r: u64)
    ensures
        *final(rng) == stepped(*old(rng)),
        r == interval_of(unit_of(*final(rng))),
        102 <= r <= RTCP_MAX_INTERVAL_TICKS,
{
    let unit: u128 = next_unit(rng) as u128;
    let ticks: u128 = 250 * (0x10_0000_0000_0000 + unit) * 100_000 / (121_828
        * 0x20_0000_0000_0000);
    proof {
        lemma_interval_bounds(unit as u64);
    }
    ticks as u64
}

/// An interval is at least half the minimum and at most one and a half of it,
/// by the compensation.
pub proof fn lemma_interval_bounds(unit: u64)
    requires
        unit < 0x20_0000_0000_0000,
    ensures
        102 <= interval_of(unit) <= RTCP_MAX_INTERVAL_TICKS,
{
    let n = RTCP_MIN_INTERVAL_TICKS * (0x10_0000_0000_0000 + unit) * 100_000;
    let d = RTCP_COMPENSATION * 0x20_0000_0000_0000;
    assert(102 * d <= n < 308 * d);
    assert(102 <= n / d < 308) by (nonlinear_arith)
        requires
            102 * d <= n < 308 * d,
            d > 0,
    ;
}

/// The generator does not get stuck: from a state that is not zero it goes to
/// another.
pub proof fn lemma_generator_runs(x: u64)
    requires
        x != 0,
    ensures
        stepped(x) != 0,
{
    let a = x ^ (x >> 12);
    let b = a ^ (a << 25);
    assert(a != 0) by (bit_vector)
        requires
            x != 0,
            a == x ^ (x >> 12),
    ;
    assert(b != 0) by (bit_vector)
        requires
            a != 0,
            b == a ^ (a << 25),
    ;
    assert(b ^ (b >> 27) != 0) by (bit_vector)
        requires
            b != 0,
    ;
}

/// When the next report is due. Tick 0 stands for not scheduled yet.
#[derive(Debug, Clone, Copy, PartialEq, Eq)]
pub struct RtcpSchedule {
    pub next_tick: u64,
    pub rng: u64,
}

impl RtcpSchedule {
    /// A report is due.
    pub open spec fn due(self, tick: u64) -> bool {
        self.next_tick != 0 && tick >= self.next_tick
    }

    /// The schedule after a tick: the first report comes after half an
    /// interval, another one an interval after the last was due.
    pub open spec fn ticked(self, tick: u64) -> RtcpSchedule {
        let rng = stepped(self.rng);
        let interval = interval_of(unit_of(rng));
        if self.next_tick == 0 {
            RtcpSchedule {
                next_tick: (tick + if interval / 2 > 1 {
                    interval / 2
                } else {
                    1
                }) as u64,
                rng,
            }
        } else if tick >= self.next_tick {
            RtcpSchedule { next_tick: (tick + interval) as u64, rng }
        } else {
            self
        }
    }

    /// Is a report due at `tick`? It is scheduled anew whether or not it then
    /// goes out.
    pub fn poll(&mut self, tick: u64) -> (r: bool)
        requires
            tick <= u64::MAX - RTCP_MAX_INTERVAL_TICKS,
        ensures
            r == old(self).due(tick),
            *final(self) == old(self).ticked(tick),
    {
        if self.next_tick == 0 {
            let half: u64 = next_interval_ticks(&mut self.rng) / 2;
            self.next_tick = tick + if half > 1 {
                half
            } else {
                1
            };
            return false;
        }
        if tick < self.next_tick {
            return false;
        }
        self.next_tick = tick + next_interval_ticks(&mut self.rng);
        true
    }
}

/// A report is never due twice in fewer ticks than the shortest interval, and
/// always within the longest.
pub proof fn lemma_reports_are_spaced(s: RtcpSchedule, tick: u64, later: u64)
    requires
        s.due(tick),
        tick <= u64::MAX - RTCP_MAX_INTERVAL_TICKS,
    ensures
        s.ticked(tick).due(later) ==> later >= tick + 102,
        later >= tick + RTCP_MAX_INTERVAL_TICKS ==> s.ticked(tick).due(later),
{
    let unit = unit_of(stepped(s.rng));
    lemma_interval_bounds(unit);
}

/// Where RTCP goes, by where RTP goes: to the same place where they share a
/// port (RFC 5761), else to the next port.
pub open spec fn rtcp_destination(remote: Option<Endpoint>, rtcpmux: bool) -> Option<Endpoint> {
    match remote {
        Some(r) => if rtcpmux {
            Some(r)
        } else {
            Some(
                match r {
                    Endpoint::V4 { ip, port } => Endpoint::V4 { ip, port: port.wrapping_add(1) },
                    Endpoint::V6 { ip, port, .. } => Endpoint::V6 {
                        ip,
                        port: port.wrapping_add(1),
                        flowinfo: 0,
                        scope_id: 0,
                    },
                },
            )
        },
        None => None,
    }
}

/// Where RTCP goes, by where RTP goes.
pub fn rtcp_remote_addr(state: &ChannelState) -> (r: Option<Endpoint>)
    ensures
        r == rtcp_destination(state.recv.remote_addr, state.rtcpmux),
{
    match state.recv.remote_addr {
        Some(r) => {
            if state.rtcpmux {
                return Some(r);
            }
            Some(
                match r {
                    Endpoint::V4 { ip, port } => Endpoint::V4 { ip, port: port.wrapping_add(1) },
                    Endpoint::V6 { ip, port, .. } => Endpoint::V6 {
                        ip,
                        port: port.wrapping_add(1),
                        flowinfo: 0,
                        scope_id: 0,
                    },
                },
            )
        },
        None => None,
    }
}

/// The report blocks of a report: one about the source, once there is one.
pub open spec fn blocks_of(rx: Rx, now: u64, jitter: u32) -> Seq<ReportBlock> {
    match rx.remote_ssrc {
        Some(ssrc) => seq![rx.block(ssrc, now, jitter)],
        None => Seq::empty(),
    }
}

/// The receiver accounting after a report.
pub open spec fn rx_after_report(rx: Rx) -> Rx {
    match rx.remote_ssrc {
        Some(_) => rx.reported(),
        None => rx,
    }
}

/// The bytes of a report at the wall-clock time `ntp`: an SR once something was
/// sent, else an RR, always with an SDES/CNAME.
pub open spec fn report_of(
    state: ChannelState,
    now: u64,
    jitter: u32,
    ntp: (u32, u32),
    bye: bool,
) -> Seq<u8> {
    compound_bytes(
        state.recv.local_ssrc,
        if state.out_count > 0 {
            Some(
                SenderInfo {
                    ntp_sec: ntp.0,
                    ntp_frac: ntp.1,
                    rtp_ts: state.out_ts,
                    packet_count: (state.out_count % 0x1_0000_0000) as u32,
                    octet_count: (state.out_octets % 0x1_0000_0000) as u32,
                },
            )
        } else {
            None
        },
        blocks_of(state.recv.rx_stats@, now, jitter),
        Some(vstd::utf8::encode_utf8(state.cname@)),
        bye,
    )
}

/// Every report is RTCP that a context protects.
proof fn lemma_report_is_control(
    state: ChannelState,
    now: u64,
    jitter: u32,
    ntp: (u32, u32),
    bye: bool,
)
    ensures
        is_control(report_of(state, now, jitter, ntp, bye)),
{
    let cname = Some(vstd::utf8::encode_utf8(state.cname@));
    let reports = blocks_of(state.recv.rx_stats@, now, jitter);
    let info = SenderInfo {
        ntp_sec: ntp.0,
        ntp_frac: ntp.1,
        rtp_ts: state.out_ts,
        packet_count: (state.out_count % 0x1_0000_0000) as u32,
        octet_count: (state.out_octets % 0x1_0000_0000) as u32,
    };
    lemma_compound_fits(state.recv.local_ssrc, Some(info), reports, cname, bye);
    lemma_compound_fits(state.recv.local_ssrc, None, reports, cname, bye);
}

/// Builds a report at `now`, with the jitter estimate given, for the wall-clock
/// time of `ntp`. `bye` adds a BYE.
pub fn build_report(
    state: &mut ChannelState,
    now: u64,
    jitter: u32,
    ntp: (u32, u32),
    bye: bool,
) -> (out: Vec<u8>)
    requires
        old(state).recv.rx_stats@.inv(),
    ensures
        out@ == report_of(*old(state), now, jitter, ntp, bye),
        final(state).same_channel(*old(state)),
        final(state).rtcp == old(state).rtcp,
        final(state).srtp_encrypt == old(state).srtp_encrypt,
        final(state).recv.rx_stats@ == rx_after_report(old(state).recv.rx_stats@),
        final(state).recv.rx_stats@.inv(),
{
    let report: Option<ReportBlock> = state.recv.rx_stats.report_block(now, jitter);
    let mut reports: Vec<ReportBlock> = Vec::new();
    if let Some(rb) = report {
        reports.push(rb);
    }
    assert(reports@ =~= blocks_of(old(state).recv.rx_stats@, now, jitter));
    if state.out_count > 0 {
        let info = SenderInfo {
            ntp_sec: ntp.0,
            ntp_frac: ntp.1,
            rtp_ts: state.out_ts,
            packet_count: (state.out_count % 0x1_0000_0000) as u32,
            octet_count: (state.out_octets % 0x1_0000_0000) as u32,
        };
        build_compound(
            state.recv.local_ssrc,
            Some(&info),
            reports.as_slice(),
            Some(state.cname.as_str()),
            bye,
        )
    } else {
        build_compound(
            state.recv.local_ssrc,
            None,
            reports.as_slice(),
            Some(state.cname.as_str()),
            bye,
        )
    }
}

/// What of a compound is sent, and the log of the outbound context then: on a
/// secure channel it is encrypted.
pub open spec fn compound_sealed(log: Option<Seq<(u8, Seq<u8>)>>, compound: Seq<u8>) -> (
    Option<Seq<(u8, Seq<u8>)>>,
    Option<Seq<u8>>,
) {
    match log {
        Some(l) => (Some(l.push((LOG_ENCRYPT_RTCP, compound))), encrypted_rtcp(l, compound)),
        None => (None, Some(compound)),
    }
}

/// Protects a compound on a secure channel; `None` when that fails.
pub fn protect_compound(encrypt: &mut Option<Context>, compound: Vec<u8>) -> (r: Option<Vec<u8>>)
    ensures
        (slot_log(*final(encrypt)), bytes_of(r)) == compound_sealed(
            slot_log(*old(encrypt)),
            compound@,
        ),
        slot_log(*old(encrypt)) is None || is_control(compound@) ==> r is Some,
        slot_log(*old(encrypt)) matches Some(log) ==> protects_rtcp(log, compound@, bytes_of(r)),
{
    match encrypt {
        Some(ctx) => encrypt_rtcp(ctx, compound.as_slice()),
        None => Some(compound),
    }
}

/// What a report changes, and what is sent where.
pub struct Report {
    pub rtcp: RtcpSchedule,
    pub rx: Rx,
    /// The log of the outbound context, where there is one.
    pub log: Option<Seq<(u8, Seq<u8>)>>,
    pub sent: Option<(Endpoint, Seq<u8>)>,
}

/// A report can go out: there is a remote, and where the channel negotiated DTLS
/// there are keys to protect it with.
pub open spec fn reports_out(state: ChannelState) -> bool {
    state.recv.remote_addr is Some && !(state.dtls && state.srtp_encrypt is None)
}

/// A report goes out at the wall-clock time `ntp`, where it can.
pub open spec fn report_made(
    state: ChannelState,
    now: u64,
    jitter: u32,
    ntp: (u32, u32),
    bye: bool,
) -> Report {
    let rx = state.recv.rx_stats@;
    let log = slot_log(state.srtp_encrypt);
    match rtcp_destination(state.recv.remote_addr, state.rtcpmux) {
        Some(to) if reports_out(state) => {
            let (next, sealed) = compound_sealed(log, report_of(state, now, jitter, ntp, bye));
            Report {
                rtcp: state.rtcp,
                rx: rx_after_report(rx),
                log: next,
                sent: match sealed {
                    Some(bytes) => Some((to, bytes)),
                    None => None,
                },
            }
        },
        _ => Report { rtcp: state.rtcp, rx, log, sent: None },
    }
}

/// The current tick passes at the wall-clock time `ntp`: where a report is due
/// it goes out, and the next is scheduled in any case.
pub open spec fn reporting(state: ChannelState, now: u64, jitter: u32, ntp: (u32, u32)) -> Report {
    let rtcp = state.rtcp.ticked(state.tick_count);
    if state.rtcp.due(state.tick_count) {
        Report { rtcp, ..report_made(state, now, jitter, ntp, false) }
    } else {
        Report {
            rtcp,
            rx: state.recv.rx_stats@,
            log: slot_log(state.srtp_encrypt),
            sent: None,
        }
    }
}

/// What was sent, as bytes.
pub open spec fn sent_bytes(sent: Option<(Endpoint, Vec<u8>)>) -> Option<(Endpoint, Seq<u8>)> {
    match sent {
        Some((to, bytes)) => Some((to, bytes@)),
        None => None,
    }
}

/// A state of a channel, with what a report leaves of it.
pub open spec fn leaves(state: ChannelState, sent: Option<(Endpoint, Vec<u8>)>) -> Report {
    Report {
        rtcp: state.rtcp,
        rx: state.recv.rx_stats@,
        log: slot_log(state.srtp_encrypt),
        sent: sent_bytes(sent),
    }
}

/// The report with the reports so far, and where it goes, for the wall-clock
/// time `ntp`; with a BYE where the channel ends. `None` when there is no
/// remote, or the channel negotiated DTLS and has no keys: nothing leaves a
/// secure channel in the clear.
pub fn report_now(
    state: &mut ChannelState,
    now: u64,
    jitter: u32,
    ntp: (u32, u32),
    bye: bool,
) -> (r: Option<(Endpoint, Vec<u8>)>)
    requires
        old(state).recv.rx_stats@.inv(),
    ensures
        leaves(*final(state), r) == report_made(*old(state), now, jitter, ntp, bye),
        r is Some == reports_out(*old(state)),
        final(state).same_channel(*old(state)),
        final(state).recv.rx_stats@.inv(),
{
    if state.secure_not_ready() {
        return None;
    }
    match rtcp_remote_addr(state) {
        Some(to) => {
            let compound: Vec<u8> = build_report(state, now, jitter, ntp, bye);
            proof {
                lemma_report_is_control(*old(state), now, jitter, ntp, bye);
            }
            match protect_compound(&mut state.srtp_encrypt, compound) {
                Some(bytes) => Some((to, bytes)),
                None => None,
            }
        },
        None => None,
    }
}

/// The report that is due at the current tick, and where it goes, for the
/// wall-clock time `ntp`; `None` when none is due or none can go out.
pub fn due_report(state: &mut ChannelState, now: u64, jitter: u32, ntp: (u32, u32)) -> (r: Option<
    (Endpoint, Vec<u8>),
>)
    requires
        old(state).recv.rx_stats@.inv(),
        old(state).tick_count <= u64::MAX - RTCP_MAX_INTERVAL_TICKS,
    ensures
        leaves(*final(state), r) == reporting(*old(state), now, jitter, ntp),
        r is Some == (old(state).rtcp.due(old(state).tick_count) && reports_out(*old(state))),
        final(state).same_channel(*old(state)),
        final(state).recv.rx_stats@.inv(),
{
    let tick: u64 = state.tick_count;
    if !state.rtcp.poll(tick) {
        return None;
    }
    report_now(state, now, jitter, ntp, false)
}

/// `due_report` at the wall-clock time of the call.
pub fn maybe_send_rtcp(state: &mut ChannelState, now: u64, jitter: u32) -> (r: Option<
    (Endpoint, Vec<u8>),
>)
    requires
        old(state).recv.rx_stats@.inv(),
        old(state).tick_count <= u64::MAX - RTCP_MAX_INTERVAL_TICKS,
    ensures
        exists|ntp: (u32, u32)|
            leaves(*final(state), r) == #[trigger] reporting(*old(state), now, jitter, ntp),
        r is Some == (old(state).rtcp.due(old(state).tick_count) && reports_out(*old(state))),
        final(state).same_channel(*old(state)),
        final(state).recv.rx_stats@.inv(),
{
    let ntp: (u32, u32) = ntp_now();
    due_report(state, now, jitter, ntp)
}

/// The report with a BYE that ends a channel, at the wall-clock time of the
/// call, and where it goes.
pub fn send_bye(state: &mut ChannelState, now: u64, jitter: u32) -> (r: Option<
    (Endpoint, Vec<u8>),
>)
    requires
        old(state).recv.rx_stats@.inv(),
    ensures
        exists|ntp: (u32, u32)|
            leaves(*final(state), r) == #[trigger] report_made(*old(state), now, jitter, ntp, true),
        r is Some == reports_out(*old(state)),
        final(state).same_channel(*old(state)),
        final(state).recv.rx_stats@.inv(),
{
    let ntp: (u32, u32) = ntp_now();
    report_now(state, now, jitter, ntp, true)
}

/// No report leaves a channel that negotiated DTLS before there are keys, and
/// none goes out unprotected after.
pub proof fn lemma_no_report_in_the_clear(
    state: ChannelState,
    now: u64,
    jitter: u32,
    ntp: (u32, u32),
    bye: bool,
)
    requires
        state.dtls,
    ensures
        ({
            let made = report_made(state, now, jitter, ntp, bye);
            match slot_log(state.srtp_encrypt) {
                Some(log) => made.sent matches Some((_, bytes)) ==> encrypted_rtcp(
                    log,
                    report_of(state, now, jitter, ntp, bye),
                ) == Some(bytes),
                None => made.sent is None && made.rx == state.recv.rx_stats@,
            }
        }),
{
}

} // verus!
