//! Receiver-side RTCP accounting (RFC 3550 appendix A).
//!
//! `RxStats` tracks one remote source: sequence and loss bookkeeping (A.1 and
//! A.3) and the transit-time differences that interarrival jitter (A.8) is
//! estimated from. `RemoteReport` holds what the peer's reports say of the
//! stream that goes out, with the round-trip time.
//!
//! Instants are nanoseconds of a monotonic clock; arrival times are RTP
//! timestamp units.
use vstd::prelude::*;

use crate::rtcp::middle_32;
use crate::rtcp::{ntp_middle_32, ReportBlock};

verus! {

/// RTP sequence numbers are modulo 2^16.
pub const RTP_SEQ_MOD: u32 = 0x1_0000;

/// A forward jump of this many packets or more is a restart, not loss.
pub const MAX_DROPOUT: u16 = 3000;

/// A packet this many or more behind is a large jump.
pub const MAX_MISORDER: u16 = 100;

/// Consecutive in-order packets before a source is declared valid.
pub const MIN_SEQUENTIAL: u32 = 2;

/// Default RTP clock.
pub const DEFAULT_CLOCK_RATE: u32 = 8000;

/// Per-source reception accounting for one remote SSRC.
pub struct RxStats {
    /// Latched from the first packet's SSRC; a second packet in a row under one
    /// other SSRC moves it there.
    remote_ssrc: Option<u32>,
    candidate: Option<u32>,
    clock_rate: u32,
    max_seq: u16,
    cycles: u32,
    base_seq: u32,
    bad_seq: u32,
    probation: u32,
    received: u32,
    expected_prior: u32,
    received_prior: u32,
    initialized: bool,
    transit: Option<u32>,
    deviation: Option<u32>,
    last_sr_ntp_mid: u32,
    last_sr_at: Option<u64>,
    epoch: Option<u64>,
}

/// The state of an `RxStats`.
pub struct Rx {
    /// The source that reports are about.
    pub remote_ssrc: Option<u32>,
    /// Another source, when the last packet was its first in a row.
    pub candidate: Option<u32>,
    /// RTP timestamp units in a second.
    pub clock_rate: u32,
    /// Highest sequence number seen.
    pub max_seq: u16,
    /// 2^16 times the number of sequence wraps.
    pub cycles: u32,
    /// First sequence number that counts.
    pub base_seq: u32,
    /// The sequence number that would confirm a restart.
    pub bad_seq: u32,
    /// Sequential packets still wanted before the source is valid.
    pub probation: u32,
    /// Packets counted since the last restart.
    pub received: u32,
    /// Packets expected at the last report.
    pub expected_prior: u32,
    /// Packets received at the last report.
    pub received_prior: u32,
    /// A packet has been seen.
    pub initialized: bool,
    /// Transit time of the last counted packet.
    pub transit: Option<u32>,
    /// By how much the last packet's transit time differed, when it counted
    /// and was not the first.
    pub deviation: Option<u32>,
    /// Middle 32 bits of the NTP timestamp of the peer's last SR.
    pub last_sr_ntp_mid: u32,
    /// When that SR arrived.
    pub last_sr_at: Option<u64>,
    /// When the first packet arrived.
    pub epoch: Option<u64>,
}

impl View for RxStats {
    type V = Rx;

    closed spec fn view(&self) -> Rx {
        Rx {
            remote_ssrc: self.remote_ssrc,
            candidate: self.candidate,
            clock_rate: self.clock_rate,
            max_seq: self.max_seq,
            cycles: self.cycles,
            base_seq: self.base_seq,
            bad_seq: self.bad_seq,
            probation: self.probation,
            received: self.received,
            expected_prior: self.expected_prior,
            received_prior: self.received_prior,
            initialized: self.initialized,
            transit: self.transit,
            deviation: self.deviation,
            last_sr_ntp_mid: self.last_sr_ntp_mid,
            last_sr_at: self.last_sr_at,
            epoch: self.epoch,
        }
    }
}

impl Rx {
    /// What holds of every state: whole sequence cycles, and at most
    /// `MIN_SEQUENTIAL` packets of probation.
    pub open spec fn inv(self) -> bool {
        &&& self.cycles % RTP_SEQ_MOD == 0
        &&& self.probation <= MIN_SEQUENTIAL
    }

    /// The state of a source of which nothing was heard.
    pub open spec fn fresh(clock_rate: u32) -> Rx {
        Rx {
            remote_ssrc: None,
            candidate: None,
            clock_rate,
            max_seq: 0,
            cycles: 0,
            base_seq: 0,
            bad_seq: 0,
            probation: 0,
            received: 0,
            expected_prior: 0,
            received_prior: 0,
            initialized: false,
            transit: None,
            deviation: None,
            last_sr_ntp_mid: 0,
            last_sr_at: None,
            epoch: None,
        }
    }

    /// How far `seq` lies ahead of the highest sequence number, modulo 2^16.
    pub open spec fn ahead(self, seq: u16) -> u16 {
        seq.wrapping_sub(self.max_seq)
    }

    /// Counting starts over at `seq`.
    pub open spec fn restarted(self, seq: u16) -> Rx {
        Rx {
            base_seq: seq as u32,
            max_seq: seq,
            bad_seq: (RTP_SEQ_MOD + 1) as u32,
            cycles: 0,
            received: 0,
            expected_prior: 0,
            received_prior: 0,
            ..self
        }
    }

    /// One more packet received.
    pub open spec fn received_one(self) -> Rx {
        Rx { received: self.received.wrapping_add(1), ..self }
    }

    /// The state in which a packet is judged: a first packet puts the source on
    /// probation, with itself as the next packet wanted.
    pub open spec fn started(self, seq: u16) -> Rx {
        if self.initialized {
            self
        } else {
            Rx {
                max_seq: seq.wrapping_sub(1),
                probation: MIN_SEQUENTIAL,
                initialized: true,
                ..self.restarted(seq)
            }
        }
    }

    /// Does a packet under `seq` count as received (A.1)? On probation, only
    /// the last of the sequential packets wanted; after it, any but one that is
    /// far off and was not announced by the packet before.
    pub open spec fn counts(self, seq: u16) -> bool {
        if self.probation > 0 {
            self.ahead(seq) == 1 && self.probation == 1
        } else {
            self.ahead(seq) < MAX_DROPOUT || self.ahead(seq) > RTP_SEQ_MOD - MAX_MISORDER || seq
                == self.bad_seq
        }
    }

    /// The state after a packet under `seq`, of a source that is known.
    pub open spec fn sequenced(self, seq: u16) -> Rx {
        if self.probation > 0 {
            if self.ahead(seq) != 1 {
                Rx { probation: (MIN_SEQUENTIAL - 1) as u32, max_seq: seq, ..self }
            } else if self.probation == 1 {
                Rx { probation: 0, ..self.restarted(seq) }.received_one()
            } else {
                Rx { probation: (self.probation - 1) as u32, max_seq: seq, ..self }
            }
        } else if self.ahead(seq) < MAX_DROPOUT {
            Rx {
                cycles: if seq < self.max_seq {
                    self.cycles.wrapping_add(RTP_SEQ_MOD)
                } else {
                    self.cycles
                },
                max_seq: seq,
                ..self
            }.received_one()
        } else if self.ahead(seq) > RTP_SEQ_MOD - MAX_MISORDER {
            self.received_one()
        } else if seq == self.bad_seq {
            self.restarted(seq).received_one()
        } else {
            Rx { bad_seq: seq.wrapping_add(1) as u32, ..self }
        }
    }

    /// The distance of two transit times, modulo 2^32, the shorter way round.
    pub open spec fn distance(a: u32, b: u32) -> u32 {
        if a.wrapping_sub(b) < 0x8000_0000 {
            a.wrapping_sub(b)
        } else {
            b.wrapping_sub(a)
        }
    }

    /// The state after a packet with sequence number `seq` and timestamp
    /// `rtp_ts` that arrived at `arrival`.
    pub open spec fn updated(self, seq: u16, rtp_ts: u32, arrival: u32) -> Rx {
        let judged = self.started(seq);
        let transit = arrival.wrapping_sub(rtp_ts);
        if judged.counts(seq) {
            Rx {
                transit: Some(transit),
                deviation: match self.transit {
                    Some(t) => Some(Rx::distance(transit, t)),
                    None => None,
                },
                ..judged.sequenced(seq)
            }
        } else {
            Rx { deviation: None, ..judged.sequenced(seq) }
        }
    }

    /// The state after the source of a packet is noted.
    pub open spec fn sourced(self, ssrc: u32) -> Rx {
        if self.remote_ssrc is None {
            Rx { remote_ssrc: Some(ssrc), ..self }
        } else if self.remote_ssrc == Some(ssrc) {
            Rx { candidate: None, ..self }
        } else if self.candidate == Some(ssrc) {
            Rx { remote_ssrc: Some(ssrc), candidate: None, ..self }
        } else {
            Rx { candidate: Some(ssrc), ..self }
        }
    }

    /// The first packet's arrival is where times are counted from.
    pub open spec fn timed(self, now: u64) -> Rx {
        Rx {
            epoch: match self.epoch {
                Some(e) => Some(e),
                None => Some(now),
            },
            ..self
        }
    }

    /// A time of arrival in RTP timestamp units, modulo 2^32, counted from the
    /// first packet's.
    pub open spec fn units(self, now: u64) -> u32 {
        let nanos = match self.epoch {
            Some(e) => if now >= e {
                now - e
            } else {
                0
            },
            None => 0,
        };
        (nanos * self.clock_rate / 1_000_000_000 % 0x1_0000_0000) as u32
    }

    /// After a packet that arrived at `now`.
    pub open spec fn heard(self, ssrc: u32, seq: u16, rtp_ts: u32, now: u64) -> Rx {
        self.sourced(ssrc).timed(now).updated(seq, rtp_ts, self.units(now))
    }

    /// Extended highest sequence number.
    pub open spec fn ext_max(self) -> int {
        self.cycles + self.max_seq
    }

    /// Packets expected since the last restart, modulo 2^32.
    pub open spec fn expected(self) -> u32 {
        ((self.ext_max() - self.base_seq + 1) % 0x1_0000_0000) as u32
    }

    /// Cumulative packets lost, clamped to 24 bits with sign.
    pub open spec fn lost(self) -> int {
        let lost = self.expected() - self.received;
        if lost < -0x80_0000 {
            -0x80_0000
        } else if lost > 0x7F_FFFF {
            0x7F_FFFF
        } else {
            lost
        }
    }

    /// Packets expected since the last report, modulo 2^32.
    pub open spec fn expected_interval(self) -> u32 {
        self.expected().wrapping_sub(self.expected_prior)
    }

    /// Packets received since the last report, modulo 2^32.
    pub open spec fn received_interval(self) -> u32 {
        self.received.wrapping_sub(self.received_prior)
    }

    /// Loss since the last report, in 256ths; a whole is as zero.
    pub open spec fn interval_fraction(self) -> u8 {
        if self.expected_interval() <= self.received_interval() {
            0
        } else {
            ((self.expected_interval() - self.received_interval()) * 256 / (
            self.expected_interval() as int) % 256) as u8
        }
    }

    /// The state after a report.
    pub open spec fn reported(self) -> Rx {
        Rx { expected_prior: self.expected(), received_prior: self.received, ..self }
    }

    /// Loss over the whole session, in 256ths, at most 255.
    pub open spec fn session_fraction(self) -> u8 {
        if self.expected() == 0 || self.lost() <= 0 {
            0
        } else if self.lost() * 256 / (self.expected() as int) > 255 {
            255
        } else {
            (self.lost() * 256 / (self.expected() as int)) as u8
        }
    }

    /// Delay since the last SR, in units of 1/65536 second, at most 2^32 - 1.
    pub open spec fn delay_since_sr(self, now: u64) -> u32 {
        match self.last_sr_at {
            Some(at) => if now <= at {
                0
            } else if (now - at) * 65536 / 1_000_000_000 > u32::MAX {
                u32::MAX
            } else {
                ((now - at) * 65536 / 1_000_000_000) as u32
            },
            None => 0,
        }
    }

    /// The report block about the source.
    pub open spec fn block(self, ssrc: u32, now: u64, jitter: u32) -> ReportBlock {
        ReportBlock {
            ssrc,
            fraction_lost: self.interval_fraction(),
            cumulative_lost: self.lost() as i32,
            ext_highest_seq: self.ext_max() as u32,
            jitter,
            lsr: self.last_sr_ntp_mid,
            dlsr: self.delay_since_sr(now),
        }
    }
}

impl RxStats {
    pub fn new(clock_rate: u32) -> (r: Self)
        ensures
            r@ == Rx::fresh(clock_rate),
            r@.inv(),
    {
        RxStats {
            remote_ssrc: None,
            candidate: None,
            clock_rate,
            max_seq: 0,
            cycles: 0,
            base_seq: 0,
            bad_seq: 0,
            probation: 0,
            received: 0,
            expected_prior: 0,
            received_prior: 0,
            initialized: false,
            transit: None,
            deviation: None,
            last_sr_ntp_mid: 0,
            last_sr_at: None,
            epoch: None,
        }
    }

    /// Starts the sequence state over (A.1 `init_seq`).
    fn init_seq(&mut self, seq: u16)
        ensures
            final(self)@ == old(self)@.restarted(seq),
    {
        self.base_seq = seq as u32;
        self.max_seq = seq;
        self.bad_seq = RTP_SEQ_MOD + 1;
        self.cycles = 0;
        self.received = 0;
        self.received_prior = 0;
        self.expected_prior = 0;
    }

    /// Notes the source of a packet that arrived at `now`, turns the time of
    /// arrival into RTP timestamp units, and runs the accounting. True when the
    /// packet counts.
    pub fn on_packet_at(&mut self, ssrc: u32, seq: u16, rtp_ts: u32, now: u64) -> (r: bool)
        requires
            old(self)@.inv(),
        ensures
            r == old(self)@.started(seq).counts(seq),
            final(self)@ == old(self)@.heard(ssrc, seq, rtp_ts, now),
            final(self)@.inv(),
    {
        match self.remote_ssrc {
            None => {
                self.remote_ssrc = Some(ssrc);
            },
            Some(current) => {
                if current == ssrc {
                    self.candidate = None;
                } else {
                    let again = match self.candidate {
                        Some(c) => c == ssrc,
                        None => false,
                    };
                    if again {
                        self.remote_ssrc = Some(ssrc);
                        self.candidate = None;
                    } else {
                        self.candidate = Some(ssrc);
                    }
                }
            },
        }
        let arrival_rtp: u32 = self.arrival_units(now);
        self.update(seq, rtp_ts, arrival_rtp)
    }

    /// A time of arrival in RTP timestamp units, counted from the first packet.
    fn arrival_units(&mut self, now: u64) -> (r: u32)
        ensures
            final(self)@ == old(self)@.timed(now),
            r == old(self)@.units(now),
    {
        let epoch: u64 = match self.epoch {
            Some(e) => e,
            None => {
                self.epoch = Some(now);
                now
            },
        };
        let nanos: u128 = now.saturating_sub(epoch) as u128;
        let rate: u128 = self.clock_rate as u128;
        assert(nanos * rate <= u64::MAX * u32::MAX) by (nonlinear_arith)
            requires
                nanos <= u64::MAX,
                rate <= u32::MAX,
        ;
        ((nanos * rate / 1_000_000_000) % 0x1_0000_0000) as u32
    }

    /// Core sequence and transit update. `arrival_rtp` is the packet's arrival
    /// time in RTP timestamp units. True when the packet counts as received.
    pub fn update(&mut self, seq: u16, rtp_ts: u32, arrival_rtp: u32) -> (r: bool)
        requires
            old(self)@.inv(),
        ensures
            r == old(self)@.started(seq).counts(seq),
            final(self)@ == old(self)@.updated(seq, rtp_ts, arrival_rtp),
            final(self)@.inv(),
    {
        if !self.initialized {
            self.init_seq(seq);
            self.max_seq = seq.wrapping_sub(1);
            self.probation = MIN_SEQUENTIAL;
            self.initialized = true;
        }
        let valid = self.update_seq(seq);
        if valid {
            self.update_transit(rtp_ts, arrival_rtp);
        } else {
            self.deviation = None;
        }
        valid
    }

    /// A.1 `update_seq`. True when the packet is counted.
    fn update_seq(&mut self, seq: u16) -> (r: bool)
        requires
            old(self)@.inv(),
        ensures
            r == old(self)@.counts(seq),
            final(self)@ == old(self)@.sequenced(seq),
            final(self)@.inv(),
    {
        if self.probation > 0 {
            if seq == self.max_seq.wrapping_add(1) {
                self.probation -= 1;
                self.max_seq = seq;
                if self.probation == 0 {
                    self.init_seq(seq);
                    self.received = self.received.wrapping_add(1);
                    return true;
                }
            } else {
                self.probation = MIN_SEQUENTIAL - 1;
                self.max_seq = seq;
            }
            return false;
        }
        let udelta: u16 = seq.wrapping_sub(self.max_seq);
        if udelta < MAX_DROPOUT {
            // In order, with a permissible small gap.
            if seq < self.max_seq {
                self.cycles = self.cycles.wrapping_add(RTP_SEQ_MOD);
            }
            self.max_seq = seq;
        } else if udelta as u32 <= RTP_SEQ_MOD - MAX_MISORDER as u32 {
            // A large jump: a restart only with two in a row.
            if seq as u32 == self.bad_seq {
                self.init_seq(seq);
            } else {
                self.bad_seq = seq.wrapping_add(1) as u32;
                return false;
            }
        }
        self.received = self.received.wrapping_add(1);
        true
    }

    /// Notes the transit time of a packet and how far it is from the last.
    fn update_transit(&mut self, rtp_ts: u32, arrival_rtp: u32)
        ensures
            final(self)@ == (Rx {
                transit: Some(arrival_rtp.wrapping_sub(rtp_ts)),
                deviation: match old(self)@.transit {
                    Some(t) => Some(Rx::distance(arrival_rtp.wrapping_sub(rtp_ts), t)),
                    None => None,
                },
                ..old(self)@
            }),
    {
        let transit: u32 = arrival_rtp.wrapping_sub(rtp_ts);
        self.deviation = match self.transit {
            Some(last) => {
                let d: u32 = transit.wrapping_sub(last);
                if d < 0x8000_0000 {
                    Some(d)
                } else {
                    Some(last.wrapping_sub(transit))
                }
            },
            None => None,
        };
        self.transit = Some(transit);
    }

    /// The source that reports are about.
    pub fn remote_ssrc(&self) -> (r: Option<u32>)
        ensures
            r == self@.remote_ssrc,
    {
        self.remote_ssrc
    }

    /// By how much the transit time of the last packet differed from the one
    /// before, in RTP timestamp units: what the jitter estimate moves towards.
    pub fn deviation(&self) -> (r: Option<u32>)
        ensures
            r == self@.deviation,
    {
        self.deviation
    }

    /// Extended highest sequence number received.
    pub fn ext_max(&self) -> (r: u32)
        requires
            self@.inv(),
        ensures
            r == self@.ext_max(),
    {
        self.cycles + self.max_seq as u32
    }

    /// Packets expected since the last restart (A.3).
    pub fn expected(&self) -> (r: u32)
        requires
            self@.inv(),
        ensures
            r == self@.expected(),
    {
        self.ext_max().wrapping_sub(self.base_seq).wrapping_add(1)
    }

    /// Packets received since the last restart.
    pub fn received(&self) -> (r: u32)
        ensures
            r == self@.received,
    {
        self.received
    }

    /// Cumulative packets lost, clamped to the signed 24-bit report field.
    pub fn cumulative_lost(&self) -> (r: i32)
        requires
            self@.inv(),
        ensures
            r == self@.lost(),
    {
        let lost: i64 = self.expected() as i64 - self.received as i64;
        if lost < -0x80_0000 {
            -0x80_0000
        } else if lost > 0x7F_FFFF {
            0x7F_FFFF
        } else {
            lost as i32
        }
    }

    /// Fraction lost since the previous call, in 256ths (A.3). Closes the
    /// interval, so it is called once per report block.
    pub fn fraction_lost(&mut self) -> (r: u8)
        requires
            old(self)@.inv(),
        ensures
            r == old(self)@.interval_fraction(),
            final(self)@ == old(self)@.reported(),
            final(self)@.inv(),
    {
        let expected: u32 = self.expected();
        let expected_interval: u32 = expected.wrapping_sub(self.expected_prior);
        self.expected_prior = expected;
        let received_interval: u32 = self.received.wrapping_sub(self.received_prior);
        self.received_prior = self.received;
        if expected_interval <= received_interval {
            0
        } else {
            let lost: u64 = (expected_interval - received_interval) as u64;
            ((lost * 256 / expected_interval as u64) % 256) as u8
        }
    }

    /// Fraction lost across the whole session so far, in 256ths. Leaves the
    /// interval that `fraction_lost` closes as it is.
    pub fn fraction_lost_session(&self) -> (r: u8)
        requires
            self@.inv(),
        ensures
            r == self@.session_fraction(),
    {
        let expected: u32 = self.expected();
        let lost: i32 = self.cumulative_lost();
        if expected == 0 || lost <= 0 {
            0
        } else {
            let f: u64 = lost as u64 * 256 / expected as u64;
            if f > 255 {
                255
            } else {
                f as u8
            }
        }
    }

    /// Notes the arrival of a peer SR for the next report's LSR and DLSR.
    pub fn note_sender_report(&mut self, ntp_sec: u32, ntp_frac: u32, at: u64)
        ensures
            final(self)@ == (Rx {
                last_sr_ntp_mid: middle_32(ntp_sec, ntp_frac),
                last_sr_at: Some(at),
                ..old(self)@
            }),
    {
        self.last_sr_ntp_mid = ntp_middle_32(ntp_sec, ntp_frac);
        self.last_sr_at = Some(at);
    }

    /// LSR: middle 32 bits of the last SR received (0 if none).
    pub fn lsr(&self) -> (r: u32)
        ensures
            r == self@.last_sr_ntp_mid,
    {
        self.last_sr_ntp_mid
    }

    /// DLSR: delay since the last SR arrived, in units of 1/65536 second (0 if
    /// none).
    pub fn dlsr(&self, now: u64) -> (r: u32)
        ensures
            r == self@.delay_since_sr(now),
    {
        match self.last_sr_at {
            Some(at) => {
                let units: u128 = now.saturating_sub(at) as u128 * 65536 / 1_000_000_000;
                if units > u32::MAX as u128 {
                    u32::MAX
                } else {
                    units as u32
                }
            },
            None => 0,
        }
    }

    /// The reception report block about this source, with the jitter estimate
    /// given; `None` before a source is latched. Closes the loss interval.
    pub fn report_block(&mut self, now: u64, jitter: u32) -> (r: Option<ReportBlock>)
        requires
            old(self)@.inv(),
        ensures
            final(self)@.inv(),
            match old(self)@.remote_ssrc {
                Some(ssrc) => r == Some(old(self)@.block(ssrc, now, jitter)) && final(self)@ == old(
                    self,
                )@.reported(),
                None => r is None && final(self)@ == old(self)@,
            },
    {
        match self.remote_ssrc {
            Some(ssrc) => {
                let fraction_lost: u8 = self.fraction_lost();
                Some(
                    ReportBlock {
                        ssrc,
                        fraction_lost,
                        cumulative_lost: self.cumulative_lost(),
                        ext_highest_seq: self.ext_max(),
                        jitter,
                        lsr: self.lsr(),
                        dlsr: self.dlsr(now),
                    },
                )
            },
            None => None,
        }
    }
}

/// Round-trip time from a report block's LSR and DLSR and the middle of the
/// current NTP time, in units of 1/65536 second; `None` when the peer has not
/// yet echoed an SR.
pub open spec fn rtt_of(now_ntp_mid: u32, lsr: u32, dlsr: u32) -> Option<u32> {
    if lsr == 0 {
        None
    } else {
        Some(now_ntp_mid.wrapping_sub(lsr).wrapping_sub(dlsr))
    }
}

/// Round-trip time in units of 1/65536 second; `None` when the peer has not
/// yet echoed an SR (LSR is 0).
pub fn compute_rtt(now_ntp_mid: u32, lsr: u32, dlsr: u32) -> (r: Option<u32>)
    ensures
        r == rtt_of(now_ntp_mid, lsr, dlsr),
{
    if lsr == 0 {
        return None;
    }
    Some(now_ntp_mid.wrapping_sub(lsr).wrapping_sub(dlsr))
}

/// The peer's view of the stream that goes out, from its report block about it.
#[derive(Debug, Clone, Copy)]
pub struct RemoteReport {
    pub valid: bool,
    pub fraction_lost: u8,
    pub cumulative_lost: i32,
    pub ext_highest_seq: u32,
    pub jitter: u32,
    /// Round-trip time in units of 1/65536 second.
    pub rtt: Option<u32>,
}

impl Default for RemoteReport {
    fn default() -> (r: Self)
        ensures
            r == (RemoteReport {
                valid: false,
                fraction_lost: 0,
                cumulative_lost: 0,
                ext_highest_seq: 0,
                jitter: 0,
                rtt: None,
            }),
    {
        RemoteReport {
            valid: false,
            fraction_lost: 0,
            cumulative_lost: 0,
            ext_highest_seq: 0,
            jitter: 0,
            rtt: None,
        }
    }
}

impl RemoteReport {
    /// The summary with a report block folded in: its figures, and the
    /// round-trip time where it gives one.
    pub open spec fn folded(self, rb: ReportBlock, now_ntp_mid: u32) -> RemoteReport {
        RemoteReport {
            valid: true,
            fraction_lost: rb.fraction_lost,
            cumulative_lost: rb.cumulative_lost,
            ext_highest_seq: rb.ext_highest_seq,
            jitter: rb.jitter,
            rtt: match rtt_of(now_ntp_mid, rb.lsr, rb.dlsr) {
                Some(rtt) => Some(rtt),
                None => self.rtt,
            },
        }
    }

    /// Folds a report block about our source into this summary.
    pub fn update_from(&mut self, rb: &ReportBlock, now_ntp_mid: u32)
        ensures
            *final(self) == old(self).folded(*rb, now_ntp_mid),
    {
        self.valid = true;
        self.fraction_lost = rb.fraction_lost;
        self.cumulative_lost = rb.cumulative_lost;
        self.ext_highest_seq = rb.ext_highest_seq;
        self.jitter = rb.jitter;
        if let Some(rtt) = compute_rtt(now_ntp_mid, rb.lsr, rb.dlsr) {
            self.rtt = Some(rtt);
        }
    }
}

/// A packet that is `ahead` places in front of the highest one, fewer than
/// `MAX_DROPOUT`, adds that many to the packets expected and one to those
/// received: so one in order loses nothing, a gap loses what it skips, and a
/// duplicate loses one less than nothing.
pub proof fn lemma_in_window(rx: Rx, seq: u16)
    requires
        rx.inv(),
        rx.probation == 0,
        rx.ahead(seq) < MAX_DROPOUT,
    ensures
        rx.counts(seq),
        rx.sequenced(seq).expected() == rx.expected().wrapping_add(rx.ahead(seq) as u32),
        rx.sequenced(seq).received == rx.received.wrapping_add(1),
{
}

/// A packet a little behind the highest one counts as received and leaves what
/// is expected as it was.
pub proof fn lemma_reordered(rx: Rx, seq: u16)
    requires
        rx.inv(),
        rx.probation == 0,
        rx.ahead(seq) > RTP_SEQ_MOD - MAX_MISORDER,
    ensures
        rx.counts(seq),
        rx.sequenced(seq).expected() == rx.expected(),
        rx.sequenced(seq).received == rx.received.wrapping_add(1),
{
}

/// A far jump is not counted the first time; the packet after it then restarts
/// the count, at one packet expected and one received.
pub proof fn lemma_restart_takes_two(rx: Rx, seq: u16)
    requires
        rx.inv(),
        rx.probation == 0,
        MAX_DROPOUT <= rx.ahead(seq) <= RTP_SEQ_MOD - MAX_MISORDER - 1,
        seq != rx.bad_seq,
    ensures
        !rx.counts(seq),
        rx.sequenced(seq).expected() == rx.expected(),
        rx.sequenced(seq).received == rx.received,
        rx.sequenced(seq).counts(seq.wrapping_add(1)),
        rx.sequenced(seq).sequenced(seq.wrapping_add(1)).expected() == 1,
        rx.sequenced(seq).sequenced(seq.wrapping_add(1)).received == 1,
{
}

/// A new source counts from its second sequential packet on.
pub proof fn lemma_probation(clock_rate: u32, seq: u16)
    ensures
        !Rx::fresh(clock_rate).started(seq).counts(seq),
        Rx::fresh(clock_rate).started(seq).sequenced(seq).counts(seq.wrapping_add(1)),
        Rx::fresh(clock_rate).started(seq).sequenced(seq).sequenced(
            seq.wrapping_add(1),
        ).expected() == 1,
        Rx::fresh(clock_rate).started(seq).sequenced(seq).sequenced(
            seq.wrapping_add(1),
        ).received == 1,
{
}

/// A report closes the loss interval: with no packet in between, the next one
/// reports no loss, while the cumulative figures stay.
pub proof fn lemma_interval_closed(rx: Rx)
    ensures
        rx.reported().interval_fraction() == 0,
        rx.reported().expected() == rx.expected(),
        rx.reported().lost() == rx.lost(),
        rx.reported().session_fraction() == rx.session_fraction(),
{
}

/// One packet under another SSRC never moves the source that reports name; a
/// second one in a row does.
pub proof fn lemma_source_moves_on_second(rx: Rx, ssrc: u32)
    requires
        rx.remote_ssrc is Some,
        rx.remote_ssrc != Some(ssrc),
    ensures
        rx.candidate != Some(ssrc) ==> rx.sourced(ssrc).remote_ssrc == rx.remote_ssrc,
        rx.sourced(ssrc).sourced(ssrc).remote_ssrc == Some(ssrc),
        rx.sourced(rx.remote_ssrc.unwrap()).sourced(ssrc).remote_ssrc == rx.remote_ssrc,
{
}

} // verus!
