//! The single owner of a channel's state.
use vstd::prelude::*;
use webrtc_srtp::context::Context;

use crate::endpoint::Endpoint;
use crate::recv_loop::packet::{Inbound, RecvLoopConfig};
use crate::rtcp_stats::{RemoteReport, RxStats, DEFAULT_CLOCK_RATE};
use crate::rtcp_stats::Rx;
use crate::rtcp_tx::RtcpSchedule;
use crate::text::{chars_of, string_of};

verus! {

/// Close bookkeeping: set once, looked at when the channel's task ends.
#[derive(Debug, Clone, Default)]
pub struct CloseInfo {
    pub reason: String,
}

/// What a channel is, as far as media and control need it.
pub struct ChannelState {
    /// What receiving reads and changes.
    pub recv: RecvLoopConfig,
    /// The contexts of what is received.
    pub inbound: Inbound,
    /// The canonical name in reports; it stays for the life of the channel.
    pub cname: String,
    /// When the next report is due.
    pub rtcp: RtcpSchedule,
    /// RTCP shares the port of RTP (RFC 5761).
    pub rtcpmux: bool,
    /// The RTP timestamp of what was last sent.
    pub out_ts: u32,
    /// Ticks since the channel began.
    pub tick_count: u64,
    /// Packets that were sent.
    pub out_count: u64,
    /// Payload bytes that were sent.
    pub out_octets: u64,
    /// The far end negotiated DTLS.
    pub dtls: bool,
    /// The context of what is sent.
    pub srtp_encrypt: Option<Context>,
    /// Why the channel closed.
    pub close_info: Option<CloseInfo>,
}

/// A lower-case hexadecimal digit.
pub open spec fn hex_lower(d: int) -> char {
    if d < 10 {
        (48 + d) as u8 as char
    } else {
        (87 + d) as u8 as char
    }
}

/// Eight lower-case hexadecimal digits of a number.
pub open spec fn hex_8(v: u32) -> Seq<char> {
    seq![
        hex_lower(v as int / 0x1000_0000),
        hex_lower(v as int / 0x100_0000 % 16),
        hex_lower(v as int / 0x10_0000 % 16),
        hex_lower(v as int / 0x1_0000 % 16),
        hex_lower(v as int / 0x1000 % 16),
        hex_lower(v as int / 0x100 % 16),
        hex_lower(v as int / 0x10 % 16),
        hex_lower(v as int % 16),
    ]
}

/// The canonical name of a channel: its SSRC and its address.
pub open spec fn cname_of(ssrc: u32, ip: Seq<char>) -> Seq<char> {
    hex_8(ssrc) + seq!['@'] + ip
}

/// Where the generator of report intervals starts: the time and the SSRC, and
/// never at zero, where it would stay.
pub open spec fn seed_of(ssrc: u32, nanos: u64) -> u64 {
    (nanos ^ ((ssrc as u64) << 32)) | 1
}

fn lower_char(d: u8) -> (c: char)
    requires
        d < 16,
    ensures
        c == hex_lower(d as int),
{
    if d < 10 {
        (48 + d) as char
    } else {
        (87 + d) as char
    }
}

impl ChannelState {
    /// Another state of the same channel, that differs at most in the receiver
    /// accounting, the schedule of reports and the outbound context.
    pub open spec fn same_channel(self, other: ChannelState) -> bool {
        &&& self.recv.remote_addr == other.recv.remote_addr
        &&& self.recv.in_count == other.recv.in_count
        &&& self.recv.remote_report == other.recv.remote_report
        &&& self.recv.local_ssrc == other.recv.local_ssrc
        &&& self.recv.local_icepwd == other.recv.local_icepwd
        &&& self.recv.keys == other.recv.keys
        &&& self.recv.relay == other.recv.relay
        &&& self.inbound == other.inbound
        &&& self.cname == other.cname
        &&& self.rtcpmux == other.rtcpmux
        &&& self.out_ts == other.out_ts
        &&& self.tick_count == other.tick_count
        &&& self.out_count == other.out_count
        &&& self.out_octets == other.out_octets
        &&& self.dtls == other.dtls
        &&& self.close_info == other.close_info
    }

    /// A channel with an SSRC, on a local address with this text, made at
    /// `nanos` of the wall clock.
    pub fn new(ssrc: u32, ip: &str, nanos: u64) -> (r: Self)
        ensures
            r.recv.remote_addr is None,
            r.recv.in_count == 0,
            r.recv.rx_stats@ == Rx::fresh(DEFAULT_CLOCK_RATE),
            r.recv.rx_stats@.inv(),
            r.recv.remote_report == (RemoteReport {
                valid: false,
                fraction_lost: 0,
                cumulative_lost: 0,
                ext_highest_seq: 0,
                jitter: 0,
                rtt: None,
            }),
            r.recv.local_ssrc == ssrc,
            r.recv.local_icepwd@.len() == 0,
            r.recv.keys is None,
            r.recv.relay is None,
            r.inbound.srtcp is None,
            r.inbound.srtp is None,
            r.inbound.gates.rtp is None,
            r.inbound.gates.rtcp is None,
            r.cname@ == cname_of(ssrc, ip@),
            r.rtcp.next_tick == 0,
            r.rtcp.rng == seed_of(ssrc, nanos),
            r.rtcp.rng != 0,
            !r.rtcpmux,
            r.out_ts == 0,
            r.tick_count == 0,
            r.out_count == 0,
            r.out_octets == 0,
            !r.dtls,
            r.srtp_encrypt is None,
            r.close_info is None,
    {
        let mut name: Vec<char> = Vec::new();
        name.push(lower_char((ssrc / 0x1000_0000) as u8));
        name.push(lower_char((ssrc / 0x100_0000 % 16) as u8));
        name.push(lower_char((ssrc / 0x10_0000 % 16) as u8));
        name.push(lower_char((ssrc / 0x1_0000 % 16) as u8));
        name.push(lower_char((ssrc / 0x1000 % 16) as u8));
        name.push(lower_char((ssrc / 0x100 % 16) as u8));
        name.push(lower_char((ssrc / 0x10 % 16) as u8));
        name.push(lower_char((ssrc % 16) as u8));
        name.push('@');
        let mut text: Vec<char> = chars_of(ip);
        name.append(&mut text);
        assert(name@ =~= cname_of(ssrc, ip@));
        let mixed: u64 = nanos ^ ((ssrc as u64) << 32);
        assert(mixed | 1 != 0) by (bit_vector);
        ChannelState {
            recv: RecvLoopConfig {
                remote_addr: None,
                in_count: 0,
                rx_stats: RxStats::new(DEFAULT_CLOCK_RATE),
                remote_report: RemoteReport::default(),
                local_ssrc: ssrc,
                local_icepwd: Vec::new(),
                keys: None,
                relay: None,
            },
            inbound: Inbound::default(),
            cname: string_of(&name),
            rtcp: RtcpSchedule { next_tick: 0, rng: mixed | 1 },
            rtcpmux: false,
            out_ts: 0,
            tick_count: 0,
            out_count: 0,
            out_octets: 0,
            dtls: false,
            srtp_encrypt: None,
            close_info: None,
        }
    }

    /// Where the far end is.
    pub fn get_remote_addr(&self) -> (r: Option<Endpoint>)
        ensures
            r == self.recv.remote_addr,
    {
        self.recv.remote_addr
    }

    /// The far end is at `addr`.
    pub fn set_remote_addr(&mut self, addr: Endpoint)
        ensures
            *final(self) == (ChannelState {
                recv: RecvLoopConfig { remote_addr: Some(addr), ..old(self).recv },
                ..*old(self)
            }),
    {
        self.recv.remote_addr = Some(addr);
    }

    /// The channel negotiated DTLS, but has no keys (yet). Media is withheld
    /// then: sent in the clear it would undo what DTLS-SRTP is for. Never so on
    /// a channel without DTLS.
    pub fn secure_not_ready(&self) -> (r: bool)
        ensures
            r == (self.dtls && self.srtp_encrypt is None),
    {
        self.srtp_encrypt.is_none() && self.dtls
    }
}

/// A digit stands for its number.
proof fn lemma_hex_lower(d: int)
    requires
        0 <= d < 16,
    ensures
        digit_of(hex_lower(d)) == d,
        '0' <= hex_lower(d) <= '9' || 'a' <= hex_lower(d) <= 'f',
{
}

/// A number is made of its digits.
proof fn lemma_digits(v: int)
    requires
        0 <= v < 0x1_0000_0000,
    ensures
        0 <= v / 0x1000_0000 < 16,
        v == v / 0x1000_0000 * 0x1000_0000 + v / 0x100_0000 % 16 * 0x100_0000 + v / 0x10_0000 % 16
            * 0x10_0000 + v / 0x1_0000 % 16 * 0x1_0000 + v / 0x1000 % 16 * 0x1000 + v / 0x100 % 16
            * 0x100 + v / 0x10 % 16 * 0x10 + v % 16,
{
    let a = v / 0x10;
    let b = v / 0x100;
    let c = v / 0x1000;
    let d = v / 0x1_0000;
    let e = v / 0x10_0000;
    let f = v / 0x100_0000;
    let g = v / 0x1000_0000;
    assert(a == 16 * b + a % 16);
    assert(b == 16 * c + b % 16);
    assert(c == 16 * d + c % 16);
    assert(d == 16 * e + d % 16);
    assert(e == 16 * f + e % 16);
    assert(f == 16 * g + f % 16);
}

/// The number that a lower-case hexadecimal digit stands for.
pub open spec fn digit_of(c: char) -> int {
    if '0' <= c <= '9' {
        c as int - '0' as int
    } else {
        c as int - 'a' as int + 10
    }
}

/// A canonical name is the SSRC in eight lower-case hexadecimal digits, the highest
/// first, then an at sign, then the address. So it tells SSRCs apart.
pub proof fn lemma_cname(ssrc: u32, ip: Seq<char>)
    ensures
        ({
            let n = cname_of(ssrc, ip);
            &&& n.len() == 9 + ip.len()
            &&& forall|i: int|
                0 <= i < 8 ==> '0' <= #[trigger] n[i] <= '9' || 'a' <= n[i] <= 'f'
            &&& ssrc == digit_of(n[0]) * 0x1000_0000 + digit_of(n[1]) * 0x100_0000 + digit_of(n[2])
                * 0x10_0000 + digit_of(n[3]) * 0x1_0000 + digit_of(n[4]) * 0x1000 + digit_of(n[5])
                * 0x100 + digit_of(n[6]) * 0x10 + digit_of(n[7])
            &&& n[8] == '@'
            &&& n.skip(9) == ip
        }),
{
    let n = cname_of(ssrc, ip);
    let v = ssrc as int;
    assert(n.skip(9) =~= ip);
    lemma_digits(v);
    lemma_hex_lower(v / 0x1000_0000);
    lemma_hex_lower(v / 0x100_0000 % 16);
    lemma_hex_lower(v / 0x10_0000 % 16);
    lemma_hex_lower(v / 0x1_0000 % 16);
    lemma_hex_lower(v / 0x1000 % 16);
    lemma_hex_lower(v / 0x100 % 16);
    lemma_hex_lower(v / 0x10 % 16);
    lemma_hex_lower(v % 16);
    assert(n[0] == hex_lower(v / 0x1000_0000) && n[1] == hex_lower(v / 0x100_0000 % 16));
    assert(n[2] == hex_lower(v / 0x10_0000 % 16) && n[3] == hex_lower(v / 0x1_0000 % 16));
    assert(n[4] == hex_lower(v / 0x1000 % 16) && n[5] == hex_lower(v / 0x100 % 16));
    assert(n[6] == hex_lower(v / 0x10 % 16) && n[7] == hex_lower(v % 16));
}

/// Channels with different SSRCs that are made at one time do not start their
/// generators alike, and none starts at zero.
pub proof fn lemma_seeds_differ(a: u32, b: u32, nanos: u64)
    requires
        a != b,
    ensures
        seed_of(a, nanos) != seed_of(b, nanos),
        seed_of(a, nanos) % 2 == 1,
{
    let (x, y) = (a as u64, b as u64);
    assert((nanos ^ (x << 32)) | 1 != (nanos ^ (y << 32)) | 1) by (bit_vector)
        requires
            x != y,
            x < 0x1_0000_0000,
            y < 0x1_0000_0000,
    ;
    assert(((nanos ^ (x << 32)) | 1) % 2 == 1) by (bit_vector);
}

} // verus!
