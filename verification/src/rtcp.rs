//! RTCP packet codec (RFC 3550 section 6): plain byte-slice encoding and
//! decoding of SR, RR, SDES/CNAME and BYE.
//!
//! Every sub-packet starts with a four-byte header: version (2 bits), padding,
//! a 5-bit count, the packet type, and the size in 32-bit words minus one. A
//! compound datagram is one or more sub-packets end to end.
use vstd::prelude::*;
use vstd::slice::slice_subrange;
use vstd::string::StringSliceAdditionalSpecFns;

use crate::wire::{be16, be32, bytes16, bytes32};
use crate::wire::{push_u16, push_u32, read_u16, read_u32};

verus! {

broadcast use crate::wire::lemma_bytes32_len;

pub const RTCP_VERSION: u8 = 2;

pub const PT_SR: u8 = 200;

pub const PT_RR: u8 = 201;

pub const PT_SDES: u8 = 202;

pub const PT_BYE: u8 = 203;

pub const PT_APP: u8 = 204;

/// The SDES item type of a canonical name.
pub const SDES_CNAME: u8 = 1;

/// The common header of a sub-packet.
pub const RTCP_HEADER_LEN: usize = 4;

/// The sender-info block behind the SSRC of an SR.
pub const SENDER_INFO_LEN: usize = 20;

/// One report block.
pub const REPORT_BLOCK_LEN: usize = 24;

/// The most report blocks that a 5-bit count can announce.
pub const MAX_REPORT_COUNT: usize = 31;

/// Seconds between the NTP epoch (1900) and the Unix epoch (1970).
pub const NTP_UNIX_OFFSET_SECS: u64 = 2_208_988_800;

/// Sender-info block carried in a Sender Report.
#[derive(Debug, Clone, Copy, PartialEq, Eq, Default)]
pub struct SenderInfo {
    pub ntp_sec: u32,
    pub ntp_frac: u32,
    pub rtp_ts: u32,
    pub packet_count: u32,
    pub octet_count: u32,
}

/// One reception report block. `cumulative_lost` is a signed 24-bit quantity on
/// the wire; this is the decoded value.
#[derive(Debug, Clone, Copy, PartialEq, Eq, Default)]
pub struct ReportBlock {
    pub ssrc: u32,
    pub fraction_lost: u8,
    pub cumulative_lost: i32,
    pub ext_highest_seq: u32,
    pub jitter: u32,
    pub lsr: u32,
    pub dlsr: u32,
}

/// A decoded sub-packet of interest; other types are skipped.
#[derive(Debug, Clone, PartialEq)]
pub enum RtcpItem {
    SenderReport { ssrc: u32, info: SenderInfo, reports: Vec<ReportBlock> },
    ReceiverReport { ssrc: u32, reports: Vec<ReportBlock> },
    Bye { ssrcs: Vec<u32> },
}

/// What an `RtcpItem` says.
pub enum Item {
    SenderReport { ssrc: u32, info: SenderInfo, reports: Seq<ReportBlock> },
    ReceiverReport { ssrc: u32, reports: Seq<ReportBlock> },
    Bye { ssrcs: Seq<u32> },
}

impl View for RtcpItem {
    type V = Item;

    open spec fn view(&self) -> Item {
        match self {
            RtcpItem::SenderReport { ssrc, info, reports } => Item::SenderReport {
                ssrc: *ssrc,
                info: *info,
                reports: reports@,
            },
            RtcpItem::ReceiverReport { ssrc, reports } => Item::ReceiverReport {
                ssrc: *ssrc,
                reports: reports@,
            },
            RtcpItem::Bye { ssrcs } => Item::Bye { ssrcs: ssrcs@ },
        }
    }
}

#[derive(Debug, Clone, Copy, PartialEq, Eq)]
pub enum ParseError {
    /// Buffer shorter than a single common header.
    TooShort,
    /// Version field of the first sub-packet was not 2.
    BadVersion,
    /// A sub-packet's declared length ran past the end of the buffer.
    BadLength,
}

/// A wall-clock time, by its distance from the Unix epoch: whole seconds and
/// the nanoseconds beyond them.
#[derive(Debug, Clone, Copy, PartialEq, Eq)]
pub enum SystemTime {
    /// At the epoch or after it.
    SinceEpoch { secs: u64, nanos: u32 },
    /// Before the epoch.
    BeforeEpoch { secs: u64, nanos: u32 },
}

impl SystemTime {
    /// The nanoseconds are less than a second.
    pub open spec fn inv(self) -> bool {
        match self {
            SystemTime::SinceEpoch { nanos, .. } => nanos < 1_000_000_000,
            SystemTime::BeforeEpoch { nanos, .. } => nanos < 1_000_000_000,
        }
    }

    /// Seconds and nanoseconds since the epoch; a time before it reads as the
    /// epoch.
    pub open spec fn clamped(self) -> (u64, u32) {
        match self {
            SystemTime::SinceEpoch { secs, nanos } => (secs, nanos),
            SystemTime::BeforeEpoch { .. } => (0, 0),
        }
    }
}

/// The 64-bit NTP timestamp of `t`: seconds since 1900 modulo 2^32, and the
/// fraction of a second in units of 2^-32. A time before the Unix epoch reads as
/// the epoch.
pub open spec fn ntp_of(t: SystemTime) -> (u32, u32) {
    let (secs, nanos) = t.clamped();
    (
        ((secs + NTP_UNIX_OFFSET_SECS) % 0x1_0000_0000) as u32,
        (nanos * 0x1_0000_0000 / 1_000_000_000) as u32,
    )
}

/// Converts a wall-clock time to a 64-bit NTP timestamp (seconds, fraction). A
/// time before the Unix epoch reads as the epoch.
pub fn ntp_from_system_time(t: SystemTime) -> (r: (u32, u32))
    requires
        t.inv(),
    ensures
        r == ntp_of(t),
        t is BeforeEpoch ==> r == (NTP_UNIX_OFFSET_SECS as u32, 0u32),
{
    let (since, nanos): (u64, u32) = match t {
        SystemTime::SinceEpoch { secs, nanos } => (secs, nanos),
        SystemTime::BeforeEpoch { .. } => (0, 0),
    };
    let secs: u64 = since.wrapping_add(NTP_UNIX_OFFSET_SECS);
    let frac: u64 = nanos as u64 * 0x1_0000_0000 / 1_000_000_000;
    ((secs % 0x1_0000_0000) as u32, frac as u32)
}

/// Calls `std::time::SystemTime::now`, by its distance from the Unix epoch as
/// `duration_since` gives it: as the duration since the epoch, or as that of the
/// error before it. Of the time nothing is claimed but that its nanoseconds are
/// less than a second.
#[verifier::external_body]
fn system_now() -> (t: SystemTime)
    ensures
        t.inv(),
{
    match std::time::SystemTime::now().duration_since(std::time::UNIX_EPOCH) {
        Ok(d) => SystemTime::SinceEpoch { secs: d.as_secs(), nanos: d.subsec_nanos() },
        Err(e) => SystemTime::BeforeEpoch {
            secs: e.duration().as_secs(),
            nanos: e.duration().subsec_nanos(),
        },
    }
}

/// The current wall clock as an NTP timestamp.
pub fn ntp_now() -> (r: (u32, u32))
    ensures
        exists|t: SystemTime| t.inv() && r == #[trigger] ntp_of(t),
{
    let t = system_now();
    ntp_from_system_time(t)
}

/// The middle 32 bits of a 64-bit NTP timestamp, as carried in a report block's
/// LSR field.
pub open spec fn middle_32(ntp_sec: u32, ntp_frac: u32) -> u32 {
    ((ntp_sec % 0x1_0000) * 0x1_0000 + ntp_frac / 0x1_0000) as u32
}

/// The middle 32 bits of a 64-bit NTP timestamp.
pub fn ntp_middle_32(ntp_sec: u32, ntp_frac: u32) -> (r: u32)
    ensures
        r == middle_32(ntp_sec, ntp_frac),
{
    (ntp_sec % 0x1_0000) * 0x1_0000 + ntp_frac / 0x1_0000
}

// ---------- encoding ----------

/// The common header of a sub-packet of `words + 1` words.
pub open spec fn header_bytes(count: int, pt: u8, words: int) -> Seq<u8> {
    seq![(0x80 + count) as u8, pt] + bytes16(words as u16)
}

/// The 24-bit two's complement of `v`, as a number.
pub open spec fn low_24(v: i32) -> int {
    (v as int) % 0x100_0000
}

/// Encoding of a report block.
pub open spec fn block_bytes(r: ReportBlock) -> Seq<u8> {
    bytes32(r.ssrc) + seq![
        r.fraction_lost,
        (low_24(r.cumulative_lost) / 0x1_0000) as u8,
        (low_24(r.cumulative_lost) / 0x100 % 256) as u8,
        (low_24(r.cumulative_lost) % 256) as u8,
    ] + bytes32(r.ext_highest_seq) + bytes32(r.jitter) + bytes32(r.lsr) + bytes32(r.dlsr)
}

/// Encoding of report blocks one after the other.
pub open spec fn blocks_bytes(rs: Seq<ReportBlock>) -> Seq<u8>
    decreases rs.len(),
{
    if rs.len() == 0 {
        Seq::empty()
    } else {
        blocks_bytes(rs.drop_last()) + block_bytes(rs.last())
    }
}

/// Encoding of a sender-info block.
pub open spec fn info_bytes(i: SenderInfo) -> Seq<u8> {
    bytes32(i.ntp_sec) + bytes32(i.ntp_frac) + bytes32(i.rtp_ts) + bytes32(i.packet_count)
        + bytes32(i.octet_count)
}

/// The blocks of `rs` that fit in one sub-packet.
pub open spec fn reported(rs: Seq<ReportBlock>) -> Seq<ReportBlock> {
    if rs.len() <= MAX_REPORT_COUNT {
        rs
    } else {
        rs.take(MAX_REPORT_COUNT as int)
    }
}

/// Encoding of an SR (with `info`) or an RR (without).
pub open spec fn report_bytes(
    ssrc: u32,
    info: Option<SenderInfo>,
    rs: Seq<ReportBlock>,
) -> Seq<u8> {
    let n = reported(rs).len() as int;
    match info {
        Some(i) => header_bytes(n, PT_SR, 6 + 6 * n) + bytes32(ssrc) + info_bytes(i)
            + blocks_bytes(reported(rs)),
        None => header_bytes(n, PT_RR, 1 + 6 * n) + bytes32(ssrc) + blocks_bytes(
            reported(rs),
        ),
    }
}

/// The text of a CNAME item: at most 255 bytes of the name.
pub open spec fn cname_text(name: Seq<u8>) -> Seq<u8> {
    if name.len() <= 255 {
        name
    } else {
        name.take(255)
    }
}

/// The number of null bytes behind a CNAME item of `n` text bytes: one that
/// ends the list, and what fills the last word.
pub open spec fn sdes_nulls(n: int) -> int {
    4 - (n + 2) % 4
}

/// Encoding of an SDES packet with one CNAME item.
pub open spec fn sdes_bytes(ssrc: u32, name: Seq<u8>) -> Seq<u8> {
    let text = cname_text(name);
    let nulls = sdes_nulls(text.len() as int);
    header_bytes(1, PT_SDES, (6 + text.len() + nulls) / 4) + bytes32(ssrc) + seq![
        SDES_CNAME,
        text.len() as u8,
    ] + text + Seq::new(nulls as nat, |i: int| 0u8)
}

/// Encoding of a BYE that names one source.
pub open spec fn bye_bytes(ssrc: u32) -> Seq<u8> {
    header_bytes(1, PT_BYE, 1) + bytes32(ssrc)
}

/// A compound datagram.
pub open spec fn compound_bytes(
    ssrc: u32,
    info: Option<SenderInfo>,
    reports: Seq<ReportBlock>,
    cname: Option<Seq<u8>>,
    bye: bool,
) -> Seq<u8> {
    report_bytes(ssrc, info, reports) + (match cname {
        Some(name) => sdes_bytes(ssrc, name),
        None => Seq::empty(),
    }) + (if bye {
        bye_bytes(ssrc)
    } else {
        Seq::empty()
    })
}

fn push_header(out: &mut Vec<u8>, count: u8, pt: u8, length_words: u16)
    requires
        count < 32,
    ensures
        final(out)@ == old(out)@ + header_bytes(count as int, pt, length_words as int),
{
    out.push(0x80 + count);
    out.push(pt);
    push_u16(out, length_words);
}

fn push_report_block(out: &mut Vec<u8>, r: &ReportBlock)
    ensures
        final(out)@ == old(out)@ + block_bytes(*r),
{
    push_u32(out, r.ssrc);
    let cum: u32 = ((r.cumulative_lost as i64 + 0x1_0000_0000) % 0x100_0000) as u32;
    assert(cum == low_24(r.cumulative_lost));
    out.push(r.fraction_lost);
    out.push((cum / 0x1_0000) as u8);
    out.push((cum / 0x100 % 256) as u8);
    out.push((cum % 256) as u8);
    push_u32(out, r.ext_highest_seq);
    push_u32(out, r.jitter);
    push_u32(out, r.lsr);
    push_u32(out, r.dlsr);
    assert(out@ =~= old(out)@ + block_bytes(*r));
}

/// Appends an SR (`info` is `Some`) or an RR.
fn push_report_packet(
    out: &mut Vec<u8>,
    sender_ssrc: u32,
    info: Option<&SenderInfo>,
    reports: &[ReportBlock],
)
    ensures
        final(out)@ == old(out)@ + report_bytes(
            sender_ssrc,
            match info {
                Some(i) => Some(*i),
                None => None,
            },
            reports@,
        ),
{
    let rc: usize = if reports.len() < MAX_REPORT_COUNT {
        reports.len()
    } else {
        MAX_REPORT_COUNT
    };
    match info {
        Some(si) => {
            push_header(out, rc as u8, PT_SR, (6 + 6 * rc) as u16);
            push_u32(out, sender_ssrc);
            push_u32(out, si.ntp_sec);
            push_u32(out, si.ntp_frac);
            push_u32(out, si.rtp_ts);
            push_u32(out, si.packet_count);
            push_u32(out, si.octet_count);
        },
        None => {
            push_header(out, rc as u8, PT_RR, (1 + 6 * rc) as u16);
            push_u32(out, sender_ssrc);
        },
    }
    let ghost fixed = out@;
    let mut i: usize = 0;
    while i < rc
        invariant
            i <= rc <= reports@.len(),
            out@ == fixed + blocks_bytes(reports@.take(i as int)),
        decreases rc - i,
    {
        push_report_block(out, &reports[i]);
        i += 1;
        assert(reports@.take(i as int).drop_last() =~= reports@.take(i - 1));
        assert(out@ =~= fixed + blocks_bytes(reports@.take(i as int)));
    }
    assert(reports@.take(rc as int) =~= reported(reports@));
    assert(out@ =~= old(out)@ + report_bytes(
        sender_ssrc,
        match info {
            Some(i) => Some(*i),
            None => None,
        },
        reports@,
    ));
}

/// Appends an SDES packet with one CNAME item for `ssrc`.
fn push_sdes_cname(out: &mut Vec<u8>, ssrc: u32, cname: &str)
    ensures
        final(out)@ == old(out)@ + sdes_bytes(ssrc, cname.spec_bytes()),
{
    let name: &[u8] = cname.as_bytes();
    let text_len: usize = if name.len() < 255 {
        name.len()
    } else {
        255
    };
    let nulls: usize = 4 - (text_len + 2) % 4;
    let text: &[u8] = slice_subrange(name, 0, text_len);
    assert(text@ =~= cname_text(name@));
    push_header(out, 1, PT_SDES, ((6 + text_len + nulls) / 4) as u16);
    push_u32(out, ssrc);
    out.push(SDES_CNAME);
    out.push(text_len as u8);
    out.extend_from_slice(text);
    let ghost fixed = out@;
    // A null item ends the list; the chunk is padded to a word boundary.
    let mut i: usize = 0;
    while i < nulls
        invariant
            i <= nulls,
            out@ == fixed + Seq::new(i as nat, |i: int| 0u8),
        decreases nulls - i,
    {
        out.push(0);
        i += 1;
        assert(out@ =~= fixed + Seq::new(i as nat, |i: int| 0u8));
    }
    assert(out@ =~= old(out)@ + sdes_bytes(ssrc, name@));
}

/// Appends a BYE that names one source.
fn push_bye(out: &mut Vec<u8>, ssrc: u32)
    ensures
        final(out)@ == old(out)@ + bye_bytes(ssrc),
{
    push_header(out, 1, PT_BYE, 1);
    push_u32(out, ssrc);
    assert(out@ =~= old(out)@ + bye_bytes(ssrc));
}

/// Assembles a compound RTCP datagram: an SR (when `sender_info` is `Some`) or
/// an RR with at most the first 31 reports, then SDES/CNAME and BYE as asked.
pub fn build_compound(
    sender_ssrc: u32,
    sender_info: Option<&SenderInfo>,
    reports: &[ReportBlock],
    cname: Option<&str>,
    bye: bool,
) -> (out: Vec<u8>)
    ensures
        out@ == compound_bytes(
            sender_ssrc,
            match sender_info {
                Some(i) => Some(*i),
                None => None,
            },
            reports@,
            match cname {
                Some(name) => Some(name.spec_bytes()),
                None => None,
            },
            bye,
        ),
{
    let mut out: Vec<u8> = Vec::with_capacity(128);
    push_report_packet(&mut out, sender_ssrc, sender_info, reports);
    if let Some(name) = cname {
        push_sdes_cname(&mut out, sender_ssrc, name);
    }
    if bye {
        push_bye(&mut out, sender_ssrc);
    }
    assert(out@ =~= compound_bytes(
        sender_ssrc,
        match sender_info {
            Some(i) => Some(*i),
            None => None,
        },
        reports@,
        match cname {
            Some(name) => Some(name.spec_bytes()),
            None => None,
        },
        bye,
    ));
    out
}

// ---------- decoding ----------

/// The 24-bit two's complement number at `off`.
pub open spec fn signed_24(s: Seq<u8>, off: int) -> i32 {
    let raw = s[off] * 0x1_0000 + s[off + 1] * 0x100 + s[off + 2];
    (if raw < 0x80_0000 {
        raw
    } else {
        raw - 0x100_0000
    }) as i32
}

/// The report block at `off`.
pub open spec fn block_at(s: Seq<u8>, off: int) -> ReportBlock {
    ReportBlock {
        ssrc: be32(s, off),
        fraction_lost: s[off + 4],
        cumulative_lost: signed_24(s, off + 5),
        ext_highest_seq: be32(s, off + 8),
        jitter: be32(s, off + 12),
        lsr: be32(s, off + 16),
        dlsr: be32(s, off + 20),
    }
}

/// The sender-info block at `off`.
pub open spec fn info_at(s: Seq<u8>, off: int) -> SenderInfo {
    SenderInfo {
        ntp_sec: be32(s, off),
        ntp_frac: be32(s, off + 4),
        rtp_ts: be32(s, off + 8),
        packet_count: be32(s, off + 12),
        octet_count: be32(s, off + 16),
    }
}

/// How many items of `size` bytes the body holds from `off` on, of the `count`
/// that its header announces.
pub open spec fn held(len: int, off: int, size: int, count: int) -> nat {
    if len - off >= size * count {
        count as nat
    } else if len >= off {
        ((len - off) / size) as nat
    } else {
        0
    }
}

/// The report blocks of a sub-packet, from `off` on.
pub open spec fn blocks_at(s: Seq<u8>, off: int) -> Seq<ReportBlock> {
    Seq::new(held(s.len() as int, off, 24, s[0] as int % 32), |i: int| block_at(s, off + 24 * i))
}

/// What one sub-packet says: nothing, when it is of another type or too short
/// for its fixed fields.
pub open spec fn item_of(s: Seq<u8>) -> Seq<Item> {
    if s[1] == PT_SR && s.len() >= 28 {
        seq![
            Item::SenderReport {
                ssrc: be32(s, 4),
                info: info_at(s, 8),
                reports: blocks_at(s, 28),
            },
        ]
    } else if s[1] == PT_RR && s.len() >= 8 {
        seq![Item::ReceiverReport { ssrc: be32(s, 4), reports: blocks_at(s, 8) }]
    } else if s[1] == PT_BYE {
        seq![
            Item::Bye {
                ssrcs: Seq::new(
                    held(s.len() as int, 4, 4, s[0] as int % 32),
                    |i: int| be32(s, 4 + 4 * i),
                ),
            },
        ]
    } else {
        Seq::empty()
    }
}

/// The size of the sub-packet at `off`, by its header.
pub open spec fn packet_len(b: Seq<u8>, off: int) -> int {
    (be16(b, off + 2) + 1) * 4
}

/// What the sub-packets from `off` on say; `None` when one runs past the end.
/// Fewer than four bytes at the end are ignored.
pub open spec fn items_from(b: Seq<u8>, off: int) -> Option<Seq<Item>>
    decreases b.len() - off,
{
    if off + 4 > b.len() {
        Some(Seq::empty())
    } else if off + packet_len(b, off) > b.len() {
        None
    } else {
        match items_from(b, off + packet_len(b, off)) {
            Some(rest) => Some(item_of(b.subrange(off, off + packet_len(b, off))) + rest),
            None => None,
        }
    }
}

/// What a compound datagram says.
pub open spec fn parsed(b: Seq<u8>) -> Result<Seq<Item>, ParseError> {
    if b.len() < RTCP_HEADER_LEN {
        Err(ParseError::TooShort)
    } else if b[0] / 64 != RTCP_VERSION {
        Err(ParseError::BadVersion)
    } else {
        match items_from(b, 0) {
            Some(items) => Ok(items),
            None => Err(ParseError::BadLength),
        }
    }
}

/// What a list of items says.
pub open spec fn item_views(v: Seq<RtcpItem>) -> Seq<Item> {
    v.map_values(|i: RtcpItem| i@)
}

fn parse_report_block(b: &[u8], off: usize) -> (r: ReportBlock)
    requires
        off + REPORT_BLOCK_LEN <= b@.len(),
    ensures
        r == block_at(b@, off as int),
{
    assert(off + REPORT_BLOCK_LEN <= b.len());
    let raw: i32 = b[off + 5] as i32 * 0x1_0000 + b[off + 6] as i32 * 0x100 + b[off + 7] as i32;
    ReportBlock {
        ssrc: read_u32(b, off),
        fraction_lost: b[off + 4],
        cumulative_lost: if raw < 0x80_0000 {
            raw
        } else {
            raw - 0x100_0000
        },
        ext_highest_seq: read_u32(b, off + 8),
        jitter: read_u32(b, off + 12),
        lsr: read_u32(b, off + 16),
        dlsr: read_u32(b, off + 20),
    }
}

/// Parses the report blocks of a sub-packet, from `start` on.
fn parse_blocks(body: &[u8], start: usize) -> (reports: Vec<ReportBlock>)
    requires
        1 <= start <= body@.len(),
        start <= 28,
    ensures
        reports@ == blocks_at(body@, start as int),
{
    let count: usize = (body[0] % 32) as usize;
    let mut reports: Vec<ReportBlock> = Vec::with_capacity(count);
    let mut at: usize = start;
    while reports.len() < count && body.len() - at >= REPORT_BLOCK_LEN
        invariant
            count == body@[0] as int % 32,
            reports@.len() <= count,
            start <= at <= body@.len(),
            at == start + 24 * reports@.len(),
            forall|i: int|
                0 <= i < reports@.len() ==> #[trigger] reports@[i] == block_at(
                    body@,
                    start + 24 * i,
                ),
        decreases count - reports@.len(),
    {
        reports.push(parse_report_block(body, at));
        at += REPORT_BLOCK_LEN;
    }
    assert(reports@ =~= blocks_at(body@, start as int));
    reports
}

/// Parses an SR (`is_sr`) or an RR; `None` when the body is too short for its
/// fixed fields.
fn parse_report(body: &[u8], is_sr: bool) -> (r: Option<RtcpItem>)
    requires
        body@.len() >= 4,
    ensures
        is_sr ==> match r {
            Some(item) => body@.len() >= 28 && item@ == (Item::SenderReport {
                ssrc: be32(body@, 4),
                info: info_at(body@, 8),
                reports: blocks_at(body@, 28),
            }),
            None => body@.len() < 28,
        },
        !is_sr ==> match r {
            Some(item) => body@.len() >= 8 && item@ == (Item::ReceiverReport {
                ssrc: be32(body@, 4),
                reports: blocks_at(body@, 8),
            }),
            None => body@.len() < 8,
        },
{
    if body.len() < 8 {
        return None;
    }
    let ssrc: u32 = read_u32(body, 4);
    if is_sr {
        if body.len() < 28 {
            return None;
        }
        let info = SenderInfo {
            ntp_sec: read_u32(body, 8),
            ntp_frac: read_u32(body, 12),
            rtp_ts: read_u32(body, 16),
            packet_count: read_u32(body, 20),
            octet_count: read_u32(body, 24),
        };
        let reports = parse_blocks(body, 28);
        Some(RtcpItem::SenderReport { ssrc, info, reports })
    } else {
        let reports = parse_blocks(body, 8);
        Some(RtcpItem::ReceiverReport { ssrc, reports })
    }
}

/// Parses the sources of a BYE.
fn parse_bye(body: &[u8]) -> (ssrcs: Vec<u32>)
    requires
        body@.len() >= 4,
    ensures
        ssrcs@ == Seq::new(
            held(body@.len() as int, 4, 4, body@[0] as int % 32),
            |i: int| be32(body@, 4 + 4 * i),
        ),
{
    let count: usize = (body[0] % 32) as usize;
    let mut ssrcs: Vec<u32> = Vec::with_capacity(count);
    let mut at: usize = 4;
    while ssrcs.len() < count && body.len() - at >= 4
        invariant
            count == body@[0] as int % 32,
            ssrcs@.len() <= count,
            4 <= at <= body@.len(),
            at == 4 + 4 * ssrcs@.len(),
            forall|i: int|
                0 <= i < ssrcs@.len() ==> #[trigger] ssrcs@[i] == be32(body@, 4 + 4 * i),
        decreases count - ssrcs@.len(),
    {
        ssrcs.push(read_u32(body, at));
        at += 4;
    }
    assert(ssrcs@ =~= Seq::new(
        held(body@.len() as int, 4, 4, body@[0] as int % 32),
        |i: int| be32(body@, 4 + 4 * i),
    ));
    ssrcs
}

/// Parses a compound RTCP datagram into its SR, RR and BYE sub-packets. Other
/// types are skipped; so is an SR or RR too short for its fixed fields. A
/// malformed header or an out-of-range length is an error.
pub fn parse(buf: &[u8]) -> (r: Result<Vec<RtcpItem>, ParseError>)
    ensures
        match r {
            Ok(items) => parsed(buf@) == Ok::<Seq<Item>, ParseError>(item_views(items@)),
            Err(e) => parsed(buf@) == Err::<Seq<Item>, ParseError>(e),
        },
{
    if buf.len() < RTCP_HEADER_LEN {
        return Err(ParseError::TooShort);
    }
    if buf[0] / 64 != RTCP_VERSION {
        return Err(ParseError::BadVersion);
    }
    let mut items: Vec<RtcpItem> = Vec::new();
    let mut off: usize = 0;
    assert(items_from(buf@, 0) == match items_from(buf@, 0) {
        Some(rest) => Some(item_views(items@) + rest),
        None => None,
    }) by {
        if items_from(buf@, 0) is Some {
            assert(item_views(items@) + items_from(buf@, 0).unwrap() =~= items_from(
                buf@,
                0,
            ).unwrap());
        }
    }
    while buf.len() - off >= RTCP_HEADER_LEN
        invariant
            off <= buf@.len(),
            buf@.len() >= RTCP_HEADER_LEN,
            buf@[0] / 64 == RTCP_VERSION,
            items_from(buf@, 0) == match items_from(buf@, off as int) {
                Some(rest) => Some(item_views(items@) + rest),
                None => None,
            },
        decreases buf@.len() - off,
    {
        let pt: u8 = buf[off + 1];
        let len: usize = (read_u16(buf, off + 2) as usize + 1) * 4;
        assert(len == packet_len(buf@, off as int));
        if buf.len() - off < len {
            assert(items_from(buf@, off as int) is None);
            return Err(ParseError::BadLength);
        }
        let body: &[u8] = slice_subrange(buf, off, off + len);
        let ghost before = items@;
        assert(body@[1] == pt);
        if pt == PT_SR || pt == PT_RR {
            if let Some(item) = parse_report(body, pt == PT_SR) {
                items.push(item);
                assert(item_views(items@) =~= item_views(before) + item_of(body@));
            } else {
                assert(item_views(items@) =~= item_views(before) + item_of(body@));
            }
        } else if pt == PT_BYE {
            let ssrcs = parse_bye(body);
            items.push(RtcpItem::Bye { ssrcs });
            assert(item_views(items@) =~= item_views(before) + item_of(body@));
        } else {
            assert(item_views(items@) =~= item_views(before) + item_of(body@));
        }
        proof {
            if let Some(rest) = items_from(buf@, off + len) {
                assert(item_views(before) + (item_of(body@) + rest) =~= item_views(items@) + rest);
            }
        }
        off += len;
    }
    assert(item_views(items@) + Seq::<Item>::empty() =~= item_views(items@));
    Ok(items)
}

// ---------- laws ----------

/// A report block as it comes back off the wire: the cumulative loss is taken
/// modulo 2^24, into the signed 24-bit range.
pub open spec fn wire_block(r: ReportBlock) -> ReportBlock {
    ReportBlock {
        cumulative_lost: (if low_24(r.cumulative_lost) < 0x80_0000 {
            low_24(r.cumulative_lost)
        } else {
            low_24(r.cumulative_lost) - 0x100_0000
        }) as i32,
        ..r
    }
}

/// What a compound datagram of the given parts says: its report, with the
/// blocks that fit, and its BYE. The SDES says nothing.
pub open spec fn compound_items(
    ssrc: u32,
    info: Option<SenderInfo>,
    reports: Seq<ReportBlock>,
    bye: bool,
) -> Seq<Item> {
    let blocks = reported(reports).map_values(|r: ReportBlock| wire_block(r));
    seq![
        match info {
            Some(i) => Item::SenderReport { ssrc, info: i, reports: blocks },
            None => Item::ReceiverReport { ssrc, reports: blocks },
        },
    ] + (if bye {
        seq![Item::Bye { ssrcs: seq![ssrc] }]
    } else {
        Seq::empty()
    })
}

/// A cumulative loss inside the signed 24-bit range survives the wire.
pub proof fn lemma_wire_block_in_range(r: ReportBlock)
    requires
        -0x80_0000 <= r.cumulative_lost < 0x80_0000,
    ensures
        wire_block(r) == r,
{
}

pub(crate) proof fn lemma_blocks_len(rs: Seq<ReportBlock>)
    ensures
        blocks_bytes(rs).len() == 24 * rs.len(),
    decreases rs.len(),
{
    if rs.len() > 0 {
        lemma_blocks_len(rs.drop_last());
    }
}

pub(crate) proof fn lemma_blocks_at(rs: Seq<ReportBlock>, i: int)
    requires
        0 <= i < rs.len(),
    ensures
        blocks_bytes(rs).len() == 24 * rs.len(),
        blocks_bytes(rs).subrange(24 * i, 24 * i + 24) == block_bytes(rs[i]),
    decreases rs.len(),
{
    lemma_blocks_len(rs);
    lemma_blocks_len(rs.drop_last());
    if i == rs.len() - 1 {
        assert(blocks_bytes(rs).subrange(24 * i, 24 * i + 24) =~= block_bytes(rs[i]));
    } else {
        lemma_blocks_at(rs.drop_last(), i);
        assert(blocks_bytes(rs).subrange(24 * i, 24 * i + 24) =~= blocks_bytes(
            rs.drop_last(),
        ).subrange(24 * i, 24 * i + 24));
    }
}

proof fn lemma_block_roundtrip(s: Seq<u8>, off: int, r: ReportBlock)
    requires
        0 <= off,
        off + 24 <= s.len(),
        s.subrange(off, off + 24) == block_bytes(r),
    ensures
        block_at(s, off) == wire_block(r),
{
    let t = s.subrange(off, off + 24);
    let b = block_bytes(r);
    assert(b.subrange(0, 4) =~= bytes32(r.ssrc));
    assert(b.subrange(8, 12) =~= bytes32(r.ext_highest_seq));
    assert(b.subrange(12, 16) =~= bytes32(r.jitter));
    assert(b.subrange(16, 20) =~= bytes32(r.lsr));
    assert(b.subrange(20, 24) =~= bytes32(r.dlsr));
    assert(s.subrange(off, off + 4) =~= t.subrange(0, 4));
    assert(s.subrange(off + 8, off + 12) =~= t.subrange(8, 12));
    assert(s.subrange(off + 12, off + 16) =~= t.subrange(12, 16));
    assert(s.subrange(off + 16, off + 20) =~= t.subrange(16, 20));
    assert(s.subrange(off + 20, off + 24) =~= t.subrange(20, 24));
    crate::wire::lemma_be32_of_bytes32(s, off, r.ssrc);
    crate::wire::lemma_be32_of_bytes32(s, off + 8, r.ext_highest_seq);
    crate::wire::lemma_be32_of_bytes32(s, off + 12, r.jitter);
    crate::wire::lemma_be32_of_bytes32(s, off + 16, r.lsr);
    crate::wire::lemma_be32_of_bytes32(s, off + 20, r.dlsr);
    assert(s[off + 4] == t[4] && s[off + 5] == t[5] && s[off + 6] == t[6] && s[off + 7] == t[7]);
    let l = low_24(r.cumulative_lost);
    assert(t[5] == l / 0x1_0000);
    assert(t[6] == l / 0x100 % 256);
    assert(t[7] == l % 256);
    assert(s[off + 5] * 0x1_0000 + s[off + 6] * 0x100 + s[off + 7] == l);
}

/// The framing and the meaning of an encoded report.
proof fn lemma_report_packet(ssrc: u32, info: Option<SenderInfo>, rs: Seq<ReportBlock>)
    ensures
        report_bytes(ssrc, info, rs).len() >= 8,
        report_bytes(ssrc, info, rs).len() % 4 == 0,
        packet_len(report_bytes(ssrc, info, rs), 0) == report_bytes(ssrc, info, rs).len(),
        report_bytes(ssrc, info, rs)[0] / 64 == RTCP_VERSION,
        item_of(report_bytes(ssrc, info, rs)) == compound_items(ssrc, info, rs, false),
{
    let s = report_bytes(ssrc, info, rs);
    let kept = reported(rs);
    let n = kept.len() as int;
    let start: int = if info is Some {
        28
    } else {
        8
    };
    lemma_blocks_len(kept);
    assert(n <= 31);
    assert(s.len() == start + 24 * n);
    assert(s[0] == 0x80 + n);
    assert(be16(s, 2) == (start + 24 * n) / 4 - 1);
    assert(s.subrange(4, 8) =~= bytes32(ssrc));
    crate::wire::lemma_be32_of_bytes32(s, 4, ssrc);
    if let Some(i) = info {
        assert(s.subrange(8, 12) =~= bytes32(i.ntp_sec));
        assert(s.subrange(12, 16) =~= bytes32(i.ntp_frac));
        assert(s.subrange(16, 20) =~= bytes32(i.rtp_ts));
        assert(s.subrange(20, 24) =~= bytes32(i.packet_count));
        assert(s.subrange(24, 28) =~= bytes32(i.octet_count));
        crate::wire::lemma_be32_of_bytes32(s, 8, i.ntp_sec);
        crate::wire::lemma_be32_of_bytes32(s, 12, i.ntp_frac);
        crate::wire::lemma_be32_of_bytes32(s, 16, i.rtp_ts);
        crate::wire::lemma_be32_of_bytes32(s, 20, i.packet_count);
        crate::wire::lemma_be32_of_bytes32(s, 24, i.octet_count);
    }
    let blocks = kept.map_values(|r: ReportBlock| wire_block(r));
    assert(s.subrange(start, s.len() as int) =~= blocks_bytes(kept));
    assert forall|i: int| 0 <= i < n implies block_at(s, start + 24 * i) == wire_block(
        kept[i],
    ) by {
        lemma_blocks_at(kept, i);
        assert(s.subrange(start + 24 * i, start + 24 * i + 24) =~= blocks_bytes(kept).subrange(
            24 * i,
            24 * i + 24,
        ));
        lemma_block_roundtrip(s, start + 24 * i, kept[i]);
    }
    assert(blocks_at(s, start) =~= blocks);
    assert(item_of(s) =~= compound_items(ssrc, info, rs, false));
}

/// The framing of an encoded SDES, which says nothing.
proof fn lemma_sdes_packet(ssrc: u32, name: Seq<u8>)
    ensures
        sdes_bytes(ssrc, name).len() >= 8,
        sdes_bytes(ssrc, name).len() % 4 == 0,
        packet_len(sdes_bytes(ssrc, name), 0) == sdes_bytes(ssrc, name).len(),
        item_of(sdes_bytes(ssrc, name)) == Seq::<Item>::empty(),
{
    let s = sdes_bytes(ssrc, name);
    let t = cname_text(name).len() as int;
    assert(s.len() == 10 + t + sdes_nulls(t));
    assert((6 + t + sdes_nulls(t)) % 4 == 0);
    assert(be16(s, 2) == (6 + t + sdes_nulls(t)) / 4);
}

/// The framing and the meaning of an encoded BYE.
proof fn lemma_bye_packet(ssrc: u32)
    ensures
        bye_bytes(ssrc).len() == 8,
        packet_len(bye_bytes(ssrc), 0) == 8,
        item_of(bye_bytes(ssrc)) == seq![Item::Bye { ssrcs: seq![ssrc] }],
{
    let s = bye_bytes(ssrc);
    assert(be16(s, 2) == 1);
    assert(s.subrange(4, 8) =~= bytes32(ssrc));
    crate::wire::lemma_be32_of_bytes32(s, 4, ssrc);
    let ssrcs = Seq::new(
        held(s.len() as int, 4, 4, s[0] as int % 32),
        |i: int| be32(s, 4 + 4 * i),
    );
    assert(ssrcs =~= seq![ssrc]);
    assert(item_of(s) =~= seq![Item::Bye { ssrcs: seq![ssrc] }]);
}

/// What stands behind a whole sub-packet is read as it would be alone.
proof fn lemma_items_shift(a: Seq<u8>, b: Seq<u8>, off: int)
    requires
        0 <= off,
    ensures
        items_from(a + b, a.len() + off) == items_from(b, off),
    decreases b.len() - off,
{
    let ab = a + b;
    if off + 4 <= b.len() {
        assert(packet_len(ab, a.len() + off) == packet_len(b, off));
        let n = packet_len(b, off);
        if off + n <= b.len() {
            assert(ab.subrange(a.len() + off, a.len() + off + n) =~= b.subrange(off, off + n));
            lemma_items_shift(a, b, off + n);
        }
    }
}

/// A whole sub-packet in front of others is read first.
pub(crate) proof fn lemma_items_head(a: Seq<u8>, b: Seq<u8>)
    requires
        a.len() >= 4,
        packet_len(a, 0) == a.len(),
    ensures
        items_from(a + b, 0) == match items_from(b, 0) {
            Some(rest) => Some(item_of(a) + rest),
            None => None,
        },
{
    let ab = a + b;
    assert(packet_len(ab, 0) == a.len());
    assert(ab.subrange(0, a.len() as int) =~= a);
    lemma_items_shift(a, b, 0);
}

/// Parsing a built compound datagram gives back what went into it, and the
/// datagram is a whole number of 32-bit words.
pub proof fn lemma_compound_roundtrip(
    ssrc: u32,
    info: Option<SenderInfo>,
    reports: Seq<ReportBlock>,
    cname: Option<Seq<u8>>,
    bye: bool,
)
    ensures
        compound_bytes(ssrc, info, reports, cname, bye).len() % 4 == 0,
        parsed(compound_bytes(ssrc, info, reports, cname, bye)) == Ok::<Seq<Item>, ParseError>(
            compound_items(ssrc, info, reports, bye),
        ),
{
    let all = compound_bytes(ssrc, info, reports, cname, bye);
    let first = report_bytes(ssrc, info, reports);
    let second = match cname {
        Some(name) => sdes_bytes(ssrc, name),
        None => Seq::empty(),
    };
    let third = if bye {
        bye_bytes(ssrc)
    } else {
        Seq::empty()
    };
    lemma_report_packet(ssrc, info, reports);
    lemma_bye_packet(ssrc);
    assert(all =~= first + (second + third));
    assert(items_from(Seq::empty(), 0) == Some(Seq::<Item>::empty()));
    lemma_items_head(first, second + third);
    if bye {
        lemma_items_head(third, Seq::empty());
        assert(third + Seq::<u8>::empty() =~= third);
        assert(item_of(third) + Seq::<Item>::empty() =~= item_of(third));
    }
    if let Some(name) = cname {
        lemma_sdes_packet(ssrc, name);
        lemma_items_head(second, third);
        if let Some(rest) = items_from(third, 0) {
            assert(item_of(second) + rest =~= rest);
        }
    } else {
        assert(second + third =~= third);
    }
    let rest = if bye {
        seq![Item::Bye { ssrcs: seq![ssrc] }]
    } else {
        Seq::empty()
    };
    assert(items_from(second + third, 0) == Some(rest));
    assert(item_of(first) + rest =~= compound_items(ssrc, info, reports, bye));
}

/// A built compound datagram is of version 2, holds its sender, and is well
/// below the size of a datagram.
pub proof fn lemma_compound_fits(
    ssrc: u32,
    info: Option<SenderInfo>,
    reports: Seq<ReportBlock>,
    cname: Option<Seq<u8>>,
    bye: bool,
)
    ensures
        ({
            let all = compound_bytes(ssrc, info, reports, cname, bye);
            &&& 8 <= all.len() <= 1100
            &&& all[0] / 64 == 2
            &&& be32(all, 4) == ssrc
        }),
{
    let all = compound_bytes(ssrc, info, reports, cname, bye);
    lemma_blocks_len(reported(reports));
    assert(all.subrange(4, 8) =~= bytes32(ssrc));
    crate::wire::lemma_be32_of_bytes32(all, 4, ssrc);
}

} // verus!
