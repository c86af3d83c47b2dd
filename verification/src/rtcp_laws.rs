//! RTCP on the wire, byte by byte (RFC 3550 section 6): what stands where in a
//! built datagram, and what is read from where in a received one.
use vstd::prelude::*;

use crate::rtcp::{
    block_at, block_bytes, blocks_at, blocks_bytes, bye_bytes, compound_bytes, held, item_of,
    items_from, middle_32, ntp_of, parsed, report_bytes, reported, sdes_bytes,
};
use crate::rtcp::{
    lemma_blocks_at, lemma_blocks_len, lemma_items_head, Item, ParseError, ReportBlock, SenderInfo,
    SystemTime,
};
use crate::wire::{be16, be32, bytes16, bytes32};

verus! {

broadcast use crate::wire::lemma_bytes32_len;

/// The number that two bytes make, the first one the higher.
pub open spec fn half_at(s: Seq<u8>, off: int) -> int {
    s[off] * 256 + s[off + 1]
}

/// The number that four bytes make, the first one the highest.
pub open spec fn word_at(s: Seq<u8>, off: int) -> int {
    s[off] * 0x100_0000 + s[off + 1] * 0x1_0000 + s[off + 2] * 0x100 + s[off + 3]
}

/// Integers are read and written with their highest byte first.
pub proof fn lemma_big_endian(s: Seq<u8>, off: int, v: u16, w: u32)
    ensures
        be16(s, off) == half_at(s, off),
        be32(s, off) == word_at(s, off),
        bytes16(v).len() == 2,
        half_at(bytes16(v), 0) == v,
        bytes32(w).len() == 4,
        word_at(bytes32(w), 0) == w,
{
    reveal(be32);
    let b = bytes32(w);
    assert(b.subrange(0, 4) =~= b);
    crate::wire::lemma_be32_of_bytes32(b, 0, w);
}

/// What is written at a place of a sequence is read there.
proof fn lemma_word_in(s: Seq<u8>, off: int, v: u32)
    requires
        0 <= off,
        off + 4 <= s.len(),
        s.subrange(off, off + 4) == bytes32(v),
    ensures
        word_at(s, off) == v,
{
    crate::wire::lemma_be32_of_bytes32(s, off, v);
    reveal(be32);
}

/// The block `r` stands at `off`: its source, the fraction lost, the loss as a
/// 24-bit two's complement number, the highest number, the jitter, and the times
/// of the last report and since it, in this order.
pub open spec fn block_stands(s: Seq<u8>, off: int, r: ReportBlock) -> bool {
    &&& word_at(s, off) == r.ssrc
    &&& s[off + 4] == r.fraction_lost
    &&& (s[off + 5] * 0x1_0000 + s[off + 6] * 0x100 + s[off + 7] - r.cumulative_lost) % 0x100_0000
        == 0
    &&& word_at(s, off + 8) == r.ext_highest_seq
    &&& word_at(s, off + 12) == r.jitter
    &&& word_at(s, off + 16) == r.lsr
    &&& word_at(s, off + 20) == r.dlsr
}

/// A report block takes 24 bytes, each field in its place.
pub proof fn lemma_block_layout(r: ReportBlock)
    ensures
        block_bytes(r).len() == 24,
        block_stands(block_bytes(r), 0, r),
{
    let b = block_bytes(r);
    assert(b.subrange(0, 4) =~= bytes32(r.ssrc));
    assert(b.subrange(8, 12) =~= bytes32(r.ext_highest_seq));
    assert(b.subrange(12, 16) =~= bytes32(r.jitter));
    assert(b.subrange(16, 20) =~= bytes32(r.lsr));
    assert(b.subrange(20, 24) =~= bytes32(r.dlsr));
    lemma_word_in(b, 0, r.ssrc);
    lemma_word_in(b, 8, r.ext_highest_seq);
    lemma_word_in(b, 12, r.jitter);
    lemma_word_in(b, 16, r.lsr);
    lemma_word_in(b, 20, r.dlsr);
    let l = crate::rtcp::low_24(r.cumulative_lost);
    assert(b[5] == l / 0x1_0000);
    assert(b[6] == l / 0x100 % 256);
    assert(b[7] == l % 256);
    assert(b[5] * 0x1_0000 + b[6] * 0x100 + b[7] == l);
}

/// A report block is read field by field from its 24 bytes: the loss is the
/// number of the signed 24-bit range that they stand for.
pub proof fn lemma_block_reading(s: Seq<u8>, off: int)
    ensures
        block_stands(s, off, block_at(s, off)),
        -0x80_0000 <= block_at(s, off).cumulative_lost < 0x80_0000,
{
    reveal(be32);
}

/// A part of a sequence, with the place where it begins.
proof fn lemma_part(s: Seq<u8>, off: int, t: Seq<u8>)
    requires
        0 <= off,
        off + t.len() <= s.len(),
        s.subrange(off, off + t.len()) == t,
    ensures
        forall|i: int| 0 <= i < t.len() ==> s[off + i] == #[trigger] t[i],
        forall|i: int| 0 <= i <= t.len() - 4 ==> word_at(s, off + i) == #[trigger] word_at(t, i),
        forall|i: int| 0 <= i <= t.len() - 2 ==> half_at(s, off + i) == #[trigger] half_at(t, i),
{
    let u = s.subrange(off, off + t.len());
    assert forall|i: int| 0 <= i < t.len() implies s[off + i] == #[trigger] t[i] by {
        assert(u[i] == t[i]);
    }
    assert forall|i: int| 0 <= i <= t.len() - 4 implies word_at(s, off + i) == #[trigger] word_at(
        t,
        i,
    ) by {
        assert(u[i] == t[i] && u[i + 1] == t[i + 1] && u[i + 2] == t[i + 2] && u[i + 3] == t[i
            + 3]);
    }
    assert forall|i: int| 0 <= i <= t.len() - 2 implies half_at(s, off + i) == #[trigger] half_at(
        t,
        i,
    ) by {
        assert(u[i] == t[i] && u[i + 1] == t[i + 1]);
    }
}

proof fn lemma_block_moves(s: Seq<u8>, off: int, t: Seq<u8>, r: ReportBlock)
    requires
        0 <= off,
        off + 24 <= s.len(),
        t.len() == 24,
        s.subrange(off, off + 24) == t,
        block_stands(t, 0, r),
    ensures
        block_stands(s, off, r),
{
    lemma_part(s, off, t);
    assert(word_at(s, off + 0) == word_at(t, 0));
    assert(word_at(s, off + 8) == word_at(t, 8));
    assert(word_at(s, off + 12) == word_at(t, 12));
    assert(word_at(s, off + 16) == word_at(t, 16));
    assert(word_at(s, off + 20) == word_at(t, 20));
    assert(s[off + 4] == t[4] && s[off + 5] == t[5] && s[off + 6] == t[6] && s[off + 7] == t[7]);
}

proof fn lemma_report_part(ssrc: u32, info: Option<SenderInfo>, reports: Seq<ReportBlock>)
    ensures
        ({
            let first = report_bytes(ssrc, info, reports);
            let n = reported(reports).len() as int;
            let start: int = if info is Some {
                28
            } else {
                8
            };
            &&& first.len() == start + 24 * n
            &&& first[0] == 128 + n
            &&& first[1] == if info is Some {
                200u8
            } else {
                201u8
            }
            &&& 4 * (half_at(first, 2) + 1) == start + 24 * n
            &&& word_at(first, 4) == ssrc
            &&& info matches Some(i) ==> {
                &&& word_at(first, 8) == i.ntp_sec
                &&& word_at(first, 12) == i.ntp_frac
                &&& word_at(first, 16) == i.rtp_ts
                &&& word_at(first, 20) == i.packet_count
                &&& word_at(first, 24) == i.octet_count
            }
            &&& first.subrange(start, start + 24 * n) == blocks_bytes(reported(reports))
        }),
{
    let first = report_bytes(ssrc, info, reports);
    let kept = reported(reports);
    let n = kept.len() as int;
    let start: int = if info is Some {
        28
    } else {
        8
    };
    lemma_blocks_len(kept);
    assert(n <= 31);
    assert(first.len() == start + 24 * n);
    assert(first.subrange(4, 8) =~= bytes32(ssrc));
    lemma_word_in(first, 4, ssrc);
    if let Some(i) = info {
        assert(first.subrange(8, 12) =~= bytes32(i.ntp_sec));
        assert(first.subrange(12, 16) =~= bytes32(i.ntp_frac));
        assert(first.subrange(16, 20) =~= bytes32(i.rtp_ts));
        assert(first.subrange(20, 24) =~= bytes32(i.packet_count));
        assert(first.subrange(24, 28) =~= bytes32(i.octet_count));
        lemma_word_in(first, 8, i.ntp_sec);
        lemma_word_in(first, 12, i.ntp_frac);
        lemma_word_in(first, 16, i.rtp_ts);
        lemma_word_in(first, 20, i.packet_count);
        lemma_word_in(first, 24, i.octet_count);
    }
    assert(first.subrange(start, start + 24 * n) =~= blocks_bytes(kept));
}

proof fn lemma_sdes_part(ssrc: u32, name: Seq<u8>)
    ensures
        ({
            let p = sdes_bytes(ssrc, name);
            let n: int = if name.len() <= 255 {
                name.len() as int
            } else {
                255
            };
            &&& p[0] == 129 && p[1] == 202
            &&& p.len() == 4 * (half_at(p, 2) + 1)
            &&& word_at(p, 4) == ssrc
            &&& p[8] == 1 && p[9] == n
            &&& forall|i: int| 0 <= i < n ==> p[10 + i] == #[trigger] name[i]
            &&& 10 + n < p.len() <= 10 + n + 4
            &&& forall|i: int| 10 + n <= i < p.len() ==> #[trigger] p[i] == 0
        }),
{
    let p = sdes_bytes(ssrc, name);
    let text = crate::rtcp::cname_text(name);
    let n = text.len() as int;
    let nulls = crate::rtcp::sdes_nulls(n);
    assert(p.len() == 10 + n + nulls);
    assert((6 + n + nulls) % 4 == 0);
    assert(p.subrange(4, 8) =~= bytes32(ssrc));
    lemma_word_in(p, 4, ssrc);
    assert(half_at(p, 2) == (6 + n + nulls) / 4);
    assert forall|i: int| 0 <= i < n implies p[10 + i] == #[trigger] name[i] by {
        assert(p[10 + i] == text[i]);
    }
}

proof fn lemma_bye_part(ssrc: u32)
    ensures
        ({
            let p = bye_bytes(ssrc);
            &&& p.len() == 8
            &&& p[0] == 129 && p[1] == 203
            &&& half_at(p, 2) == 1
            &&& word_at(p, 4) == ssrc
        }),
{
    let p = bye_bytes(ssrc);
    assert(p.subrange(4, 8) =~= bytes32(ssrc));
    lemma_word_in(p, 4, ssrc);
}

/// The report in front of a built datagram: version 2 and the number of blocks,
/// the type, the length in words less one, the sender; then, in a sender report,
/// the five words about the sender; then the blocks, the first 31 of them.
#[verifier::rlimit(100)]
pub proof fn lemma_report_layout(
    ssrc: u32,
    info: Option<SenderInfo>,
    reports: Seq<ReportBlock>,
    cname: Option<Seq<u8>>,
    bye: bool,
)
    ensures
        ({
            let all = compound_bytes(ssrc, info, reports, cname, bye);
            let n: int = if reports.len() <= 31 {
                reports.len() as int
            } else {
                31
            };
            let start: int = if info is Some {
                28
            } else {
                8
            };
            &&& all.len() >= start + 24 * n
            &&& all[0] == 128 + n
            &&& all[1] == if info is Some {
                200u8
            } else {
                201u8
            }
            &&& 4 * (half_at(all, 2) + 1) == start + 24 * n
            &&& word_at(all, 4) == ssrc
            &&& info matches Some(i) ==> {
                &&& word_at(all, 8) == i.ntp_sec
                &&& word_at(all, 12) == i.ntp_frac
                &&& word_at(all, 16) == i.rtp_ts
                &&& word_at(all, 20) == i.packet_count
                &&& word_at(all, 24) == i.octet_count
            }
            &&& forall|k: int|
                0 <= k < n ==> block_stands(all, start + 24 * k, #[trigger] reports[k])
        }),
{
    let all = compound_bytes(ssrc, info, reports, cname, bye);
    let first = report_bytes(ssrc, info, reports);
    let kept = reported(reports);
    let n = kept.len() as int;
    let start: int = if info is Some {
        28
    } else {
        8
    };
    lemma_report_part(ssrc, info, reports);
    lemma_blocks_len(kept);
    assert(all.subrange(0, first.len() as int) =~= first);
    lemma_part(all, 0, first);
    assert(all[0] == first[0] && all[1] == first[1]);
    assert(half_at(all, 2) == half_at(first, 2));
    assert(word_at(all, 4) == word_at(first, 4));
    if info is Some {
        assert(word_at(all, 8) == word_at(first, 8));
        assert(word_at(all, 12) == word_at(first, 12));
        assert(word_at(all, 16) == word_at(first, 16));
        assert(word_at(all, 20) == word_at(first, 20));
        assert(word_at(all, 24) == word_at(first, 24));
    }
    assert forall|k: int| 0 <= k < n implies block_stands(
        all,
        start + 24 * k,
        #[trigger] reports[k],
    ) by {
        assert(kept[k] == reports[k]);
        lemma_blocks_at(kept, k);
        lemma_block_layout(reports[k]);
        let blocks = first.subrange(start, start + 24 * n);
        assert(all.subrange(start + 24 * k, start + 24 * k + 24) =~= blocks.subrange(
            24 * k,
            24 * k + 24,
        ));
        lemma_block_moves(all, start + 24 * k, block_bytes(reports[k]), reports[k]);
    }
}

/// Behind the report of a built datagram, and to its end: where there is a name
/// an SDES of one chunk, with the sender and one CNAME item of the name's first
/// 255 bytes, closed by one null byte at least and filled with null bytes to a
/// whole word; and where it is a goodbye a BYE of the sender.
pub proof fn lemma_tail_layout(
    ssrc: u32,
    info: Option<SenderInfo>,
    reports: Seq<ReportBlock>,
    cname: Option<Seq<u8>>,
    bye: bool,
)
    ensures
        ({
            let all = compound_bytes(ssrc, info, reports, cname, bye);
            let at = 4 * (half_at(all, 2) + 1);
            let end = match cname {
                Some(_) => at + 4 * (half_at(all, at + 2) + 1),
                None => at,
            };
            &&& cname matches Some(name) ==> {
                let n: int = if name.len() <= 255 {
                    name.len() as int
                } else {
                    255
                };
                &&& all[at] == 129 && all[at + 1] == 202
                &&& word_at(all, at + 4) == ssrc
                &&& all[at + 8] == 1 && all[at + 9] == n
                &&& forall|i: int| 0 <= i < n ==> all[at + 10 + i] == #[trigger] name[i]
                &&& at + 10 + n < end <= at + 10 + n + 4
                &&& end <= all.len()
                &&& forall|i: int| at + 10 + n <= i < end ==> #[trigger] all[i] == 0
            }
            &&& bye ==> {
                &&& all.len() == end + 8
                &&& all[end] == 129 && all[end + 1] == 203
                &&& half_at(all, end + 2) == 1
                &&& word_at(all, end + 4) == ssrc
            }
            &&& !bye ==> all.len() == end
        }),
{
    let all = compound_bytes(ssrc, info, reports, cname, bye);
    let first = report_bytes(ssrc, info, reports);
    lemma_report_layout(ssrc, info, reports, cname, bye);
    lemma_report_part(ssrc, info, reports);
    let at = first.len() as int;
    let second = match cname {
        Some(name) => sdes_bytes(ssrc, name),
        None => Seq::empty(),
    };
    let end = at + second.len();
    assert(all.subrange(at, end) =~= second);
    if let Some(name) = cname {
        lemma_sdes_part(ssrc, name);
        lemma_part(all, at, second);
        let n: int = if name.len() <= 255 {
            name.len() as int
        } else {
            255
        };
        assert(all[at + 0] == second[0] && all[at + 1] == second[1]);
        assert(half_at(all, at + 2) == half_at(second, 2));
        assert(word_at(all, at + 4) == word_at(second, 4));
        assert(all[at + 8] == second[8] && all[at + 9] == second[9]);
        assert forall|i: int| 0 <= i < n implies all[at + 10 + i] == #[trigger] name[i] by {
            assert(all[at + (10 + i)] == second[10 + i]);
        }
        assert forall|i: int| at + 10 + n <= i < end implies #[trigger] all[i] == 0 by {
            assert(all[at + (i - at)] == second[i - at]);
        }
    }
    if bye {
        let third = bye_bytes(ssrc);
        lemma_bye_part(ssrc);
        assert(all.subrange(end, end + 8) =~= third);
        lemma_part(all, end, third);
        assert(all[end + 0] == third[0] && all[end + 1] == third[1]);
        assert(half_at(all, end + 2) == half_at(third, 2));
        assert(word_at(all, end + 4) == word_at(third, 4));
    }
}

/// How many items of `size` bytes there are, of `count` that are announced, in
/// `room` bytes.
proof fn lemma_held(len: int, off: int, size: int, count: int)
    requires
        size == 24 || size == 4,
        0 <= count,
        off <= len,
    ensures
        held(len, off, size, count) <= count,
        size * held(len, off, size, count) <= len - off,
        held(len, off, size, count) == count || size * (held(len, off, size, count) + 1) > len
            - off,
{
}

/// A sub-packet is whole: it has as many bytes as its header says.
pub open spec fn is_whole(p: Seq<u8>) -> bool {
    p.len() >= 4 && p.len() == 4 * (half_at(p, 2) + 1)
}

/// The report blocks of a sub-packet from `off` on are these: as many as its
/// header announces, or as it has room for.
pub open spec fn blocks_stand(p: Seq<u8>, off: int, blocks: Seq<ReportBlock>) -> bool {
    &&& blocks.len() <= p[0] % 32
    &&& off + 24 * blocks.len() <= p.len()
    &&& blocks.len() == p[0] % 32 || off + 24 * (blocks.len() + 1) > p.len()
    &&& forall|k: int|
        0 <= k < blocks.len() ==> block_stands(p, off + 24 * k, #[trigger] blocks[k])
            && -0x80_0000 <= blocks[k].cumulative_lost < 0x80_0000
}

/// What a whole sub-packet says, by its bytes: a sender report and a receiver
/// report their sender, the words about the sender and the blocks, where they
/// have the room; a BYE the sources that it names; any other nothing.
pub proof fn lemma_sub_packet_reading(p: Seq<u8>)
    requires
        is_whole(p),
        p[0] / 64 == 2,
    ensures
        parsed(p) is Ok,
        ({
            let items = parsed(p)->Ok_0;
            &&& p[1] == 200 && p.len() >= 28 ==> {
                &&& items.len() == 1
                &&& items[0] matches Item::SenderReport { ssrc, info, reports } && {
                    &&& ssrc == word_at(p, 4)
                    &&& info.ntp_sec == word_at(p, 8)
                    &&& info.ntp_frac == word_at(p, 12)
                    &&& info.rtp_ts == word_at(p, 16)
                    &&& info.packet_count == word_at(p, 20)
                    &&& info.octet_count == word_at(p, 24)
                    &&& blocks_stand(p, 28, reports)
                }
            }
            &&& p[1] == 201 && p.len() >= 8 ==> {
                &&& items.len() == 1
                &&& items[0] matches Item::ReceiverReport { ssrc, reports } && {
                    &&& ssrc == word_at(p, 4)
                    &&& blocks_stand(p, 8, reports)
                }
            }
            &&& p[1] == 203 ==> {
                &&& items.len() == 1
                &&& items[0] matches Item::Bye { ssrcs } && {
                    &&& ssrcs.len() <= p[0] % 32
                    &&& 4 + 4 * ssrcs.len() <= p.len()
                    &&& ssrcs.len() == p[0] % 32 || 4 + 4 * (ssrcs.len() + 1) > p.len()
                    &&& forall|k: int|
                        0 <= k < ssrcs.len() ==> #[trigger] ssrcs[k] == word_at(p, 4 + 4 * k)
                }
            }
            &&& (p[1] == 200 && p.len() < 28) || (p[1] == 201 && p.len() < 8) || (p[1] != 200
                && p[1] != 201 && p[1] != 203) ==> items.len() == 0
        }),
{
    reveal(be32);
    lemma_items_head(p, Seq::empty());
    assert(p + Seq::<u8>::empty() =~= p);
    assert(items_from(Seq::empty(), 0) == Some(Seq::<Item>::empty()));
    assert(item_of(p) + Seq::<Item>::empty() =~= item_of(p));
    let count = p[0] as int % 32;
    if p.len() >= 28 {
        lemma_held(p.len() as int, 28, 24, count);
        assert forall|k: int| 0 <= k < blocks_at(p, 28).len() implies block_stands(
            p,
            28 + 24 * k,
            #[trigger] blocks_at(p, 28)[k],
        ) && -0x80_0000 <= blocks_at(p, 28)[k].cumulative_lost < 0x80_0000 by {
            lemma_block_reading(p, 28 + 24 * k);
        }
    }
    if p.len() >= 8 {
        lemma_held(p.len() as int, 8, 24, count);
        assert forall|k: int| 0 <= k < blocks_at(p, 8).len() implies block_stands(
            p,
            8 + 24 * k,
            #[trigger] blocks_at(p, 8)[k],
        ) && -0x80_0000 <= blocks_at(p, 8)[k].cumulative_lost < 0x80_0000 by {
            lemma_block_reading(p, 8 + 24 * k);
        }
    }
    lemma_held(p.len() as int, 4, 4, count);
}

/// A datagram is read from its front: a whole sub-packet says what it says
/// alone, what stands behind it is read as it would be alone, and fewer bytes
/// than a header has, at the end, are ignored.
pub proof fn lemma_compound_reading(p: Seq<u8>, rest: Seq<u8>)
    requires
        is_whole(p),
        p[0] / 64 == 2,
    ensures
        rest.len() < 4 ==> parsed(p + rest) == parsed(p),
        rest.len() >= 4 && rest[0] / 64 == 2 ==> match parsed(rest) {
            Ok(items) => parsed(p + rest) == Ok::<Seq<Item>, ParseError>(parsed(p)->Ok_0 + items),
            Err(e) => parsed(p + rest) == Err::<Seq<Item>, ParseError>(e),
        },
{
    lemma_items_head(p, rest);
    lemma_items_head(p, Seq::empty());
    assert(p + Seq::<u8>::empty() =~= p);
    assert(items_from(Seq::empty(), 0) == Some(Seq::<Item>::empty()));
    assert((p + rest)[0] == p[0]);
}

/// A datagram is refused where it is too short for a header, where its version is
/// not 2, and where a sub-packet runs past its end.
pub proof fn lemma_refused(b: Seq<u8>)
    ensures
        b.len() < 4 ==> parsed(b) == Err::<Seq<Item>, ParseError>(ParseError::TooShort),
        b.len() >= 4 && b[0] / 64 != 2 ==> parsed(b) == Err::<Seq<Item>, ParseError>(
            ParseError::BadVersion,
        ),
        b.len() >= 4 && b[0] / 64 == 2 && b.len() < 4 * (half_at(b, 2) + 1) ==> parsed(b) == Err::<
            Seq<Item>,
            ParseError,
        >(ParseError::BadLength),
{
}

/// An NTP timestamp is as many seconds past 1900 as the time is past 1970 and
/// 2208988800 more, modulo 2^32, and the fraction is that of the nanoseconds,
/// rounded down. Its middle is what remains without its highest and its lowest
/// 16 bits.
pub proof fn lemma_ntp(secs: u64, nanos: u32, sec: u32, frac: u32)
    requires
        nanos < 1_000_000_000,
    ensures
        ({
            let (s, f) = ntp_of(SystemTime::SinceEpoch { secs, nanos });
            &&& (s - secs - 2_208_988_800) % 0x1_0000_0000 == 0
            &&& f * 1_000_000_000 <= nanos * 0x1_0000_0000 < (f + 1) * 1_000_000_000
        }),
        ntp_of(SystemTime::BeforeEpoch { secs, nanos }) == ntp_of(
            SystemTime::SinceEpoch { secs: 0, nanos: 0 },
        ),
        middle_32(sec, frac) == (sec * 0x1_0000_0000 + frac) / 0x1_0000 % 0x1_0000_0000,
{
}

} // verus!
