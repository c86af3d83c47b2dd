//! RTCP feedback on the wire, byte by byte, and what compounds of several
//! sub-packets ask.
use vstd::prelude::*;

use crate::relay::feedback::{
    entry_bytes, feedback_of, lemma_entry_bytes, lemma_feedback_head, nack_bytes, pli_bytes, Asked,
};
use crate::rtcp_laws::{half_at, lemma_big_endian, word_at};
use crate::wire::{be16, be32, bytes16, bytes32};

verus! {

broadcast use crate::wire::lemma_bytes32_len;

/// One sub-packet of version 2 whose length field counts it, with room for the
/// SSRC of its sender.
pub open spec fn is_sub_packet(p: Seq<u8>) -> bool {
    &&& p.len() >= 8
    &&& p.len() == 4 * (half_at(p, 2) + 1)
    &&& p[0] / 64 == 2
}

/// What is asked twice over: the keyframes of both, and the NACKs of both.
pub open spec fn both(a: Asked, b: Asked) -> Asked {
    Asked {
        keyframe: match (a.keyframe, b.keyframe) {
            (Some(x), Some(y)) => Some(x + y),
            (Some(x), None) => Some(x),
            (None, y) => y,
        },
        nacks: a.nacks + b.nacks,
    }
}

/// A sub-packet asks by its type in the second byte and its format in the low five
/// bits of the first. A PLI (206, 1) asks for a keyframe of the media source at
/// byte 8; a FIR (206, 4) of the source at the front of each entry of eight bytes
/// from byte 12 on; a generic NACK (205, 1) for the packets of its entries, from
/// byte 12 on, of the media source at byte 8. Any other asks nothing.
pub proof fn lemma_sub_packet_asks(p: Seq<u8>)
    requires
        is_sub_packet(p),
    ensures
        ({
            let fb = feedback_of(p);
            let (kind, fmt) = (p[1], p[0] % 32);
            &&& kind == 206 && fmt == 1 ==> fb.nacks.len() == 0 && (fb.keyframe matches Some(v)
                && if p.len() >= 12 {
                v.len() == 1 && v[0] == word_at(p, 8)
            } else {
                v.len() == 0
            })
            &&& kind == 206 && fmt == 4 ==> fb.nacks.len() == 0 && (fb.keyframe matches Some(v) && {
                &&& p.len() >= 12 ==> 12 + 8 * v.len() <= p.len() < 12 + 8 * (v.len() + 1)
                &&& p.len() < 12 ==> v.len() == 0
                &&& forall|i: int|
                    0 <= i < v.len() ==> #[trigger] v[i] == word_at(p, 12 + 8 * i)
            })
            &&& kind == 205 && fmt == 1 && p.len() >= 16 ==> {
                &&& fb.keyframe is None
                &&& fb.nacks.len() == 1
                &&& fb.nacks[0].0 == word_at(p, 8)
                &&& 12 + 4 * fb.nacks[0].1.len() == p.len()
                &&& forall|i: int|
                    0 <= i < fb.nacks[0].1.len() ==> (#[trigger] fb.nacks[0].1[i]).0 == half_at(
                        p,
                        12 + 4 * i,
                    ) && fb.nacks[0].1[i].1 == half_at(p, 14 + 4 * i)
            }
            &&& !(kind == 206 && (fmt == 1 || fmt == 4)) && !(kind == 205 && fmt == 1 && p.len()
                >= 16) ==> fb.keyframe is None && fb.nacks.len() == 0
        }),
{
    lemma_feedback_head(p, Seq::empty());
    assert(p + Seq::<u8>::empty() =~= p);
    lemma_big_endian(p, 8, 0, 0);
    let fb = feedback_of(p);
    assert(fb == Asked::nothing().with(p));
    assert forall|i: int| 0 <= i implies #[trigger] be32(p, 12 + 8 * i) == word_at(
        p,
        12 + 8 * i,
    ) by {
        lemma_big_endian(p, 12 + 8 * i, 0, 0);
    }
    if p[1] == 205 && p[0] % 32 == 1 && p.len() >= 16 {
        assert(fb.nacks[0].1 == crate::relay::feedback::nack_entries(p));
        assert forall|i: int| 0 <= i < fb.nacks[0].1.len() implies (
        #[trigger] fb.nacks[0].1[i]).0 == half_at(p, 12 + 4 * i) && fb.nacks[0].1[i].1
            == half_at(p, 14 + 4 * i) by {
            lemma_big_endian(p, 12 + 4 * i, 0, 0);
            lemma_big_endian(p, 14 + 4 * i, 0, 0);
        }
    }
}

proof fn lemma_from(a: Asked, b: Seq<u8>, off: int)
    requires
        0 <= off,
    ensures
        a.with_from(b, off) == both(a, Asked::nothing().with_from(b, off)),
    decreases b.len() - off,
{
    let none = Asked::nothing();
    if off + 8 > b.len() || !(128 <= b[off] <= 191) {
        assert(both(a, none).nacks =~= a.nacks);
    } else {
        let end = crate::relay::feedback::packet_end(b, off);
        let p = b.subrange(off, end);
        let rest = none.with_from(b, end);
        lemma_from(a.with(p), b, end);
        lemma_from(none.with(p), b, end);
        assert(both(a.with(p), rest).nacks =~= both(a, both(none.with(p), rest)).nacks);
        match (a.keyframe, none.with(p).keyframe, rest.keyframe) {
            (Some(x), Some(y), Some(z)) => {
                assert(x + y + z =~= x + (y + z));
            },
            _ => {},
        }
        assert(both(a.with(p), rest) == both(a, both(none.with(p), rest)));
    }
}

/// A compound asks what its first sub-packet asks, and what the rest asks.
pub proof fn lemma_compound_asks(p: Seq<u8>, rest: Seq<u8>)
    requires
        is_sub_packet(p),
    ensures
        feedback_of(p + rest) == both(feedback_of(p), feedback_of(rest)),
{
    lemma_feedback_head(p, rest);
    lemma_feedback_head(p, Seq::empty());
    assert(p + Seq::<u8>::empty() =~= p);
    lemma_from(Asked::nothing().with(p), rest, 0);
}

/// Bytes that do not start with a header of version 2 ask nothing, nor do fewer
/// than eight.
pub proof fn lemma_no_feedback(b: Seq<u8>)
    requires
        b.len() < 8 || b[0] / 64 != 2,
    ensures
        feedback_of(b) == (Asked { keyframe: None, nacks: Seq::empty() }),
{
}

/// A PLI takes 12 bytes: version 2 and format 1, type 206, a length of two words
/// more, its sender and its media source.
pub proof fn lemma_pli_layout(sender_ssrc: u32, media_ssrc: u32)
    ensures
        ({
            let p = pli_bytes(sender_ssrc, media_ssrc);
            &&& p.len() == 12
            &&& p[0] == 0x81 && p[1] == 206 && half_at(p, 2) == 2
            &&& word_at(p, 4) == sender_ssrc
            &&& word_at(p, 8) == media_ssrc
        }),
{
    let p = pli_bytes(sender_ssrc, media_ssrc);
    lemma_big_endian(p, 0, 0, sender_ssrc);
    lemma_big_endian(p, 0, 0, media_ssrc);
    let (s, m) = (bytes32(sender_ssrc), bytes32(media_ssrc));
    assert(p[4] == s[0] && p[5] == s[1] && p[6] == s[2] && p[7] == s[3]);
    assert(p[8] == m[0] && p[9] == m[1] && p[10] == m[2] && p[11] == m[3]);
}

/// A generic NACK takes 12 bytes and four for each entry: version 2 and format 1,
/// type 205, its length in words less one, its sender, its media source, and each
/// entry as its identifier and its mask.
pub proof fn lemma_nack_layout(sender_ssrc: u32, media_ssrc: u32, fci: Seq<(u16, u16)>)
    requires
        fci.len() <= 0xFFFD,
    ensures
        ({
            let p = nack_bytes(sender_ssrc, media_ssrc, fci);
            &&& p.len() == 12 + 4 * fci.len()
            &&& p[0] == 0x81 && p[1] == 205 && half_at(p, 2) == fci.len() + 2
            &&& word_at(p, 4) == sender_ssrc
            &&& word_at(p, 8) == media_ssrc
            &&& forall|i: int|
                0 <= i < fci.len() ==> half_at(p, 12 + 4 * i) == (#[trigger] fci[i]).0 && half_at(
                    p,
                    14 + 4 * i,
                ) == fci[i].1
        }),
{
    let p = nack_bytes(sender_ssrc, media_ssrc, fci);
    let e = entry_bytes(fci);
    lemma_entry_bytes(fci);
    let len = ((fci.len() + 2) % 0x1_0000) as u16;
    lemma_big_endian(p, 0, len, sender_ssrc);
    lemma_big_endian(p, 0, len, media_ssrc);
    let (n, s, m) = (bytes16(len), bytes32(sender_ssrc), bytes32(media_ssrc));
    assert(p[2] == n[0] && p[3] == n[1]);
    assert(p[4] == s[0] && p[5] == s[1] && p[6] == s[2] && p[7] == s[3]);
    assert(p[8] == m[0] && p[9] == m[1] && p[10] == m[2] && p[11] == m[3]);
    assert forall|i: int| 0 <= i < fci.len() implies half_at(p, 12 + 4 * i) == (
    #[trigger] fci[i]).0 && half_at(p, 14 + 4 * i) == fci[i].1 by {
        lemma_big_endian(e, 4 * i, 0, 0);
        lemma_big_endian(e, 4 * i + 2, 0, 0);
        assert(p[12 + 4 * i] == e[4 * i] && p[13 + 4 * i] == e[4 * i + 1]);
        assert(p[14 + 4 * i] == e[4 * i + 2] && p[15 + 4 * i] == e[4 * i + 3]);
        assert((be16(e, 4 * i), be16(e, 4 * i + 2)) == fci[i]);
    }
}

} // verus!
