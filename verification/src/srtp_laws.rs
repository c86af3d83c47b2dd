//! Which packets a context is handed, by how they are laid out: RTP headers with
//! and without extensions (RFC 3550, RFC 8285), and SRTCP (RFC 3711).
use vstd::prelude::*;

use crate::recv_loop::gate::{Gate, Protected};
use crate::rtcp_laws::half_at;
use crate::srtp::{
    decrypted_rtcp, decrypted_rtp, encrypted_rtp, has_whole_header, header_size, is_datagram,
    is_marked, is_sealable, log_after_rtp, one_byte_end, opened_rtcp, opened_rtp, sealed_rtp,
    two_byte_end, ProtectionProfile,
};
use crate::wire::be16;

verus! {

/// An RTP packet without a header extension, with room for the contributing
/// sources that it counts, has a header of twelve bytes and four for each; it is
/// encrypted and decrypted, whatever it carries.
pub proof fn lemma_plain_packets_pass(pkt: Seq<u8>, log: Seq<(u8, Seq<u8>)>)
    requires
        pkt.len() >= 12 + 4 * (pkt[0] % 16),
        pkt[0] / 16 % 2 == 0,
    ensures
        header_size(pkt) == Some(12 + 4 * (pkt[0] % 16)),
        has_whole_header(pkt) && is_sealable(pkt),
        pkt.len() <= 0xFFFF ==> is_datagram(pkt),
        sealed_rtp(log, pkt) == encrypted_rtp(log, pkt),
        opened_rtp(log, pkt) == decrypted_rtp(log, pkt),
{
}

/// An element of a header extension: its identifier and its data.
pub struct Element {
    pub id: u8,
    pub data: Seq<u8>,
}

/// Elements with one-byte headers, one behind the other: the identifier and the
/// length less one, in four bits each, then the data.
pub open spec fn one_byte_elements(v: Seq<Element>) -> Seq<u8>
    decreases v.len(),
{
    if v.len() == 0 {
        Seq::empty()
    } else {
        seq![(v[0].id * 16 + v[0].data.len() - 1) as u8] + v[0].data + one_byte_elements(
            v.drop_first(),
        )
    }
}

/// Elements with two-byte headers, one behind the other: the identifier, the
/// length, the data.
pub open spec fn two_byte_elements(v: Seq<Element>) -> Seq<u8>
    decreases v.len(),
{
    if v.len() == 0 {
        Seq::empty()
    } else {
        seq![v[0].id, v[0].data.len() as u8] + v[0].data + two_byte_elements(v.drop_first())
    }
}

/// Elements that one-byte headers can say.
pub open spec fn fit_one_byte(v: Seq<Element>) -> bool {
    forall|i: int|
        0 <= i < v.len() ==> 1 <= (#[trigger] v[i]).id <= 14 && 1 <= v[i].data.len() <= 16
}

/// Elements that two-byte headers can say.
pub open spec fn fit_two_byte(v: Seq<Element>) -> bool {
    forall|i: int| 0 <= i < v.len() ==> 1 <= (#[trigger] v[i]).id && v[i].data.len() <= 255
}

/// The bytes from `from` to `to` are null.
pub open spec fn is_filled(s: Seq<u8>, from: int, to: int) -> bool {
    forall|i: int| from <= i < to ==> #[trigger] s[i] == 0
}

proof fn lemma_fill_one(s: Seq<u8>, cur: int, end: int)
    requires
        cur <= end,
        is_filled(s, cur, end),
    ensures
        one_byte_end(s, cur, end) == Some(end),
        two_byte_end(s, cur, end) == Some(end),
    decreases end - cur,
{
    if cur < end {
        assert(s[cur] == 0);
        lemma_fill_one(s, cur + 1, end);
    }
}

proof fn lemma_one_byte_walk(s: Seq<u8>, cur: int, end: int, v: Seq<Element>)
    requires
        fit_one_byte(v),
        0 <= cur,
        cur + one_byte_elements(v).len() <= end <= s.len(),
        s.subrange(cur, cur + one_byte_elements(v).len()) == one_byte_elements(v),
    ensures
        one_byte_end(s, cur, end) == one_byte_end(s, cur + one_byte_elements(v).len(), end),
    decreases v.len(),
{
    if v.len() > 0 {
        let all = one_byte_elements(v);
        let rest = v.drop_first();
        let n = 1 + v[0].data.len() as int;
        let part = s.subrange(cur, cur + all.len());
        assert(1 <= v[0].id <= 14 && 1 <= v[0].data.len() <= 16);
        assert(s[cur] == part[0]);
        assert(part[0] == v[0].id * 16 + v[0].data.len() - 1);
        assert(s[cur] / 16 == v[0].id && s[cur] % 16 == v[0].data.len() - 1);
        assert(all.len() == n + one_byte_elements(rest).len());
        assert(s.subrange(cur + n, cur + n + one_byte_elements(rest).len()) =~= part.subrange(
            n,
            all.len() as int,
        ));
        assert(part.subrange(n, all.len() as int) =~= one_byte_elements(rest));
        assert forall|i: int| 0 <= i < rest.len() implies 1 <= (#[trigger] rest[i]).id <= 14 && 1
            <= rest[i].data.len() <= 16 by {
            assert(rest[i] == v[i + 1]);
        }
        lemma_one_byte_walk(s, cur + n, end, rest);
    }
}

proof fn lemma_two_byte_walk(s: Seq<u8>, cur: int, end: int, v: Seq<Element>)
    requires
        fit_two_byte(v),
        0 <= cur,
        cur + two_byte_elements(v).len() <= end <= s.len(),
        s.subrange(cur, cur + two_byte_elements(v).len()) == two_byte_elements(v),
    ensures
        two_byte_end(s, cur, end) == two_byte_end(s, cur + two_byte_elements(v).len(), end),
    decreases v.len(),
{
    if v.len() > 0 {
        let all = two_byte_elements(v);
        let rest = v.drop_first();
        let n = 2 + v[0].data.len() as int;
        let part = s.subrange(cur, cur + all.len());
        assert(1 <= v[0].id && v[0].data.len() <= 255);
        assert(s[cur] == part[0] && s[cur + 1] == part[1]);
        assert(part[0] == v[0].id && part[1] == v[0].data.len());
        assert(all.len() == n + two_byte_elements(rest).len());
        assert(s.subrange(cur + n, cur + n + two_byte_elements(rest).len()) =~= part.subrange(
            n,
            all.len() as int,
        ));
        assert(part.subrange(n, all.len() as int) =~= two_byte_elements(rest));
        assert forall|i: int| 0 <= i < rest.len() implies 1 <= (#[trigger] rest[i]).id
            && rest[i].data.len() <= 255 by {
            assert(rest[i] == v[i + 1]);
        }
        lemma_two_byte_walk(s, cur + n, end, rest);
    }
}

/// The packet has a header extension of a profile, which starts behind the
/// contributing sources and lies within the packet.
pub open spec fn has_extension_of(pkt: Seq<u8>, profile: int) -> bool {
    let at = 12 + 4 * (pkt[0] % 16);
    &&& pkt[0] / 16 % 2 == 1
    &&& pkt.len() >= at + 4
    &&& half_at(pkt, at) == profile
    &&& pkt.len() >= at + 4 + 4 * half_at(pkt, at + 2)
}

/// A packet whose extension holds elements, with one-byte or two-byte headers, and
/// null bytes up to its end, or one of another profile, has a header that ends with
/// it. It is encrypted and decrypted.
pub proof fn lemma_extended_packets_pass(pkt: Seq<u8>, v: Seq<Element>, log: Seq<(u8, Seq<u8>)>)
    requires
        ({
            let at = 12 + 4 * (pkt[0] % 16);
            let end = at + 4 + 4 * half_at(pkt, at + 2);
            let (one, two) = (one_byte_elements(v), two_byte_elements(v));
            ||| has_extension_of(pkt, 0xBEDE) && fit_one_byte(v) && at + 4 + one.len() <= end
                && pkt.subrange(at + 4, at + 4 + one.len()) == one && is_filled(
                pkt,
                at + 4 + one.len(),
                end,
            )
            ||| has_extension_of(pkt, 0x1000) && fit_two_byte(v) && at + 4 + two.len() <= end
                && pkt.subrange(at + 4, at + 4 + two.len()) == two && is_filled(
                pkt,
                at + 4 + two.len(),
                end,
            )
            ||| has_extension_of(pkt, half_at(pkt, at)) && half_at(pkt, at) != 0xBEDE && half_at(
                pkt,
                at,
            ) != 0x1000
        }),
    ensures
        ({
            let at = 12 + 4 * (pkt[0] % 16);
            header_size(pkt) == Some(at + 4 + 4 * half_at(pkt, at + 2))
        }),
        has_whole_header(pkt) && is_sealable(pkt),
        sealed_rtp(log, pkt) == encrypted_rtp(log, pkt),
        opened_rtp(log, pkt) == decrypted_rtp(log, pkt),
{
    let at = 12 + 4 * (pkt[0] % 16);
    let end = at + 4 + 4 * half_at(pkt, at + 2);
    assert(be16(pkt, at) == half_at(pkt, at) && be16(pkt, at + 2) == half_at(pkt, at + 2));
    if half_at(pkt, at) == 0xBEDE {
        lemma_one_byte_walk(pkt, at + 4, end, v);
        lemma_fill_one(pkt, at + 4 + one_byte_elements(v).len(), end);
    } else if half_at(pkt, at) == 0x1000 {
        lemma_two_byte_walk(pkt, at + 4, end, v);
        lemma_fill_one(pkt, at + 4 + two_byte_elements(v).len(), end);
    }
}

/// A packet with an element that runs past its end, behind others that do not, is
/// handed to no context.
pub proof fn lemma_overlong_element_is_refused(
    pkt: Seq<u8>,
    v: Seq<Element>,
    log: Seq<(u8, Seq<u8>)>,
)
    requires
        ({
            let at = 12 + 4 * (pkt[0] % 16);
            let end = at + 4 + 4 * half_at(pkt, at + 2);
            let cur = at + 4 + one_byte_elements(v).len();
            &&& has_extension_of(pkt, 0xBEDE)
            &&& fit_one_byte(v)
            &&& cur < end
            &&& pkt.subrange(at + 4, cur) == one_byte_elements(v)
            &&& 1 <= pkt[cur] / 16 <= 14
            &&& cur + 1 + (pkt[cur] % 16 + 1) > pkt.len()
        }),
    ensures
        opened_rtp(log, pkt) is None && sealed_rtp(log, pkt) is None,
        log_after_rtp(log, pkt) == log,
{
    let at = 12 + 4 * (pkt[0] % 16);
    let end = at + 4 + 4 * half_at(pkt, at + 2);
    assert(be16(pkt, at) == half_at(pkt, at) && be16(pkt, at + 2) == half_at(pkt, at + 2));
    lemma_one_byte_walk(pkt, at + 4, end, v);
}

/// An SRTCP packet has a header of eight bytes, a word with its index, and a tag of
/// sixteen bytes under an AEAD profile and of ten under any other: a shorter one is
/// not handed to a context. It is marked as encrypted by the highest bit of that
/// word, which is the last under an AEAD profile and before the tag under any
/// other. On a relay leg one that is not marked is not opened.
pub proof fn lemma_srtcp_layout(
    pkt: Seq<u8>,
    profile: ProtectionProfile,
    log: Seq<(u8, Seq<u8>)>,
    gate: Gate,
    ssrc: u32,
)
    ensures
        ({
            let aead = profile is AeadAes128Gcm || profile is AeadAes256Gcm;
            let least: int = if aead {
                28
            } else {
                22
            };
            let at: int = if aead {
                pkt.len() - 4
            } else {
                pkt.len() - 14
            };
            &&& pkt.len() >= least ==> opened_rtcp(log, pkt, Some(profile)) == decrypted_rtcp(
                log,
                pkt,
            )
            &&& pkt.len() < least ==> opened_rtcp(log, pkt, Some(profile)) is None
            &&& opened_rtcp(log, pkt, None) is None
            &&& is_marked(pkt, Some(profile)) == (pkt.len() >= least && pkt[at] / 128 == 1)
            &&& pkt.len() < least || pkt[at] / 128 == 0 ==> gate.opened(
                log,
                ssrc,
                pkt,
                Protected::Rtcp(Some(profile)),
            ) is None
        }),
{
}

} // verus!
