//! STUN on the wire (RFC 5389): where the attributes of a message stand, and
//! which requests are answered, by how they are laid out.
use vstd::prelude::*;

use crate::crypto::{crc32_of, hmac_sha1_of};
use crate::endpoint::Endpoint;
use crate::rtcp_laws::{half_at, word_at};
use crate::stun::{
    attribute_holds, attributes, attributes_from, binding_response, class_of, has_integrity,
    integrity_input, is_answerable, is_nomination, is_stun_message, mapped_address, method_of,
    nominated_before, response_to_check, response_to_sign, txid_of,
};
use crate::wire::{be16, be32, bytes16, bytes32};

verus! {

broadcast use crate::wire::lemma_bytes32_len;

/// An attribute: its type and its value.
pub struct Attr {
    pub kind: u16,
    pub value: Seq<u8>,
}

/// An attribute on the wire: its type, the length of its value, the value, and
/// null bytes up to a multiple of four.
pub open spec fn attr_bytes(a: Attr) -> Seq<u8> {
    bytes16(a.kind) + bytes16(a.value.len() as u16) + a.value + Seq::new(
        ((a.value.len() + 3) / 4 * 4 - a.value.len()) as nat,
        |i: int| 0u8,
    )
}

/// Attributes one behind the other.
pub open spec fn attrs_bytes(attrs: Seq<Attr>) -> Seq<u8>
    decreases attrs.len(),
{
    if attrs.len() == 0 {
        Seq::empty()
    } else {
        attr_bytes(attrs[0]) + attrs_bytes(attrs.drop_first())
    }
}

/// Where the attributes stand, the first of them at `off`.
pub open spec fn attr_offsets(attrs: Seq<Attr>, off: int) -> Seq<int>
    decreases attrs.len(),
{
    if attrs.len() == 0 {
        Seq::empty()
    } else {
        seq![off] + attr_offsets(attrs.drop_first(), off + 4 + (attrs[0].value.len() + 3) / 4 * 4)
    }
}

/// The header of a message with `len` bytes of attributes.
pub open spec fn message_header(kind: u16, len: int, txid: Seq<u8>) -> Seq<u8> {
    bytes16(kind) + bytes16(len as u16) + seq![0x21u8, 0x12u8, 0xA4u8, 0x42u8] + txid
}

/// Every value has a length that its field can say.
pub open spec fn are_sized(attrs: Seq<Attr>) -> bool {
    forall|i: int| 0 <= i < attrs.len() ==> (#[trigger] attrs[i]).value.len() <= 0xFFFF
}

proof fn lemma_attr_bytes(a: Attr)
    requires
        a.value.len() <= 0xFFFF,
    ensures
        attr_bytes(a).len() == 4 + (a.value.len() + 3) / 4 * 4,
        be16(attr_bytes(a), 0) == a.kind,
        be16(attr_bytes(a), 2) == a.value.len(),
        attr_bytes(a).subrange(4, 4 + a.value.len() as int) == a.value,
{
    let b = attr_bytes(a);
    assert(b.subrange(4, 4 + a.value.len() as int) =~= a.value);
}

/// A message whose bytes from `off` on begin with these attributes has just them
/// at their places, and then what follows them.
proof fn lemma_offsets_from(s: Seq<u8>, total: int, off: int, attrs: Seq<Attr>)
    requires
        are_sized(attrs),
        0 <= off,
        off + attrs_bytes(attrs).len() <= total <= s.len(),
        s.subrange(off, off + attrs_bytes(attrs).len()) == attrs_bytes(attrs),
    ensures
        attributes_from(s, total, off) == attr_offsets(attrs, off) + attributes_from(
            s,
            total,
            off + attrs_bytes(attrs).len(),
        ),
        attr_offsets(attrs, off).len() == attrs.len(),
        forall|i: int|
            0 <= i < attrs.len() ==> {
                let at = #[trigger] attr_offsets(attrs, off)[i];
                &&& off <= at
                &&& at + 4 + (attrs[i].value.len() + 3) / 4 * 4 <= off + attrs_bytes(attrs).len()
                &&& be16(s, at) == attrs[i].kind
                &&& be16(s, at + 2) == attrs[i].value.len()
                &&& s.subrange(at + 4, at + 4 + attrs[i].value.len()) == attrs[i].value
            },
    decreases attrs.len(),
{
    let all = attrs_bytes(attrs);
    if attrs.len() == 0 {
        assert(attr_offsets(attrs, off) + attributes_from(s, total, off) =~= attributes_from(
            s,
            total,
            off,
        ));
    } else {
        let a = attrs[0];
        let rest = attrs.drop_first();
        let head = attr_bytes(a);
        assert(a.value.len() <= 0xFFFF);
        lemma_attr_bytes(a);
        let next = off + head.len();
        let part = s.subrange(off, off + all.len());
        assert forall|i: int| 0 <= i < head.len() implies s[off + i] == #[trigger] head[i] by {
            assert(part[i] == head[i]);
        }
        assert(s[off + 0] == head[0] && s[off + 1] == head[1]);
        assert(s[off + 2] == head[2] && s[off + 3] == head[3]);
        assert(be16(s, off) == a.kind);
        assert(be16(s, off + 2) == a.value.len());
        assert(s.subrange(off + 4, off + 4 + a.value.len()) =~= head.subrange(
            4,
            4 + a.value.len() as int,
        ));
        assert(s.subrange(next, next + attrs_bytes(rest).len()) =~= part.subrange(
            head.len() as int,
            all.len() as int,
        ));
        assert(part.subrange(head.len() as int, all.len() as int) =~= attrs_bytes(rest));
        assert forall|i: int| 0 <= i < rest.len() implies (#[trigger] rest[i]).value.len()
            <= 0xFFFF by {
            assert(rest[i] == attrs[i + 1]);
        }
        lemma_offsets_from(s, total, next, rest);
        let tail = attributes_from(s, total, off + all.len());
        assert(attributes_from(s, total, off) == seq![off] + attributes_from(s, total, next));
        assert(seq![off] + (attr_offsets(rest, next) + tail) =~= attr_offsets(attrs, off) + tail);
        let offs = attr_offsets(attrs, off);
        assert forall|i: int| 0 <= i < attrs.len() implies {
            let at = #[trigger] offs[i];
            &&& off <= at
            &&& at + 4 + (attrs[i].value.len() + 3) / 4 * 4 <= off + all.len()
            &&& be16(s, at) == attrs[i].kind
            &&& be16(s, at + 2) == attrs[i].value.len()
            &&& s.subrange(at + 4, at + 4 + attrs[i].value.len()) == attrs[i].value
        } by {
            if i > 0 {
                assert(offs[i] == attr_offsets(rest, next)[i - 1]);
                assert(attrs[i] == rest[i - 1]);
            }
        }
    }
}

/// A message that is laid out as a list of attributes, each filled up to a word,
/// has exactly those attributes, each behind the one before it: the next stands
/// four bytes and the value's length, rounded up to a multiple of four, on.
pub proof fn lemma_laid_out_attributes(kind: u16, txid: Seq<u8>, attrs: Seq<Attr>)
    requires
        txid.len() == 12,
        are_sized(attrs),
        attrs_bytes(attrs).len() <= 0xFFFF,
    ensures
        ({
            let s = message_header(kind, attrs_bytes(attrs).len() as int, txid) + attrs_bytes(
                attrs,
            );
            let offs = attributes(s);
            &&& offs.len() == attrs.len()
            &&& forall|i: int|
                0 <= i < attrs.len() ==> {
                    let at = #[trigger] offs[i];
                    &&& half_at(s, at) == attrs[i].kind
                    &&& half_at(s, at + 2) == attrs[i].value.len()
                    &&& s.subrange(at + 4, at + 4 + attrs[i].value.len()) == attrs[i].value
                    &&& i == 0 ==> at == 20
                    &&& i + 1 < attrs.len() ==> offs[i + 1] == at + 4 + (attrs[i].value.len() + 3)
                        / 4 * 4
                }
        }),
{
    let body = attrs_bytes(attrs);
    let s = message_header(kind, body.len() as int, txid) + body;
    assert(s.subrange(20, 20 + body.len() as int) =~= body);
    assert(be16(s, 2) == body.len());
    lemma_offsets_from(s, 20 + body.len() as int, 20, attrs);
    let n = body.len() as int;
    assert(attributes_from(s, 20 + n, 20 + n) =~= Seq::<int>::empty());
    assert(attributes(s) =~= attr_offsets(attrs, 20));
    lemma_offset_steps(attrs, 20);
}

proof fn lemma_offset_steps(attrs: Seq<Attr>, off: int)
    ensures
        attr_offsets(attrs, off).len() == attrs.len(),
        attrs.len() > 0 ==> attr_offsets(attrs, off)[0] == off,
        forall|i: int|
            0 <= i < attrs.len() - 1 ==> attr_offsets(attrs, off)[i + 1] == #[trigger] attr_offsets(
                attrs,
                off,
            )[i] + 4 + (attrs[i].value.len() + 3) / 4 * 4,
    decreases attrs.len(),
{
    if attrs.len() > 0 {
        let rest = attrs.drop_first();
        let next = off + 4 + (attrs[0].value.len() + 3) / 4 * 4;
        lemma_offset_steps(rest, next);
        let offs = attr_offsets(attrs, off);
        assert forall|i: int| 0 <= i < attrs.len() - 1 implies offs[i + 1] == #[trigger] offs[i] + 4
            + (attrs[i].value.len() + 3) / 4 * 4 by {
            assert(offs[i + 1] == attr_offsets(rest, next)[i]);
            if i > 0 {
                assert(offs[i] == attr_offsets(rest, next)[i - 1]);
                assert(attrs[i] == rest[i - 1]);
                assert(attr_offsets(rest, next)[(i - 1) + 1] == attr_offsets(rest, next)[i - 1] + 4
                    + (rest[i - 1].value.len() + 3) / 4 * 4);
            }
        }
    }
}

/// A Binding Request as an ICE agent makes it: the attributes, then the
/// MESSAGE-INTEGRITY of all before it under a header whose length ends with it,
/// then the FINGERPRINT of all before that.
pub open spec fn signed_request(txid: Seq<u8>, attrs: Seq<Attr>, key: Seq<u8>) -> Seq<u8> {
    let body = attrs_bytes(attrs);
    let digest = hmac_sha1_of(key, message_header(1, body.len() as int + 24, txid) + body)@;
    let signed = message_header(1, body.len() as int + 32, txid) + body + bytes16(8) + bytes16(20)
        + digest;
    signed + bytes16(0x8028) + bytes16(4) + bytes32(crc32_of(signed) ^ 0x5354_554E)
}

/// A Binding Request with any attributes of any length, signed with the key and
/// with its fingerprint, is answered, also where authentication is required; it
/// nominates its pair exactly where a USE-CANDIDATE is among the attributes.
#[verifier::rlimit(100)]
pub proof fn lemma_signed_request_is_answered(txid: Seq<u8>, attrs: Seq<Attr>, key: Seq<u8>)
    requires
        txid.len() == 12,
        key.len() > 0,
        are_sized(attrs),
        attrs_bytes(attrs).len() + 32 <= 0xFFFF,
        forall|i: int|
            0 <= i < attrs.len() ==> (#[trigger] attrs[i]).kind != 8 && attrs[i].kind != 0x8028,
    ensures
        is_answerable(signed_request(txid, attrs, key), key, true),
        is_answerable(signed_request(txid, attrs, key), key, false),
        txid_of(signed_request(txid, attrs, key)) == txid,
        is_nomination(signed_request(txid, attrs, key)) == exists|i: int|
            0 <= i < attrs.len() && (#[trigger] attrs[i]).kind == 0x0025,
{
    let body = attrs_bytes(attrs);
    let n = body.len() as int;
    let input = message_header(1, n + 24, txid) + body;
    let digest = hmac_sha1_of(key, input)@;
    let signed = message_header(1, n + 32, txid) + body + bytes16(8) + bytes16(20) + digest;
    let crc = crc32_of(signed) ^ 0x5354_554E;
    let s = signed_request(txid, attrs, key);
    assert(digest.len() == 20);
    assert(signed.len() == 44 + n);
    assert(s.len() == 52 + n);
    assert(s.subrange(4, 8) =~= seq![0x21u8, 0x12u8, 0xA4u8, 0x42u8]);
    assert(s[4] == 0x21 && s[5] == 0x12 && s[6] == 0xA4 && s[7] == 0x42);
    assert(be32(s, 4) == 0x2112_A442) by {
        reveal(be32);
    }
    assert(be16(s, 0) == 1);
    assert(be16(s, 2) == n + 32);
    assert(txid_of(s) =~= txid);
    assert(is_stun_message(s));
    assert(s.subrange(20, 20 + n) =~= body);
    lemma_offsets_from(s, 52 + n, 20, attrs);
    assert(be16(s, 20 + n) == 8);
    assert(be16(s, 22 + n) == 20);
    assert(be16(s, 44 + n) == 0x8028);
    assert(be16(s, 46 + n) == 4);
    reveal_with_fuel(attributes_from, 3);
    assert(attributes_from(s, 52 + n, 20 + n) =~= seq![20 + n, 44 + n]);
    let first = attr_offsets(attrs, 20);
    let offs = attributes(s);
    let m = attrs.len() as int;
    assert(offs =~= first + seq![20 + n, 44 + n]);
    assert(integrity_input(s, 20 + n) =~= input);
    assert(s.subrange(24 + n, 44 + n) =~= digest);
    assert(s.take(44 + n) =~= signed);
    assert(s.subrange(48 + n, 52 + n) =~= bytes32(crc));
    crate::wire::lemma_be32_of_bytes32(s, 48 + n, crc);
    assert forall|i: int| 0 <= i < offs.len() implies attribute_holds(
        s,
        #[trigger] offs[i],
        key,
    ) by {
        if i < m {
            assert(offs[i] == first[i]);
            assert(attrs[i].kind != 8 && attrs[i].kind != 0x8028);
        } else if i == m {
            assert(offs[i] == 20 + n);
        } else {
            assert(offs[i] == 44 + n);
        }
    }
    assert(offs[m] == 20 + n);
    assert(has_integrity(s, offs));
    assert forall|i: int| 0 <= i < m implies be16(s, #[trigger] offs[i]) == attrs[i].kind by {
        assert(offs[i] == first[i]);
    }
    assert forall|i: int| 0 <= i < m implies be16(s, #[trigger] offs[i]) != 8 by {
        assert(attrs[i].kind != 8);
    }
    let marked = exists|i: int| 0 <= i < attrs.len() && (#[trigger] attrs[i]).kind == 0x0025;
    if marked {
        let i = choose|i: int| 0 <= i < attrs.len() && (#[trigger] attrs[i]).kind == 0x0025;
        assert(be16(s, offs[i]) == 0x0025);
        assert(nominated_before(s, offs, m));
    }
    if is_nomination(s) {
        let k = choose|k: int| nominated_before(s, offs, k);
        let j = choose|j: int| 0 <= j < k && be16(s, #[trigger] offs[j]) == 0x0025;
        assert(k == m) by {
            if k < m {
                assert(be16(s, offs[k]) != 8);
            } else if k > m {
                assert(be16(s, offs[m]) != 8);
            }
        }
        assert(attrs[j].kind == 0x0025);
    }
}

/// Without a signature, a request whose attributes are laid out is answered only
/// where authentication is not required, and nominates nothing; with no key it is
/// not answered at all.
pub proof fn lemma_bare_request(txid: Seq<u8>, attrs: Seq<Attr>, key: Seq<u8>)
    requires
        txid.len() == 12,
        are_sized(attrs),
        attrs_bytes(attrs).len() <= 0xFFFF,
        forall|i: int|
            0 <= i < attrs.len() ==> (#[trigger] attrs[i]).kind != 8 && attrs[i].kind != 0x8028,
    ensures
        ({
            let s = message_header(1, attrs_bytes(attrs).len() as int, txid) + attrs_bytes(attrs);
            &&& is_answerable(s, key, false) == (key.len() > 0)
            &&& !is_answerable(s, key, true)
            &&& !is_nomination(s)
        }),
{
    let body = attrs_bytes(attrs);
    let n = body.len() as int;
    let s = message_header(1, n, txid) + body;
    assert(s[4] == 0x21 && s[5] == 0x12 && s[6] == 0xA4 && s[7] == 0x42);
    assert(be32(s, 4) == 0x2112_A442) by {
        reveal(be32);
    }
    assert(be16(s, 0) == 1);
    assert(be16(s, 2) == n);
    assert(s.subrange(20, 20 + n) =~= body);
    lemma_offsets_from(s, 20 + n, 20, attrs);
    assert(attributes_from(s, 20 + n, 20 + n) =~= Seq::<int>::empty());
    let offs = attributes(s);
    assert(offs =~= attr_offsets(attrs, 20));
    assert forall|i: int| 0 <= i < offs.len() implies attribute_holds(s, #[trigger] offs[i], key)
        && be16(s, offs[i]) != 8 by {
        assert(attrs[i].kind != 8 && attrs[i].kind != 0x8028);
    }
}

/// The method of a message type is its bits 0 to 3, 5 to 7 and 9 to 13, and its
/// class bits 4 and 8: every pair of them is that of one type.
pub proof fn lemma_message_types(mt: u16, low: int, mid: int, high: int, c0: int, c1: int)
    requires
        0 <= low < 16,
        0 <= mid < 8,
        0 <= high < 32,
        0 <= c0 < 2,
        0 <= c1 < 2,
        mt == low + 16 * c0 + 32 * mid + 256 * c1 + 512 * high,
    ensures
        method_of(mt) == low + 16 * mid + 128 * high,
        class_of(mt) == c0 + 2 * c1,
{
    assert(mt / 512 == high);
    assert(mt / 256 == c1 + 2 * high);
    assert(mt / 32 == mid + 8 * (c1 + 2 * high));
    assert(mt / 16 == c0 + 2 * (mid + 8 * (c1 + 2 * high)));
    assert(mt % 16 == low);
}

/// What makes a STUN message, by its bytes: the two highest bits are clear, the
/// length is that of all behind the header, and the cookie is there.
pub proof fn lemma_message_layout(s: Seq<u8>)
    ensures
        is_stun_message(s) == (s.len() >= 20 && s[0] / 64 == 0 && half_at(s, 2) == s.len() - 20
            && s[4] == 0x21 && s[5] == 0x12 && s[6] == 0xA4 && s[7] == 0x42),
{
    reveal(be32);
}

/// A Binding Response byte by byte: type 0x0101, the length of all behind the
/// header, the cookie, the request's transaction ID; the family, the port and the
/// address that the request came from, combined with the cookie and the
/// transaction ID; the MESSAGE-INTEGRITY of all before it, under a header whose
/// length ends with it; and the FINGERPRINT of all before that.
pub proof fn lemma_response_layout(e: Endpoint, txid: Seq<u8>, key: Seq<u8>)
    requires
        txid.len() == 12,
    ensures
        ({
            let s = binding_response(e, txid, key);
            let n: int = if e is V4 {
                4
            } else {
                16
            };
            let mask = seq![0x21u8, 0x12u8, 0xA4u8, 0x42u8] + txid;
            let body = s.subrange(20, 28 + n);
            &&& s.len() == 60 + n
            &&& half_at(s, 0) == 0x0101
            &&& half_at(s, 2) == 40 + n
            &&& s.subrange(4, 20) == mask
            &&& half_at(s, 20) == 0x0020
            &&& half_at(s, 22) == 4 + n
            &&& s[24] == 0
            &&& s[25] == if e is V4 {
                1u8
            } else {
                2u8
            }
            &&& half_at(s, 26) == e.spec_port() ^ 0x2112
            &&& forall|i: int|
                0 <= i < n ==> s[28 + i] == #[trigger] e.octets()[i] ^ mask[i]
            &&& half_at(s, 28 + n) == 8
            &&& half_at(s, 30 + n) == 20
            &&& s.subrange(32 + n, 52 + n) == hmac_sha1_of(
                key,
                message_header(0x0101, 32 + n, txid) + body,
            )@
            &&& half_at(s, 52 + n) == 0x8028
            &&& half_at(s, 54 + n) == 4
            &&& word_at(s, 56 + n) == crc32_of(s.take(52 + n)) ^ 0x5354_554E
        }),
{
    let s = binding_response(e, txid, key);
    let n = e.octets().len() as int;
    let mask = seq![0x21u8, 0x12u8, 0xA4u8, 0x42u8] + txid;
    let mapped = mapped_address(e, txid);
    let cookie = seq![0x21u8, 0x12u8, 0xA4u8, 0x42u8];
    assert(bytes32(0x2112_A442) =~= cookie) by {
        reveal(bytes32);
    }
    assert(crate::stun::xor_key(txid) =~= mask);
    assert(mapped.len() == 8 + n);
    let sign = response_to_sign(e, txid);
    let body = response_to_check(e, txid, key);
    assert(body.len() == 52 + n);
    assert(s.len() == 60 + n);
    assert(s.subrange(4, 20) =~= mask);
    assert(s.subrange(20, 28 + n) =~= mapped);
    assert forall|i: int| 0 <= i < 8 + n implies s[20 + i] == #[trigger] mapped[i] by {
        assert(s.subrange(20, 28 + n)[i] == mapped[i]);
    }
    assert(s[20] == mapped[0] && s[21] == mapped[1] && s[22] == mapped[2]);
    assert(s[23] == mapped[3] && s[24] == mapped[4] && s[25] == mapped[5]);
    assert(s[26] == mapped[6] && s[27] == mapped[7]);
    assert forall|i: int| 0 <= i < n implies s[28 + i] == #[trigger] e.octets()[i] ^ mask[i] by {
        assert(s[20 + (8 + i)] == mapped[8 + i]);
    }
    assert(sign =~= message_header(0x0101, 32 + n, txid) + mapped);
    assert(s.subrange(32 + n, 52 + n) =~= hmac_sha1_of(key, sign)@);
    assert(s.take(52 + n) =~= body);
    let crc = crc32_of(body) ^ 0x5354_554E;
    assert(s.subrange(56 + n, 60 + n) =~= bytes32(crc));
    crate::wire::lemma_be32_of_bytes32(s, 56 + n, crc);
    reveal(be32);
}

proof fn lemma_offset_of(attrs: Seq<Attr>, off: int, i: int)
    requires
        are_sized(attrs),
        0 <= i < attrs.len(),
    ensures
        attr_offsets(attrs, off).len() == attrs.len(),
        attr_offsets(attrs, off)[i] == off + attrs_bytes(attrs.take(i)).len(),
        attrs_bytes(attrs.take(i)).len() < attrs_bytes(attrs).len(),
        attrs_bytes(attrs.take(i)) == attrs_bytes(attrs).take(
            attrs_bytes(attrs.take(i)).len() as int,
        ),
    decreases attrs.len(),
{
    lemma_offset_steps(attrs, off);
    let rest = attrs.drop_first();
    let head = attr_bytes(attrs[0]);
    assert(attrs[0].value.len() <= 0xFFFF);
    lemma_attr_bytes(attrs[0]);
    if i == 0 {
        assert(attrs.take(0) =~= Seq::<Attr>::empty());
        assert(attrs_bytes(attrs.take(0)) =~= attrs_bytes(attrs).take(0));
    } else {
        assert forall|j: int| 0 <= j < rest.len() implies (#[trigger] rest[j]).value.len()
            <= 0xFFFF by {
            assert(rest[j] == attrs[j + 1]);
        }
        lemma_offset_of(rest, off + head.len(), i - 1);
        assert(attrs.take(i).drop_first() =~= rest.take(i - 1));
        assert(attrs.take(i)[0] == attrs[0]);
        assert(attrs_bytes(attrs.take(i)) =~= attrs_bytes(attrs).take(
            attrs_bytes(attrs.take(i)).len() as int,
        ));
    }
}

/// The places of the attributes of a laid out request.
proof fn lemma_request_places(txid: Seq<u8>, attrs: Seq<Attr>)
    requires
        txid.len() == 12,
        are_sized(attrs),
        attrs_bytes(attrs).len() <= 0xFFFF,
    ensures
        ({
            let s = message_header(1, attrs_bytes(attrs).len() as int, txid) + attrs_bytes(attrs);
            let offs = attributes(s);
            &&& offs.len() == attrs.len()
            &&& forall|i: int|
                0 <= i < attrs.len() ==> {
                    let at = #[trigger] offs[i];
                    let before = attrs_bytes(attrs.take(i));
                    &&& at == 20 + before.len()
                    &&& at + 4 + attrs[i].value.len() <= s.len()
                    &&& be16(s, at) == attrs[i].kind
                    &&& be16(s, at + 2) == attrs[i].value.len()
                    &&& s.subrange(at + 4, at + 4 + attrs[i].value.len()) == attrs[i].value
                    &&& s.take(at) == message_header(
                        1,
                        attrs_bytes(attrs).len() as int,
                        txid,
                    ) + before
                }
        }),
{
    let body = attrs_bytes(attrs);
    let n = body.len() as int;
    let s = message_header(1, n, txid) + body;
    assert(be16(s, 2) == n);
    assert(s.subrange(20, 20 + n) =~= body);
    lemma_offsets_from(s, 20 + n, 20, attrs);
    assert(attributes_from(s, 20 + n, 20 + n) =~= Seq::<int>::empty());
    let offs = attributes(s);
    assert(offs =~= attr_offsets(attrs, 20));
    assert forall|i: int| 0 <= i < attrs.len() implies {
        let at = #[trigger] offs[i];
        let before = attrs_bytes(attrs.take(i));
        &&& at == 20 + before.len()
        &&& at + 4 + attrs[i].value.len() <= s.len()
        &&& be16(s, at) == attrs[i].kind
        &&& be16(s, at + 2) == attrs[i].value.len()
        &&& s.subrange(at + 4, at + 4 + attrs[i].value.len()) == attrs[i].value
        &&& s.take(at) == message_header(1, n, txid) + before
    } by {
        lemma_offset_of(attrs, 20, i);
        let before = attrs_bytes(attrs.take(i));
        assert(s.take(20 + before.len() as int) =~= message_header(1, n, txid) + body.take(
            before.len() as int,
        ));
    }
}

/// A request with a MESSAGE-INTEGRITY that is not that of all before it under the
/// key, with a header whose length ends with it, is not answered, whether or not
/// authentication is required.
pub proof fn lemma_wrong_signature_is_refused(
    txid: Seq<u8>,
    attrs: Seq<Attr>,
    key: Seq<u8>,
    i: int,
    required: bool,
)
    requires
        txid.len() == 12,
        are_sized(attrs),
        attrs_bytes(attrs).len() + 24 <= 0xFFFF,
        0 <= i < attrs.len(),
        attrs[i].kind == 8,
        attrs[i].value != hmac_sha1_of(
            key,
            message_header(1, attrs_bytes(attrs.take(i)).len() as int + 24, txid) + attrs_bytes(
                attrs.take(i),
            ),
        )@,
    ensures
        !is_answerable(
            message_header(1, attrs_bytes(attrs).len() as int, txid) + attrs_bytes(attrs),
            key,
            required,
        ),
{
    let body = attrs_bytes(attrs);
    let s = message_header(1, body.len() as int, txid) + body;
    lemma_request_places(txid, attrs);
    let at = attributes(s)[i];
    let before = attrs_bytes(attrs.take(i));
    let input = message_header(1, before.len() as int + 24, txid) + before;
    assert(integrity_input(s, at) =~= input) by {
        let t = s.take(at);
        assert forall|j: int| 0 <= j < at implies integrity_input(s, at)[j]
            == #[trigger] input[j] by {
            assert(t[j] == (message_header(1, body.len() as int, txid) + before)[j]);
        }
    }
    if attribute_holds(s, at, key) {
        assert(attrs[i].value.len() == 20);
    }
    assert(!attribute_holds(s, at, key));
    assert(attributes(s)[i] == at);
}

/// A request with a FINGERPRINT that is not that of all before it is not answered.
pub proof fn lemma_wrong_fingerprint_is_refused(
    txid: Seq<u8>,
    attrs: Seq<Attr>,
    key: Seq<u8>,
    i: int,
    required: bool,
)
    requires
        txid.len() == 12,
        are_sized(attrs),
        attrs_bytes(attrs).len() <= 0xFFFF,
        0 <= i < attrs.len(),
        attrs[i].kind == 0x8028,
        attrs[i].value.len() == 4,
        word_at(attrs[i].value, 0) != crc32_of(
            message_header(1, attrs_bytes(attrs).len() as int, txid) + attrs_bytes(attrs.take(i)),
        ) ^ 0x5354_554E,
    ensures
        !is_answerable(
            message_header(1, attrs_bytes(attrs).len() as int, txid) + attrs_bytes(attrs),
            key,
            required,
        ),
{
    let body = attrs_bytes(attrs);
    let s = message_header(1, body.len() as int, txid) + body;
    lemma_request_places(txid, attrs);
    let at = attributes(s)[i];
    let v = attrs[i].value;
    assert(s.subrange(at + 4, at + 8) == v);
    assert(s[at + 4] == v[0] && s[at + 5] == v[1] && s[at + 6] == v[2] && s[at + 7] == v[3]) by {
        assert(s.subrange(at + 4, at + 8)[0] == v[0]);
        assert(s.subrange(at + 4, at + 8)[1] == v[1]);
        assert(s.subrange(at + 4, at + 8)[2] == v[2]);
        assert(s.subrange(at + 4, at + 8)[3] == v[3]);
    }
    reveal(be32);
    assert(!attribute_holds(s, at, key));
}

/// A request nominates its pair exactly where a USE-CANDIDATE stands before the
/// first MESSAGE-INTEGRITY: one behind it, or without it, is not covered.
pub proof fn lemma_nomination_is_covered(txid: Seq<u8>, attrs: Seq<Attr>)
    requires
        txid.len() == 12,
        are_sized(attrs),
        attrs_bytes(attrs).len() <= 0xFFFF,
    ensures
        is_nomination(
            message_header(1, attrs_bytes(attrs).len() as int, txid) + attrs_bytes(attrs),
        ) == exists|i: int, j: int|
            0 <= i < j < attrs.len() && (#[trigger] attrs[i]).kind == 0x0025 && (
            #[trigger] attrs[j]).kind == 8 && forall|k: int|
                0 <= k < j ==> (#[trigger] attrs[k]).kind != 8,
{
    let body = attrs_bytes(attrs);
    let s = message_header(1, body.len() as int, txid) + body;
    lemma_request_places(txid, attrs);
    let offs = attributes(s);
    assert(be16(s, 2) == body.len());
    assert forall|k: int| 0 <= k < attrs.len() implies be16(s, #[trigger] offs[k])
        == attrs[k].kind by {}
    if is_nomination(s) {
        let j = choose|j: int| nominated_before(s, offs, j);
        let i = choose|i: int| 0 <= i < j && be16(s, #[trigger] offs[i]) == 0x0025;
        assert(attrs[i].kind == 0x0025 && attrs[j].kind == 8);
        assert forall|k: int| 0 <= k < j implies (#[trigger] attrs[k]).kind != 8 by {
            assert(be16(s, offs[k]) != 8);
        }
    }
    if exists|i: int, j: int|
        0 <= i < j < attrs.len() && (#[trigger] attrs[i]).kind == 0x0025 && (
        #[trigger] attrs[j]).kind == 8 && forall|k: int|
            0 <= k < j ==> (#[trigger] attrs[k]).kind != 8 {
        let (i, j) = choose|i: int, j: int|
            0 <= i < j < attrs.len() && (#[trigger] attrs[i]).kind == 0x0025 && (
            #[trigger] attrs[j]).kind == 8 && forall|k: int|
                0 <= k < j ==> (#[trigger] attrs[k]).kind != 8;
        assert(be16(s, offs[i]) == 0x0025);
        assert(be16(s, offs[j]) == 8);
        assert(nominated_before(s, offs, j));
    }
}

} // verus!
