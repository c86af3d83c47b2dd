//! A minimal STUN (RFC 5389) server for the ICE path: it takes a Binding
//! Request, validates MESSAGE-INTEGRITY (HMAC-SHA1) and FINGERPRINT (CRC-32
//! XOR 0x5354554E), and answers with XOR-MAPPED-ADDRESS, MESSAGE-INTEGRITY and
//! FINGERPRINT.
use vstd::prelude::*;
use vstd::slice::slice_subrange;

use crate::crypto::{crc32, hmac_sha1};
use crate::crypto::{crc32_of, hmac_sha1_of};
use crate::endpoint::Endpoint;
use crate::wire::{be16, be32, bytes16, bytes32, overwrite};
use crate::wire::{push_u16, push_u32, read_u16, read_u32, write_u16};

verus! {

broadcast use crate::wire::lemma_bytes32_len;

pub const MAGIC_COOKIE: u32 = 0x2112_A442;

pub const FINGERPRINT_XOR: u32 = 0x5354_554E;

pub const STUN_HEADER_LEN: usize = 20;

pub const ATTR_MESSAGE_INTEGRITY: u16 = 0x0008;

pub const ATTR_XOR_MAPPED_ADDRESS: u16 = 0x0020;

pub const ATTR_USE_CANDIDATE: u16 = 0x0025;

pub const ATTR_FINGERPRINT: u16 = 0x8028;

/// The 12-bit method of a message type: bits 13..9, 7..5 and 3..0 (RFC 5389
/// section 6).
pub open spec fn method_of(mt: u16) -> int {
    (mt / 512 % 32) * 128 + (mt / 32 % 8) * 16 + mt % 16
}

/// The 2-bit class of a message type: bits 8 and 4 (RFC 5389 section 6).
pub open spec fn class_of(mt: u16) -> int {
    (mt / 256 % 2) * 2 + mt / 16 % 2
}

/// The header of a whole STUN message, in as many bytes as it declares.
pub open spec fn is_stun_message(s: Seq<u8>) -> bool {
    &&& s.len() >= STUN_HEADER_LEN
    &&& s[0] < 0x40
    &&& s.len() - STUN_HEADER_LEN == be16(s, 2)
    &&& be32(s, 4) == MAGIC_COOKIE
}

/// The length of a message by its header.
pub open spec fn declared_len(s: Seq<u8>) -> int {
    STUN_HEADER_LEN + be16(s, 2)
}

/// A length rounded up to a multiple of four.
pub open spec fn padded(len: int) -> int {
    len + (4 - len % 4) % 4
}

/// The offsets of the attributes that start at `off` or later and whose
/// four-byte headers end by `total`.
pub open spec fn attributes_from(s: Seq<u8>, total: int, off: int) -> Seq<int>
    decreases
            if off <= total {
                total - off
            } else {
                0
            },
{
    if off + 4 > total {
        Seq::empty()
    } else {
        seq![off] + attributes_from(s, total, off + 4 + padded(be16(s, off + 2) as int))
    }
}

/// The offsets of all attributes of a message.
pub open spec fn attributes(s: Seq<u8>) -> Seq<int> {
    attributes_from(s, declared_len(s), STUN_HEADER_LEN as int)
}

/// What MESSAGE-INTEGRITY at `off` is computed over: the message before it,
/// with a length field that ends at the attribute.
pub open spec fn integrity_input(s: Seq<u8>, off: int) -> Seq<u8> {
    overwrite(s, 2, bytes16((off - STUN_HEADER_LEN + 24) as u16)).take(off)
}

/// The MESSAGE-INTEGRITY attribute at `off` is the right one under `key`.
pub open spec fn integrity_holds(s: Seq<u8>, off: int, key: Seq<u8>) -> bool {
    &&& be16(s, off + 2) == 20
    &&& s.subrange(off + 4, off + 24) == hmac_sha1_of(key, integrity_input(s, off))@
}

/// The FINGERPRINT attribute at `off` has room for its value and holds the
/// checksum of all that comes before it.
pub open spec fn fingerprint_holds(s: Seq<u8>, off: int) -> bool {
    &&& off + 8 <= s.len()
    &&& be32(s, off + 4) == crc32_of(s.take(off)) ^ FINGERPRINT_XOR
}

/// The attribute at `off` lies inside the message and, where it is one that
/// is validated, is valid.
pub open spec fn attribute_holds(s: Seq<u8>, off: int, key: Seq<u8>) -> bool {
    &&& off + 4 + be16(s, off + 2) <= declared_len(s)
    &&& be16(s, off) == ATTR_MESSAGE_INTEGRITY ==> integrity_holds(s, off, key)
    &&& be16(s, off) == ATTR_FINGERPRINT ==> fingerprint_holds(s, off)
}

/// Some attribute among `offs` is a MESSAGE-INTEGRITY.
pub open spec fn has_integrity(s: Seq<u8>, offs: Seq<int>) -> bool {
    exists|i: int|
        0 <= i < offs.len() && be16(s, #[trigger] offs[i]) == ATTR_MESSAGE_INTEGRITY
}

/// The verdict on a message's attributes: `None` when there is no key or the
/// message is malformed or an attribute fails, else whether a
/// MESSAGE-INTEGRITY was there.
pub open spec fn verdict(s: Seq<u8>, key: Seq<u8>) -> Option<bool> {
    if key.len() > 0 && declared_len(s) <= s.len() && (forall|i: int|
        0 <= i < attributes(s).len() ==> attribute_holds(s, #[trigger] attributes(s)[i], key)) {
        Some(has_integrity(s, attributes(s)))
    } else {
        None
    }
}

/// The first MESSAGE-INTEGRITY is attribute `i`, and a USE-CANDIDATE comes
/// before it.
pub open spec fn nominated_before(s: Seq<u8>, offs: Seq<int>, i: int) -> bool {
    &&& 0 <= i < offs.len()
    &&& be16(s, offs[i]) == ATTR_MESSAGE_INTEGRITY
    &&& forall|j: int| 0 <= j < i ==> be16(s, #[trigger] offs[j]) != ATTR_MESSAGE_INTEGRITY
    &&& exists|j: int| 0 <= j < i && be16(s, #[trigger] offs[j]) == ATTR_USE_CANDIDATE
}

/// A USE-CANDIDATE stands inside the part of the message that its (first)
/// MESSAGE-INTEGRITY covers.
pub open spec fn is_nomination(s: Seq<u8>) -> bool {
    declared_len(s) <= s.len() && exists|i: int| nominated_before(s, attributes(s), i)
}

/// What XOR-MAPPED-ADDRESS combines an address with: the cookie and the
/// transaction ID.
pub open spec fn xor_key(txid: Seq<u8>) -> Seq<u8> {
    bytes32(MAGIC_COOKIE) + txid
}

/// The XOR-MAPPED-ADDRESS attribute for `e`.
pub open spec fn mapped_address(e: Endpoint, txid: Seq<u8>) -> Seq<u8> {
    bytes16(ATTR_XOR_MAPPED_ADDRESS) + bytes16((4 + e.octets().len()) as u16) + seq![
        0u8,
        if e is V4 { 1u8 } else { 2u8 },
    ] + bytes16(e.spec_port() ^ 0x2112) + Seq::new(
        e.octets().len(),
        |i: int| e.octets()[i] ^ xor_key(txid)[i],
    )
}

/// The header of a Binding Response with `len` bytes of attributes.
pub open spec fn response_header(len: nat, txid: Seq<u8>) -> Seq<u8> {
    bytes16(0x0101) + bytes16(len as u16) + bytes32(MAGIC_COOKIE) + txid
}

/// A Binding Response up to and with its XOR-MAPPED-ADDRESS, with the length
/// that it has while MESSAGE-INTEGRITY is the last attribute.
pub open spec fn response_to_sign(e: Endpoint, txid: Seq<u8>) -> Seq<u8> {
    response_header(mapped_address(e, txid).len() + 24, txid) + mapped_address(e, txid)
}

/// A Binding Response up to and with its MESSAGE-INTEGRITY, with its final
/// length.
pub open spec fn response_to_check(e: Endpoint, txid: Seq<u8>, key: Seq<u8>) -> Seq<u8> {
    response_header(mapped_address(e, txid).len() + 32, txid) + mapped_address(e, txid) + bytes16(
        ATTR_MESSAGE_INTEGRITY,
    ) + bytes16(20) + hmac_sha1_of(key, response_to_sign(e, txid))@
}

/// The Binding Response to a request with transaction ID `txid` from `e`,
/// signed with `key`.
pub open spec fn binding_response(e: Endpoint, txid: Seq<u8>, key: Seq<u8>) -> Seq<u8> {
    let body = response_to_check(e, txid, key);
    body + bytes16(ATTR_FINGERPRINT) + bytes16(4) + bytes32(crc32_of(body) ^ FINGERPRINT_XOR)
}

/// The length of the response to `e`.
pub open spec fn binding_response_len(e: Endpoint) -> nat {
    60 + e.octets().len()
}

/// The transaction ID of a message.
pub open spec fn txid_of(s: Seq<u8>) -> Seq<u8> {
    s.subrange(8, 20)
}

/// A Binding Request whose attributes all hold under `remote_key`, and which
/// is signed where that is required.
pub open spec fn is_answerable(s: Seq<u8>, remote_key: Seq<u8>, require_integrity: bool) -> bool {
    &&& is_stun_message(s)
    &&& method_of(be16(s, 0)) == 1
    &&& class_of(be16(s, 0)) == 0
    &&& verdict(s, remote_key) is Some
    &&& require_integrity ==> verdict(s, remote_key) == Some(true)
}

fn message_method(pk: &[u8]) -> (r: u16)
    requires
        pk@.len() >= 2,
    ensures
        r == method_of(be16(pk@, 0)),
{
    let mt: u16 = read_u16(pk, 0);
    (mt / 512 % 32) * 128 + (mt / 32 % 8) * 16 + mt % 16
}

fn message_class(pk: &[u8]) -> (r: u8)
    requires
        pk@.len() >= 2,
    ensures
        r == class_of(be16(pk@, 0)),
{
    let mt: u16 = read_u16(pk, 0);
    ((mt / 256 % 2) * 2 + mt / 16 % 2) as u8
}

/// Is this a whole STUN message?
pub fn is_stun(pk: &[u8]) -> (r: bool)
    ensures
        r == is_stun_message(pk@),
{
    if pk.len() < STUN_HEADER_LEN {
        return false;
    }
    if pk[0] >= 0x40 {
        return false;
    }
    if pk.len() - STUN_HEADER_LEN != read_u16(pk, 2) as usize {
        return false;
    }
    read_u32(pk, 4) == MAGIC_COOKIE
}

/// The 96-bit transaction ID of a message.
pub fn transaction_id(pk: &[u8]) -> (id: [u8; 12])
    requires
        pk@.len() >= STUN_HEADER_LEN,
    ensures
        id@ == txid_of(pk@),
{
    let mut id: [u8; 12] = [0u8; 12];
    let mut i: usize = 0;
    while i < 12
        invariant
            i <= 12,
            pk@.len() >= STUN_HEADER_LEN,
            forall|j: int| 0 <= j < i ==> id@[j] == pk@[8 + j],
        decreases 12 - i,
    {
        id[i] = pk[8 + i];
        i += 1;
    }
    assert(id@ =~= txid_of(pk@));
    id
}

/// Equality of two byte slices.
fn same_bytes(a: &[u8], b: &[u8]) -> (r: bool)
    ensures
        r == (a@ == b@),
{
    if a.len() != b.len() {
        return false;
    }
    let mut i: usize = 0;
    while i < a.len()
        invariant
            i <= a@.len(),
            a@.len() == b@.len(),
            forall|j: int| 0 <= j < i ==> a@[j] == b@[j],
        decreases a@.len() - i,
    {
        if a[i] != b[i] {
            return false;
        }
        i += 1;
    }
    assert(a@ =~= b@);
    true
}

/// Checks the MESSAGE-INTEGRITY at `attr_off` (RFC 5389 section 15.4). The
/// length field is changed for the digest and put back.
fn verify_integrity(pk: &mut [u8], attr_off: usize, key: &[u8]) -> (ok: bool)
    requires
        STUN_HEADER_LEN <= attr_off,
        attr_off + 24 <= old(pk)@.len(),
        attr_off + 4 <= 0xFFFF,
        be16(old(pk)@, attr_off + 2) == 20,
    ensures
        final(pk)@ == old(pk)@,
        ok == integrity_holds(old(pk)@, attr_off as int, key@),
{
    let saved_len: u16 = read_u16(pk, 2);
    write_u16(pk, 2, (attr_off - STUN_HEADER_LEN + 24) as u16);
    let computed = hmac_sha1(key, slice_subrange(pk, 0, attr_off));
    assert(pk@.subrange(0, attr_off as int) =~= integrity_input(old(pk)@, attr_off as int));
    assert(pk@.subrange(attr_off + 4, attr_off + 24) =~= old(pk)@.subrange(
        attr_off + 4,
        attr_off + 24,
    ));
    let ok = same_bytes(computed.as_slice(), slice_subrange(pk, attr_off + 4, attr_off + 24));
    write_u16(pk, 2, saved_len);
    assert(pk@ =~= old(pk)@);
    ok
}

/// Checks the FINGERPRINT at `attr_off`.
pub fn verify_fingerprint(pk: &[u8], attr_off: usize) -> (ok: bool)
    requires
        attr_off <= pk@.len(),
    ensures
        ok == fingerprint_holds(pk@, attr_off as int),
{
    if pk.len() - attr_off < 8 {
        return false;
    }
    let crc: u32 = crc32(slice_subrange(pk, 0, attr_off)) ^ FINGERPRINT_XOR;
    assert(pk@.subrange(0, attr_off as int) =~= pk@.take(attr_off as int));
    read_u32(pk, attr_off + 4) == crc
}

/// Validates every MESSAGE-INTEGRITY and FINGERPRINT present. `Some` says
/// whether a MESSAGE-INTEGRITY was there; `None` is any failure.
fn walk_attributes(pk: &mut [u8], remote_key: &[u8]) -> (r: Option<bool>)
    requires
        old(pk)@.len() >= STUN_HEADER_LEN,
    ensures
        final(pk)@ == old(pk)@,
        r == verdict(old(pk)@, remote_key@),
{
    if remote_key.is_empty() {
        return None;
    }
    let total: usize = STUN_HEADER_LEN + read_u16(pk, 2) as usize;
    if total > pk.len() {
        return None;
    }
    let mut authenticated = false;
    let mut off: usize = STUN_HEADER_LEN;
    let ghost s = pk@;
    let ghost mut done: Seq<int> = Seq::empty();
    assert(done + attributes(s) =~= attributes(s));
    while off + 4 <= total
        invariant
            pk@ == s,
            s == old(pk)@,
            total == declared_len(s),
            total <= s.len(),
            total <= STUN_HEADER_LEN + 0xFFFF,
            STUN_HEADER_LEN <= off,
            off <= total + 3,
            remote_key@.len() > 0,
            attributes(s) == done + attributes_from(s, total as int, off as int),
            forall|i: int|
                0 <= i < done.len() ==> attribute_holds(s, #[trigger] done[i], remote_key@),
            authenticated == has_integrity(s, done),
        decreases total + 3 - off,
    {
        let attr_type: u16 = read_u16(pk, off);
        let attr_len: usize = read_u16(pk, off + 2) as usize;
        let ghost here = done.len() as int;
        assert(attributes(s)[here] == off);
        if off + 4 + attr_len > total {
            assert(!attribute_holds(s, attributes(s)[here], remote_key@));
            return None;
        }
        if attr_type == ATTR_MESSAGE_INTEGRITY {
            if attr_len != 20 {
                assert(!attribute_holds(s, attributes(s)[here], remote_key@));
                return None;
            }
            if !verify_integrity(pk, off, remote_key) {
                assert(!attribute_holds(s, attributes(s)[here], remote_key@));
                return None;
            }
            authenticated = true;
        } else if attr_type == ATTR_FINGERPRINT {
            if !verify_fingerprint(pk, off) {
                assert(!attribute_holds(s, attributes(s)[here], remote_key@));
                return None;
            }
        }
        proof {
            let next = off + 4 + padded(attr_len as int);
            let grown = done.push(off as int);
            assert(done + attributes_from(s, total as int, off as int) =~= grown + attributes_from(
                s,
                total as int,
                next,
            ));
            assert(grown[here] == off);
            assert forall|i: int| 0 <= i < done.len() implies grown[i] == #[trigger] done[i] by {}
            assert(has_integrity(s, grown) == (has_integrity(s, done) || attr_type
                == ATTR_MESSAGE_INTEGRITY)) by {
                if has_integrity(s, done) {
                    let i = choose|i: int|
                        0 <= i < done.len() && be16(s, #[trigger] done[i])
                            == ATTR_MESSAGE_INTEGRITY;
                    assert(be16(s, grown[i]) == ATTR_MESSAGE_INTEGRITY);
                }
                if has_integrity(s, grown) {
                    let i = choose|i: int|
                        0 <= i < grown.len() && be16(s, #[trigger] grown[i])
                            == ATTR_MESSAGE_INTEGRITY;
                    if i < here {
                        assert(be16(s, done[i]) == ATTR_MESSAGE_INTEGRITY);
                    }
                }
            }
            done = grown;
        }
        off += 4 + attr_len + (4 - (attr_len % 4)) % 4;
    }
    assert(done + attributes_from(s, total as int, off as int) =~= done);
    Some(authenticated)
}

/// Does this request nominate its pair: does it carry USE-CANDIDATE (RFC 8445
/// section 7.1.2) inside the part that MESSAGE-INTEGRITY covers? Whether that
/// attribute verifies is not looked at here.
pub fn nominates(pk: &[u8]) -> (r: bool)
    requires
        pk@.len() >= 4,
    ensures
        r == is_nomination(pk@),
{
    let total: usize = STUN_HEADER_LEN + read_u16(pk, 2) as usize;
    if total > pk.len() {
        return false;
    }
    let ghost s = pk@;
    let ghost mut done: Seq<int> = Seq::empty();
    assert(done + attributes(s) =~= attributes(s));
    let mut use_candidate = false;
    let mut off: usize = STUN_HEADER_LEN;
    while off + 4 <= total
        invariant
            s == pk@,
            total == declared_len(s),
            total <= s.len(),
            total <= STUN_HEADER_LEN + 0xFFFF,
            STUN_HEADER_LEN <= off <= total + 4 + 0x10003,
            attributes(s) == done + attributes_from(s, total as int, off as int),
            forall|i: int|
                0 <= i < done.len() ==> be16(s, #[trigger] attributes(s)[i])
                    != ATTR_MESSAGE_INTEGRITY,
            use_candidate == exists|i: int|
                0 <= i < done.len() && be16(s, #[trigger] attributes(s)[i]) == ATTR_USE_CANDIDATE,
        decreases total + 4 + 0x10003 - off,
    {
        let attr_type: u16 = read_u16(pk, off);
        let attr_len: usize = read_u16(pk, off + 2) as usize;
        let ghost here = done.len() as int;
        assert(attributes(s)[here] == off);
        if attr_type == ATTR_USE_CANDIDATE {
            use_candidate = true;
        } else if attr_type == ATTR_MESSAGE_INTEGRITY {
            assert(use_candidate == is_nomination(s)) by {
                if use_candidate {
                    assert(nominated_before(s, attributes(s), here));
                }
                if is_nomination(s) {
                    let i = choose|i: int| nominated_before(s, attributes(s), i);
                    assert(i == here) by {
                        if here < i {
                            assert(be16(s, attributes(s)[here]) != ATTR_MESSAGE_INTEGRITY);
                        }
                    }
                }
            }
            return use_candidate;
        }
        proof {
            let next = off + 4 + padded(attr_len as int);
            let grown = done.push(off as int);
            assert(done + attributes_from(s, total as int, off as int) =~= grown + attributes_from(
                s,
                total as int,
                next,
            ));
            done = grown;
        }
        off += 4 + attr_len + (4 - (attr_len % 4)) % 4;
    }
    assert(done + attributes_from(s, total as int, off as int) =~= done);
    assert(!is_nomination(s));
    false
}

/// Builds the Binding Response to `request`.
fn response_message(request: &[u8], endpoint: Endpoint, key: &[u8]) -> (out: Vec<u8>)
    requires
        request@.len() >= STUN_HEADER_LEN,
    ensures
        out@ == binding_response(endpoint, txid_of(request@), key@),
        out@.len() == binding_response_len(endpoint),
{
    let mut out: Vec<u8> = Vec::new();
    let ghost txid = txid_of(request@);
    let addr_len: usize = match endpoint {
        Endpoint::V4 { .. } => 4,
        Endpoint::V6 { .. } => 16,
    };
    // The length while MESSAGE-INTEGRITY is the last attribute.
    push_u16(&mut out, 0x0101);
    push_u16(&mut out, (8 + addr_len + 24) as u16);
    push_u32(&mut out, MAGIC_COOKIE);
    let mut i: usize = 0;
    while i < 12
        invariant
            i <= 12,
            request@.len() >= STUN_HEADER_LEN,
            txid == txid_of(request@),
            out@ == bytes16(0x0101) + bytes16((8 + addr_len + 24) as u16) + bytes32(MAGIC_COOKIE)
                + txid.take(i as int),
        decreases 12 - i,
    {
        out.push(request[8 + i]);
        i += 1;
        assert(txid.take(i as int) =~= txid.take(i - 1).push(request@[7 + i]));
    }
    assert(txid.take(12) =~= txid);
    assert(out@ == response_header((8 + addr_len + 24) as nat, txid));
    push_u16(&mut out, ATTR_XOR_MAPPED_ADDRESS);
    push_u16(&mut out, (4 + addr_len) as u16);
    out.push(0);
    out.push(
        match endpoint {
            Endpoint::V4 { .. } => 0x01,
            Endpoint::V6 { .. } => 0x02,
        },
    );
    push_u16(&mut out, endpoint.port() ^ 0x2112);
    let ghost fixed = out@;
    let mut j: usize = 0;
    while j < addr_len
        invariant
            j <= addr_len,
            addr_len == endpoint.octets().len(),
            addr_len == 4 || addr_len == 16,
            txid.len() == 12,
            fixed.len() == 28,
            fixed.subrange(4, 20) == xor_key(txid),
            out@ == fixed + Seq::new(j as nat, |i: int| endpoint.octets()[i] ^ xor_key(txid)[i]),
        decreases addr_len - j,
    {
        let octet: u8 = match endpoint {
            Endpoint::V4 { ip, .. } => ip[j],
            Endpoint::V6 { ip, .. } => ip[j],
        };
        assert(out@[4 + j] == fixed.subrange(4, 20)[j as int]);
        let k: u8 = out[4 + j];
        out.push(octet ^ k);
        j += 1;
    }
    assert(out@ =~= response_to_sign(endpoint, txid));
    // MESSAGE-INTEGRITY
    let digest = hmac_sha1(key, out.as_slice());
    push_u16(&mut out, ATTR_MESSAGE_INTEGRITY);
    push_u16(&mut out, 20);
    out.extend_from_slice(digest.as_slice());
    write_u16(out.as_mut_slice(), 2, (8 + addr_len + 32) as u16);
    assert(out@ =~= response_to_check(endpoint, txid, key@));
    // FINGERPRINT
    let crc: u32 = crc32(out.as_slice()) ^ FINGERPRINT_XOR;
    push_u16(&mut out, ATTR_FINGERPRINT);
    push_u16(&mut out, 4);
    push_u32(&mut out, crc);
    assert(out@ =~= binding_response(endpoint, txid, key@));
    out
}

/// Writes the Binding Response to `request` into `response`; 0 and an
/// untouched buffer when it cannot hold a header or there is no key.
fn create_binding_response(
    request: &[u8],
    response: &mut [u8],
    endpoint: Endpoint,
    local_key: &[u8],
) -> (n: usize)
    requires
        request@.len() >= STUN_HEADER_LEN,
        old(response)@.len() < STUN_HEADER_LEN || old(response)@.len() >= binding_response_len(
            endpoint,
        ),
    ensures
        final(response)@.len() == old(response)@.len(),
        old(response)@.len() < STUN_HEADER_LEN || local_key@.len() == 0 ==> n == 0
            && final(response)@ == old(response)@,
        old(response)@.len() >= STUN_HEADER_LEN && local_key@.len() > 0 ==> n
            == binding_response_len(endpoint) && final(response)@ == overwrite(
            old(response)@,
            0,
            binding_response(endpoint, txid_of(request@), local_key@),
        ),
{
    if response.len() < STUN_HEADER_LEN || local_key.is_empty() {
        return 0;
    }
    let message = response_message(request, endpoint, local_key);
    let ghost before = response@;
    let mut i: usize = 0;
    while i < message.len()
        invariant
            i <= message@.len(),
            message@.len() <= before.len(),
            response@.len() == before.len(),
            forall|j: int| 0 <= j < i ==> response@[j] == message@[j],
            forall|j: int| i <= j < before.len() ==> response@[j] == before[j],
        decreases message@.len() - i,
    {
        response[i] = message[i];
        i += 1;
    }
    assert(response@ =~= overwrite(before, 0, message@));
    message.len()
}

/// `handle_checked` without insisting on authentication.
pub fn handle(
    pk: &mut [u8],
    response: &mut [u8],
    endpoint: Endpoint,
    local_key: &[u8],
    remote_key: &[u8],
) -> (n: usize)
    ensures
        final(pk)@ == old(pk)@,
        final(response)@.len() == old(response)@.len(),
        n == if is_answerable(old(pk)@, remote_key@, false) && local_key@.len() > 0 && old(
            response,
        )@.len() >= binding_response_len(endpoint) {
            binding_response_len(endpoint)
        } else {
            0
        },
        n == 0 ==> final(response)@ == old(response)@,
        n > 0 ==> final(response)@ == overwrite(
            old(response)@,
            0,
            binding_response(endpoint, txid_of(old(pk)@), local_key@),
        ),
{
    handle_checked(pk, response, endpoint, local_key, remote_key, false)
}

/// Handles an inbound packet: the number of bytes written to `response`, 0
/// when no response should be sent. A Binding Request is answered when all its
/// attributes hold under `remote_key`; with `require_integrity` it must carry a
/// MESSAGE-INTEGRITY as well, so that an answer is proof that the sender knows
/// the key. A response that does not fit is not sent.
pub fn handle_checked(
    pk: &mut [u8],
    response: &mut [u8],
    endpoint: Endpoint,
    local_key: &[u8],
    remote_key: &[u8],
    require_integrity: bool,
) -> (n: usize)
    ensures
        final(pk)@ == old(pk)@,
        final(response)@.len() == old(response)@.len(),
        n == if is_answerable(old(pk)@, remote_key@, require_integrity) && local_key@.len() > 0
            && old(response)@.len() >= binding_response_len(endpoint) {
            binding_response_len(endpoint)
        } else {
            0
        },
        n == 0 ==> final(response)@ == old(response)@,
        n > 0 ==> final(response)@ == overwrite(
            old(response)@,
            0,
            binding_response(endpoint, txid_of(old(pk)@), local_key@),
        ),
{
    if !is_stun(pk) {
        return 0;
    }
    if message_method(pk) != 1 {
        return 0;
    }
    if message_class(pk) != 0 {
        // A response or indication from the peer is not answered.
        return 0;
    }
    match walk_attributes(pk, remote_key) {
        Some(authenticated) => {
            if require_integrity && !authenticated {
                return 0;
            }
        },
        None => {
            return 0;
        },
    }
    let needed: usize = match endpoint {
        Endpoint::V4 { .. } => 64,
        Endpoint::V6 { .. } => 76,
    };
    if response.len() < needed {
        return 0;
    }
    create_binding_response(pk, response, endpoint, local_key)
}

/// A Binding Response is a whole STUN message of method Binding and class
/// success that carries the request's transaction ID, and whoever holds the
/// key it was signed with finds it authentic.
pub proof fn lemma_response_is_authentic(e: Endpoint, txid: Seq<u8>, key: Seq<u8>)
    requires
        txid.len() == 12,
        key.len() > 0,
    ensures
        is_stun_message(binding_response(e, txid, key)),
        method_of(be16(binding_response(e, txid, key), 0)) == 1,
        class_of(be16(binding_response(e, txid, key), 0)) == 2,
        txid_of(binding_response(e, txid, key)) == txid,
        verdict(binding_response(e, txid, key), key) == Some(true),
{
    let s = binding_response(e, txid, key);
    let mapped = mapped_address(e, txid);
    let n = mapped.len() as int;
    assert(n == 12 || n == 24);
    let sign = response_to_sign(e, txid);
    let body = response_to_check(e, txid, key);
    assert(body.len() == 44 + n);
    assert(s.len() == 52 + n);
    assert(s.subrange(4, 8) =~= bytes32(MAGIC_COOKIE));
    crate::wire::lemma_be32_of_bytes32(s, 4, MAGIC_COOKIE);
    assert(be16(s, 2) == n + 32);
    assert(be16(s, 0) == 0x0101);
    assert(txid_of(s) =~= txid);
    // the three attributes
    assert(be16(s, 20) == ATTR_XOR_MAPPED_ADDRESS);
    assert(be16(s, 22) == n - 4);
    assert(be16(s, 20 + n) == ATTR_MESSAGE_INTEGRITY);
    assert(be16(s, 22 + n) == 20);
    assert(be16(s, 44 + n) == ATTR_FINGERPRINT);
    assert(be16(s, 46 + n) == 4);
    reveal_with_fuel(attributes_from, 4);
    assert(attributes(s) =~= seq![20int, 20 + n, 44 + n]);
    assert(integrity_input(s, 20 + n) =~= sign);
    assert(s.subrange(24 + n, 44 + n) =~= hmac_sha1_of(key, sign)@);
    assert(s.take(44 + n) =~= body);
    let crc = crc32_of(body) ^ FINGERPRINT_XOR;
    assert(s.subrange(48 + n, 52 + n) =~= bytes32(crc));
    crate::wire::lemma_be32_of_bytes32(s, 48 + n, crc);
    assert(attribute_holds(s, 20int, key));
    assert(attribute_holds(s, 20 + n, key));
    assert(attribute_holds(s, 44 + n, key));
    assert(attributes(s)[1] == 20 + n);
    assert(has_integrity(s, attributes(s)));
}

/// An attribute behind the first MESSAGE-INTEGRITY cannot make a message a
/// nomination: whether it is one depends on the attributes before that alone.
pub proof fn lemma_nomination_is_signed(s: Seq<u8>, i: int)
    requires
        declared_len(s) <= s.len(),
        0 <= i < attributes(s).len(),
        be16(s, attributes(s)[i]) == ATTR_MESSAGE_INTEGRITY,
        forall|j: int|
            0 <= j < i ==> be16(s, #[trigger] attributes(s)[j]) != ATTR_MESSAGE_INTEGRITY,
    ensures
        is_nomination(s) <==> exists|j: int|
            0 <= j < i && be16(s, #[trigger] attributes(s)[j]) == ATTR_USE_CANDIDATE,
{
    if is_nomination(s) {
        let k = choose|k: int| nominated_before(s, attributes(s), k);
        assert(k == i) by {
            if i < k {
                assert(be16(s, attributes(s)[i]) != ATTR_MESSAGE_INTEGRITY);
            }
        }
    }
    if exists|j: int|
        0 <= j < i && be16(s, #[trigger] attributes(s)[j]) == ATTR_USE_CANDIDATE {
        assert(nominated_before(s, attributes(s), i));
    }
}

/// A request that is answered where authentication is required carries a
/// MESSAGE-INTEGRITY that verifies under the key; every request so answered is
/// answered without the requirement as well.
pub proof fn lemma_required_integrity(s: Seq<u8>, key: Seq<u8>)
    ensures
        is_answerable(s, key, true) ==> is_answerable(s, key, false) && exists|i: int|
            0 <= i < attributes(s).len() && be16(s, #[trigger] attributes(s)[i])
                == ATTR_MESSAGE_INTEGRITY && integrity_holds(s, attributes(s)[i], key),
        attributes(s).len() == 0 ==> !is_answerable(s, key, true),
{
    if is_answerable(s, key, true) {
        let i = choose|i: int|
            0 <= i < attributes(s).len() && be16(s, #[trigger] attributes(s)[i])
                == ATTR_MESSAGE_INTEGRITY;
        assert(attribute_holds(s, attributes(s)[i], key));
    }
}

} // verus!
