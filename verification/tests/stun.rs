use hmac::{Hmac, Mac};
use projectrtp::endpoint::Endpoint;
use projectrtp::stun::{
    handle, handle_checked, is_stun, nominates, transaction_id, verify_fingerprint,
};

const STUN_HEADER_LEN: usize = 20;
const MAGIC_COOKIE: u32 = 0x2112_A442;
const FINGERPRINT_XOR: u32 = 0x5354_554E;

fn write_u16(pk: &mut [u8], off: usize, v: u16) {
    pk[off..off + 2].copy_from_slice(&v.to_be_bytes());
}

fn write_u32(pk: &mut [u8], off: usize, v: u32) {
    pk[off..off + 4].copy_from_slice(&v.to_be_bytes());
}

fn read_u16(pk: &[u8], off: usize) -> u16 {
    u16::from_be_bytes([pk[off], pk[off + 1]])
}

fn set_message_length(pk: &mut [u8], len: u16) {
    write_u16(pk, 2, len);
}

fn hmac_sha1(key: &[u8], data: &[u8]) -> Vec<u8> {
    let mut mac = <Hmac<sha1::Sha1> as Mac>::new_from_slice(key).unwrap();
    mac.update(data);
    mac.finalize().into_bytes().to_vec()
}

fn peer() -> Endpoint {
    Endpoint::V4 { ip: [10, 0, 0, 5], port: 4242 }
}

/// A signed Binding Request with a FINGERPRINT.
fn build_request(key: &[u8]) -> Vec<u8> {
    let mut pk = vec![0u8; STUN_HEADER_LEN];
    write_u16(&mut pk, 0, 0x0001);
    write_u32(&mut pk, 4, MAGIC_COOKIE);
    for i in 0..12 {
        pk[8 + i] = (i as u8) + 1;
    }
    let mi_off = pk.len();
    pk.extend_from_slice(&[0u8; 24]);
    write_u16(&mut pk, mi_off, 0x0008);
    write_u16(&mut pk, mi_off + 2, 20);
    let mi_msg_len = (mi_off - STUN_HEADER_LEN + 24) as u16;
    set_message_length(&mut pk, mi_msg_len);
    let digest = hmac_sha1(key, &pk[..mi_off]);
    pk[mi_off + 4..mi_off + 24].copy_from_slice(&digest);
    let fp_off = pk.len();
    pk.extend_from_slice(&[0u8; 8]);
    write_u16(&mut pk, fp_off, 0x8028);
    write_u16(&mut pk, fp_off + 2, 4);
    let fp_msg_len = (fp_off - STUN_HEADER_LEN + 8) as u16;
    set_message_length(&mut pk, fp_msg_len);
    let crc = crc32fast::hash(&pk[..fp_off]) ^ FINGERPRINT_XOR;
    write_u32(&mut pk, fp_off + 4, crc);
    pk
}

#[test]
fn is_stun_detects_valid_header() {
    let pk = build_request(b"remote");
    assert!(is_stun(&pk));
}

#[test]
fn is_stun_rejects_non_stun() {
    let junk = [0xFFu8; 60];
    assert!(!is_stun(&junk));
}

#[test]
fn handle_roundtrip_produces_valid_response() {
    let mut req = build_request(b"remote-key");
    let mut resp = [0u8; 256];
    let n = handle(&mut req, &mut resp, peer(), b"local-key", b"remote-key");
    assert!(n > 0, "expected response");
    assert!(is_stun(&resp[..n]));
    // Response should be a Binding Response (class = success, method = binding).
    assert_eq!(read_u16(&resp, 0), 0x0101);
    // Transaction id must match request.
    assert_eq!(&resp[8..20], &req[8..20]);
    // Fingerprint self-check.
    let fp_off = n - 8;
    assert!(verify_fingerprint(&resp[..n], fp_off));
}

#[test]
fn checked_handle_requires_message_integrity() {
    let mut bare = vec![0u8; STUN_HEADER_LEN];
    write_u16(&mut bare, 0, 0x0001);
    write_u32(&mut bare, 4, MAGIC_COOKIE);
    assert!(is_stun(&bare));
    let mut resp = [0u8; 256];
    assert!(handle(&mut bare.clone(), &mut resp, peer(), b"k", b"k") > 0);
    assert_eq!(
        handle_checked(&mut bare, &mut resp, peer(), b"k", b"k", true),
        0,
        "bare STUN answered as if authenticated"
    );
    let mut signed = build_request(b"k");
    assert!(handle_checked(&mut signed, &mut resp, peer(), b"k", b"k", true) > 0);
    let mut wrong = build_request(b"other");
    assert_eq!(
        handle_checked(&mut wrong, &mut resp, peer(), b"k", b"k", true),
        0
    );
}

#[test]
fn nominates_only_when_use_candidate_is_signed() {
    assert!(!nominates(&build_request(b"k")));
    // USE-CANDIDATE (zero-length) before MESSAGE-INTEGRITY.
    let mut uc = vec![0u8; STUN_HEADER_LEN];
    write_u16(&mut uc, 0, 0x0001);
    write_u32(&mut uc, 4, MAGIC_COOKIE);
    uc.extend_from_slice(&[0x00, 0x25, 0, 0, 0x00, 0x08, 0, 20]);
    uc.extend_from_slice(&[0u8; 20]);
    set_message_length(&mut uc, 28);
    assert!(nominates(&uc));
    // Appended after MESSAGE-INTEGRITY: unauthenticated, ignored.
    let mut late = build_request(b"k");
    late.truncate(STUN_HEADER_LEN + 24);
    late.extend_from_slice(&[0x00, 0x25, 0, 0]);
    set_message_length(&mut late, 28);
    assert!(!nominates(&late));
}

#[test]
fn handle_rejects_bad_integrity() {
    let mut req = build_request(b"correct-key");
    let mut resp = [0u8; 256];
    // Use wrong remote key: integrity check must fail, no response.
    let n = handle(&mut req, &mut resp, peer(), b"local", b"wrong-key");
    assert_eq!(n, 0);
}

#[test]
fn response_carries_the_mapped_address_and_both_checks() {
    let mut req = build_request(b"r");
    let mut resp = [0xEEu8; 100];
    let n = handle(&mut req, &mut resp, peer(), b"local", b"r");
    assert_eq!(n, 64);
    assert_eq!(read_u16(&resp, 2), 44);
    // XOR-MAPPED-ADDRESS: 10.0.0.5:4242 under the cookie.
    assert_eq!(&resp[20..24], &[0x00, 0x20, 0, 8]);
    assert_eq!(resp[25], 1);
    assert_eq!(read_u16(&resp, 26), 4242 ^ 0x2112);
    assert_eq!(&resp[28..32], &[10 ^ 0x21, 0x12, 0xA4, 5 ^ 0x42]);
    // MESSAGE-INTEGRITY covers what precedes it, at the length it then had.
    let mut signed = resp[..32].to_vec();
    set_message_length(&mut signed, 36);
    assert_eq!(&resp[36..56], &hmac_sha1(b"local", &signed)[..]);
    assert_eq!(
        &resp[60..64],
        &(crc32fast::hash(&resp[..56]) ^ FINGERPRINT_XOR).to_be_bytes()
    );
    // Nothing is written behind it.
    assert!(resp[64..].iter().all(|b| *b == 0xEE));
}

#[test]
fn response_to_an_ipv6_peer_uses_the_transaction_id() {
    let mut req = build_request(b"r");
    let mut resp = [0u8; 128];
    let ip = [0x20, 1, 0xd, 0xb8, 0, 0, 0, 0, 0, 0, 0, 0, 0, 0, 0, 7];
    let to = Endpoint::V6 { ip, port: 9, flowinfo: 0, scope_id: 0 };
    let n = handle(&mut req, &mut resp, to, b"local", b"r");
    assert_eq!(n, 76);
    assert_eq!(resp[25], 2);
    let mut mask = MAGIC_COOKIE.to_be_bytes().to_vec();
    mask.extend_from_slice(&transaction_id(&req));
    for i in 0..16 {
        assert_eq!(resp[28 + i], ip[i] ^ mask[i]);
    }
}

#[test]
fn response_that_does_not_fit_is_not_sent() {
    let mut req = build_request(b"r");
    let mut small = [7u8; 63];
    assert_eq!(handle(&mut req, &mut small, peer(), b"l", b"r"), 0);
    assert!(small.iter().all(|b| *b == 7));
    let mut fits = [0u8; 64];
    assert_eq!(handle(&mut req, &mut fits, peer(), b"l", b"r"), 64);
    assert_eq!(handle(&mut req, &mut fits, peer(), b"", b"r"), 0);
}

#[test]
fn only_binding_requests_are_answered() {
    let mut resp = [0u8; 128];
    for mt in [0x0101u16, 0x0111, 0x0011, 0x0003] {
        let mut pk = vec![0u8; STUN_HEADER_LEN];
        write_u16(&mut pk, 0, mt);
        write_u32(&mut pk, 4, MAGIC_COOKIE);
        assert!(is_stun(&pk));
        assert_eq!(handle(&mut pk, &mut resp, peer(), b"k", b"k"), 0, "{mt:#06x}");
    }
}

#[test]
fn damaged_requests_are_refused() {
    let mut resp = [0u8; 128];
    // FINGERPRINT off by one bit.
    let mut bad_crc = build_request(b"k");
    let last = bad_crc.len() - 1;
    bad_crc[last] ^= 1;
    assert_eq!(handle(&mut bad_crc, &mut resp, peer(), b"k", b"k"), 0);
    // An attribute that runs past the message.
    let mut over = vec![0u8; STUN_HEADER_LEN];
    write_u16(&mut over, 0, 0x0001);
    write_u32(&mut over, 4, MAGIC_COOKIE);
    over.extend_from_slice(&[0x00, 0x06, 0, 9, 1, 2, 3, 4]);
    set_message_length(&mut over, 8);
    assert!(is_stun(&over));
    assert_eq!(handle(&mut over, &mut resp, peer(), b"k", b"k"), 0);
}
