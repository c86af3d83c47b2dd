use projectrtp::dtls_session::{
    accepts_peer, keying_material_len, local_srtp_params, remote_srtp_params, sha256_fingerprint,
    split_keying_material, PeerFingerprint,
};
use projectrtp::srtp::ProtectionProfile;
use webrtc_dtls::crypto::Certificate;

/// What a peer would advertise for its certificate.
fn fp_of(cert: &Certificate) -> PeerFingerprint {
    let der = cert.certificate.first().unwrap().as_ref();
    PeerFingerprint {
        algorithm: "sha-256".to_string(),
        hex_colon: sha256_fingerprint(der),
    }
}

#[test]
fn fingerprint_parse_bare_hex_assumes_sha256() {
    let fp = PeerFingerprint::parse("a1:b2:c3").unwrap();
    assert_eq!(fp.algorithm, "sha-256");
    assert_eq!(fp.hex_colon, "A1:B2:C3");
}

#[test]
fn fingerprint_parse_algorithm_prefixed() {
    let fp = PeerFingerprint::parse("SHA-256 a1:b2:c3").unwrap();
    assert_eq!(fp.algorithm, "sha-256");
    assert_eq!(fp.hex_colon, "A1:B2:C3");
}

#[test]
fn fingerprint_parse_empty_is_none() {
    assert!(PeerFingerprint::parse("").is_none());
    assert!(PeerFingerprint::parse("   ").is_none());
}

#[test]
fn fingerprint_matches_der_of_own_cert() {
    let cert = Certificate::generate_self_signed(vec!["peer".into()]).unwrap();
    let der = cert.certificate.first().unwrap().as_ref();
    let fp = fp_of(&cert);
    assert!(fp.matches_der(der), "a cert must match its own fingerprint");

    // Case-insensitive on the hex.
    let lower = PeerFingerprint {
        algorithm: "sha-256".to_string(),
        hex_colon: fp.hex_colon.to_ascii_lowercase(),
    };
    assert!(lower.matches_der(der));
}

#[test]
fn fingerprint_rejects_wrong_hash_and_unknown_algorithm() {
    let cert = Certificate::generate_self_signed(vec!["peer".into()]).unwrap();
    let der = cert.certificate.first().unwrap().as_ref();

    let mut wrong = fp_of(&cert);
    // Flip the first hex nibble.
    let first = if wrong.hex_colon.starts_with('0') {
        '1'
    } else {
        '0'
    };
    wrong.hex_colon.replace_range(0..1, &first.to_string());
    assert!(!wrong.matches_der(der), "a flipped digit must not match");

    // A correct digest under an unsupported algorithm must fail closed.
    let unknown = PeerFingerprint {
        algorithm: "sha-1".to_string(),
        hex_colon: sha256_fingerprint(der),
    };
    assert!(
        !unknown.matches_der(der),
        "unsupported algorithm must fail closed"
    );
}

#[test]
fn digest_of_a_known_text() {
    assert_eq!(
        sha256_fingerprint(b"abc"),
        "BA:78:16:BF:8F:01:CF:EA:41:41:40:DE:5D:AE:22:23:\
         B0:03:61:A3:96:17:7A:9C:B4:10:FF:61:F2:00:15:AD"
    );
}

#[test]
fn peer_is_judged_by_its_leaf() {
    let fp = PeerFingerprint::parse(&sha256_fingerprint(b"leaf")).unwrap();
    let leaf = b"leaf".to_vec();
    let other = b"other".to_vec();
    let expected = Some(fp);
    assert!(accepts_peer(&expected, &vec![leaf.clone(), other.clone()]));
    assert!(!accepts_peer(&expected, &vec![other.clone(), leaf]));
    assert!(!accepts_peer(&expected, &vec![]));
    assert!(accepts_peer(&None, &vec![other]));
    assert!(accepts_peer(&None, &vec![]));
}

#[test]
fn two_ends_of_one_session_agree() {
    for profile in [ProtectionProfile::Aes128CmHmacSha1_80, ProtectionProfile::AeadAes256Gcm] {
        let n = keying_material_len(profile);
        let km: Vec<u8> = (0..n).map(|i| i as u8).collect();
        let client = split_keying_material(&km, profile, true);
        let server = split_keying_material(&km, profile, false);
        assert_eq!(local_srtp_params(&client), remote_srtp_params(&server));
        assert_eq!(local_srtp_params(&server), remote_srtp_params(&client));
        let key = profile.key_len();
        assert_eq!(client.client_write_key, km[..key]);
        assert_eq!(client.server_write_key, km[key..2 * key]);
        assert_eq!(
            client.client_write_salt,
            km[2 * key..2 * key + profile.salt_len()]
        );
        assert_eq!(client.server_write_salt, km[2 * key + profile.salt_len()..]);
    }
    assert_eq!(keying_material_len(ProtectionProfile::Aes128CmHmacSha1_80), 60);
    assert_eq!(keying_material_len(ProtectionProfile::AeadAes256Gcm), 88);
}
