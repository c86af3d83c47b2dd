//! What a DTLS-SRTP session is checked by and what it yields: the peer's
//! certificate fingerprint (RFC 5763 section 5), and the SRTP keys split from
//! the exported keying material (RFC 5764 section 4.2).
use vstd::prelude::*;

use crate::crypto::sha256;
use crate::crypto::sha256_of;
use crate::srtp::ProtectionProfile;
use crate::text::{
    is_white, lowered, trimmed, trimmed_end, trimmed_start, upper, uppered, word_len,
};
use crate::text::{chars_of, copy_range, first_word, same_chars, string_of};
use crate::text::{to_lower, to_upper, trim};
use vstd::slice::{slice_subrange, slice_to_vec};

verus! {

/// The peer's certificate fingerprint as promised out of band in SDP
/// (`a=fingerprint`).
#[derive(Debug, Clone)]
pub struct PeerFingerprint {
    /// Hash algorithm in lower case. Only `sha-256` is matched; any other
    /// fails.
    pub algorithm: String,
    /// Colon-separated upper-case hex of the digest.
    pub hex_colon: String,
}

/// An upper-case hexadecimal digit.
pub open spec fn hex_digit(d: int) -> char {
    if d < 10 {
        (48 + d) as u8 as char
    } else {
        (55 + d) as u8 as char
    }
}

/// Colon-separated upper-case hex of some bytes.
pub open spec fn hex_colon(b: Seq<u8>) -> Seq<char> {
    Seq::new(
        if b.len() == 0 {
            0
        } else {
            (3 * b.len() - 1) as nat
        },
        |i: int|
            if i % 3 == 0 {
                hex_digit(b[i / 3] as int / 16)
            } else if i % 3 == 1 {
                hex_digit(b[i / 3] as int % 16)
            } else {
                ':'
            },
    )
}

/// The algorithm and the digest that a fingerprint value names: with white
/// space inside, what stands before and behind the first of it; without, a
/// digest of `sha-256`; nothing for blank text.
pub open spec fn fingerprint_of(s: Seq<char>) -> Option<(Seq<char>, Seq<char>)> {
    let t = trimmed(s);
    let n = word_len(t) as int;
    if t.len() == 0 {
        None
    } else if n < t.len() {
        Some(
            (
                lowered(trimmed(t.take(n))),
                uppered(trimmed(t.subrange(n + 1, t.len() as int))),
            ),
        )
    } else {
        Some(("sha-256"@, uppered(t)))
    }
}

fn hex_char(d: u8) -> (c: char)
    requires
        d < 16,
    ensures
        c == hex_digit(d as int),
{
    if d < 10 {
        (48 + d) as char
    } else {
        (55 + d) as char
    }
}

/// The SHA-256 digest of a certificate, as colon-separated upper-case hex.
pub fn sha256_fingerprint(der: &[u8]) -> (r: String)
    ensures
        r@ == hex_colon(sha256_of(der@)@),
{
    let digest: [u8; 32] = sha256(der);
    let mut out: Vec<char> = Vec::new();
    let mut i: usize = 0;
    while i < 32
        invariant
            i <= 32,
            digest@ == sha256_of(der@)@,
            out@.len() == if i == 0 {
                0
            } else {
                3 * i - 1
            },
            forall|j: int|
                0 <= j < out@.len() ==> #[trigger] out@[j] == hex_colon(sha256_of(der@)@)[j],
        decreases 32 - i,
    {
        if i > 0 {
            out.push(':');
        }
        out.push(hex_char(digest[i] / 16));
        out.push(hex_char(digest[i] % 16));
        i += 1;
    }
    assert(out@ =~= hex_colon(sha256_of(der@)@));
    string_of(&out)
}

impl PeerFingerprint {
    /// Parses an SDP fingerprint value: `"<algorithm> <hex>"`, or bare hex of
    /// `sha-256`. `None` for blank text.
    pub fn parse(s: &str) -> (r: Option<Self>)
        ensures
            match r {
                Some(f) => fingerprint_of(s@) == Some((f.algorithm@, f.hex_colon@)),
                None => fingerprint_of(s@) is None,
            },
    {
        let t = trim(&chars_of(s));
        if t.len() == 0 {
            return None;
        }
        let n: usize = first_word(&t);
        if n < t.len() {
            let algo = copy_range(&t, 0, n);
            let hex = copy_range(&t, n + 1, t.len());
            assert(t@.subrange(0, n as int) =~= t@.take(n as int));
            Some(
                PeerFingerprint {
                    algorithm: string_of(&to_lower(&trim(&algo))),
                    hex_colon: string_of(&to_upper(&trim(&hex))),
                },
            )
        } else {
            Some(
                PeerFingerprint {
                    algorithm: string_of(&chars_of("sha-256")),
                    hex_colon: string_of(&to_upper(&t)),
                },
            )
        }
    }

    /// A certificate hashes to this fingerprint.
    pub open spec fn matched_by(self, der: Seq<u8>) -> bool {
        self.algorithm@ == "sha-256"@ && lowered(hex_colon(sha256_of(der)@)) == lowered(
            self.hex_colon@,
        )
    }

    /// Does a certificate in DER form hash to this fingerprint? Any algorithm
    /// but `sha-256` matches nothing; hex digits compare without case.
    pub fn matches_der(&self, der: &[u8]) -> (r: bool)
        ensures
            r == self.matched_by(der@),
    {
        if !same_chars(&chars_of(self.algorithm.as_str()), &chars_of("sha-256")) {
            return false;
        }
        let seen = sha256_fingerprint(der);
        same_chars(
            &to_lower(&chars_of(seen.as_str())),
            &to_lower(&chars_of(self.hex_colon.as_str())),
        )
    }
}

/// Does a DTLS peer pass, by the certificates that it presented in order, the
/// leaf first? With a fingerprint the leaf must hash to it; without one
/// any peer does.
pub fn accepts_peer(expected: &Option<PeerFingerprint>, certs: &Vec<Vec<u8>>) -> (r: bool)
    ensures
        r == match expected {
            Some(fp) => certs@.len() > 0 && fp.matched_by(certs@[0]@),
            None => true,
        },
{
    match expected {
        Some(fp) => certs.len() > 0 && fp.matches_der(certs[0].as_slice()),
        None => true,
    }
}

/// What a completed DTLS handshake leaves.
#[derive(Debug, Clone)]
pub struct HandshakeResult {
    pub keying_material: Vec<u8>,
    pub profile: ProtectionProfile,
    pub is_client: bool,
}

/// How many bytes of keying material two ends with a profile need.
pub fn keying_material_len(profile: ProtectionProfile) -> (r: usize)
    ensures
        r == 2 * (profile.spec_key_len() + profile.spec_salt_len()),
{
    2 * (profile.key_len() + profile.salt_len())
}

/// Keying material extracted from a completed DTLS handshake.
#[derive(Debug, Clone)]
pub struct SrtpKeyingMaterial {
    pub profile: ProtectionProfile,
    pub client_write_key: Vec<u8>,
    pub client_write_salt: Vec<u8>,
    pub server_write_key: Vec<u8>,
    pub server_write_salt: Vec<u8>,
    pub local_is_server: bool,
}

impl SrtpKeyingMaterial {
    /// The key that the local side writes with.
    pub open spec fn local_key(self) -> Seq<u8> {
        if self.local_is_server {
            self.server_write_key@
        } else {
            self.client_write_key@
        }
    }

    /// The salt that the local side writes with.
    pub open spec fn local_salt(self) -> Seq<u8> {
        if self.local_is_server {
            self.server_write_salt@
        } else {
            self.client_write_salt@
        }
    }

    /// The key that the remote side writes with.
    pub open spec fn remote_key(self) -> Seq<u8> {
        if self.local_is_server {
            self.client_write_key@
        } else {
            self.server_write_key@
        }
    }

    /// The salt that the remote side writes with.
    pub open spec fn remote_salt(self) -> Seq<u8> {
        if self.local_is_server {
            self.client_write_salt@
        } else {
            self.server_write_salt@
        }
    }

    /// Keys and salts of the profile's lengths.
    pub open spec fn fits(self) -> bool {
        &&& self.client_write_key@.len() == self.profile.spec_key_len()
        &&& self.server_write_key@.len() == self.profile.spec_key_len()
        &&& self.client_write_salt@.len() == self.profile.spec_salt_len()
        &&& self.server_write_salt@.len() == self.profile.spec_salt_len()
    }
}

/// Splits exported keying material into client and server keys and salts:
/// client key, server key, client salt, server salt.
pub fn split_keying_material(km: &[u8], profile: ProtectionProfile, is_client: bool) -> (r:
    SrtpKeyingMaterial)
    requires
        km@.len() >= 2 * (profile.spec_key_len() + profile.spec_salt_len()),
    ensures
        r.profile == profile,
        r.local_is_server == !is_client,
        r.fits(),
        r.client_write_key@ + r.server_write_key@ + r.client_write_salt@ + r.server_write_salt@
            == km@.take(2 * (profile.spec_key_len() + profile.spec_salt_len())),
{
    let key_len: usize = profile.key_len();
    let salt_len: usize = profile.salt_len();
    let client_write_key = slice_to_vec(slice_subrange(km, 0, key_len));
    let server_write_key = slice_to_vec(slice_subrange(km, key_len, 2 * key_len));
    let client_write_salt = slice_to_vec(slice_subrange(km, 2 * key_len, 2 * key_len + salt_len));
    let server_write_salt = slice_to_vec(
        slice_subrange(km, 2 * key_len + salt_len, 2 * key_len + 2 * salt_len),
    );
    assert(client_write_key@ + server_write_key@ + client_write_salt@ + server_write_salt@
        =~= km@.take(2 * (profile.spec_key_len() + profile.spec_salt_len())));
    SrtpKeyingMaterial {
        profile,
        client_write_key,
        client_write_salt,
        server_write_key,
        server_write_salt,
        local_is_server: !is_client,
    }
}

/// Key, salt and profile of the local (outbound) direction: the server's when
/// the local side is the DTLS server.
pub fn local_srtp_params(km: &SrtpKeyingMaterial) -> (r: (&[u8], &[u8], ProtectionProfile))
    ensures
        r.0@ == km.local_key(),
        r.1@ == km.local_salt(),
        r.2 == km.profile,
{
    if km.local_is_server {
        (km.server_write_key.as_slice(), km.server_write_salt.as_slice(), km.profile)
    } else {
        (km.client_write_key.as_slice(), km.client_write_salt.as_slice(), km.profile)
    }
}

/// Key, salt and profile of the remote (inbound) direction: the peer writes
/// with the opposite key.
pub fn remote_srtp_params(km: &SrtpKeyingMaterial) -> (r: (&[u8], &[u8], ProtectionProfile))
    ensures
        r.0@ == km.remote_key(),
        r.1@ == km.remote_salt(),
        r.2 == km.profile,
{
    if km.local_is_server {
        (km.client_write_key.as_slice(), km.client_write_salt.as_slice(), km.profile)
    } else {
        (km.server_write_key.as_slice(), km.server_write_salt.as_slice(), km.profile)
    }
}

/// The two ends of one session, split from the same material, agree: what one
/// writes with is what the other reads with.
pub proof fn lemma_ends_agree(client: SrtpKeyingMaterial, server: SrtpKeyingMaterial)
    requires
        !client.local_is_server,
        server.local_is_server,
        client.profile == server.profile,
        client.fits(),
        server.fits(),
        client.client_write_key@ + client.server_write_key@ + client.client_write_salt@
            + client.server_write_salt@ == server.client_write_key@ + server.server_write_key@
            + server.client_write_salt@ + server.server_write_salt@,
    ensures
        client.local_key() == server.remote_key(),
        client.local_salt() == server.remote_salt(),
        client.remote_key() == server.local_key(),
        client.remote_salt() == server.local_salt(),
{
    let k = client.profile.spec_key_len() as int;
    let s = client.profile.spec_salt_len() as int;
    let a = client.client_write_key@ + client.server_write_key@ + client.client_write_salt@
        + client.server_write_salt@;
    let b = server.client_write_key@ + server.server_write_key@ + server.client_write_salt@
        + server.server_write_salt@;
    assert(a.subrange(0, k) =~= client.client_write_key@);
    assert(b.subrange(0, k) =~= server.client_write_key@);
    assert(a.subrange(k, 2 * k) =~= client.server_write_key@);
    assert(b.subrange(k, 2 * k) =~= server.server_write_key@);
    assert(a.subrange(2 * k, 2 * k + s) =~= client.client_write_salt@);
    assert(b.subrange(2 * k, 2 * k + s) =~= server.client_write_salt@);
    assert(a.subrange(2 * k + s, 2 * k + 2 * s) =~= client.server_write_salt@);
    assert(b.subrange(2 * k + s, 2 * k + 2 * s) =~= server.server_write_salt@);
}

proof fn lemma_word_of_no_white(s: Seq<char>)
    requires
        forall|i: int| 0 <= i < s.len() ==> !is_white(#[trigger] s[i]),
    ensures
        word_len(s) == s.len(),
    decreases s.len(),
{
    if s.len() > 0 {
        let rest = s.drop_first();
        assert forall|i: int| 0 <= i < rest.len() implies !is_white(#[trigger] rest[i]) by {
            assert(rest[i] == s[i + 1]);
        }
        lemma_word_of_no_white(rest);
    }
}

/// A certificate's own fingerprint, advertised bare, is read back as it is, and
/// as the digest that `matches_der` looks for.
pub proof fn lemma_advertised_fingerprint(b: Seq<u8>)
    requires
        b.len() > 0,
    ensures
        fingerprint_of(hex_colon(b)) == Some(("sha-256"@, hex_colon(b))),
{
    let h = hex_colon(b);
    assert forall|i: int| 0 <= i < h.len() implies !is_white(#[trigger] h[i]) && upper(h[i])
        == h[i] by {}
    assert(trimmed_start(h) == h);
    assert(trimmed_end(h) == h) by {
        assert(h.last() == h[h.len() - 1]);
    }
    lemma_word_of_no_white(h);
    assert(uppered(h) =~= h);
}

} // verus!
