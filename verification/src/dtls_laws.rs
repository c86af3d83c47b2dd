//! What a fingerprint value is read as, which certificates pass, and which bytes
//! of the keying material are whose.
use vstd::prelude::*;

use crate::crypto::sha256_of;
use crate::dtls_session::{
    fingerprint_of, hex_colon, hex_digit, lemma_ends_agree, PeerFingerprint, SrtpKeyingMaterial,
};
use crate::relay::send::outbound_log;
use crate::rtcp_loop::inbound_log;
use crate::srtp::{keyed_by, ProtectionProfile};
use crate::text::{
    is_white, lower, lowered, trimmed, trimmed_end, trimmed_start, upper, uppered, word_len,
};

verus! {

/// Text of white space alone.
pub open spec fn is_blank(s: Seq<char>) -> bool {
    forall|i: int| 0 <= i < s.len() ==> is_white(#[trigger] s[i])
}

/// Some characters, none of them white space.
pub open spec fn is_word(s: Seq<char>) -> bool {
    s.len() > 0 && forall|i: int| 0 <= i < s.len() ==> !is_white(#[trigger] s[i])
}

proof fn lemma_trim_front(pre: Seq<char>, s: Seq<char>)
    requires
        is_blank(pre),
        s.len() == 0 || !is_white(s[0]),
    ensures
        trimmed_start(pre + s) == s,
    decreases pre.len(),
{
    let all = pre + s;
    if pre.len() == 0 {
        assert(all =~= s);
    } else {
        let rest = pre.drop_first();
        assert(all[0] == pre[0]);
        assert forall|i: int| 0 <= i < rest.len() implies is_white(#[trigger] rest[i]) by {
            assert(rest[i] == pre[i + 1]);
        }
        assert(all.drop_first() =~= rest + s);
        lemma_trim_front(rest, s);
    }
}

proof fn lemma_trim_back(s: Seq<char>, post: Seq<char>)
    requires
        is_blank(post),
        s.len() == 0 || !is_white(s.last()),
    ensures
        trimmed_end(s + post) == s,
    decreases post.len(),
{
    let all = s + post;
    if post.len() == 0 {
        assert(all =~= s);
    } else {
        let rest = post.drop_last();
        assert(all.last() == post[post.len() - 1]);
        assert forall|i: int| 0 <= i < rest.len() implies is_white(#[trigger] rest[i]) by {
            assert(rest[i] == post[i]);
        }
        assert(all.drop_last() =~= s + rest);
        lemma_trim_back(s, rest);
    }
}

/// Trimming takes the white space at both ends, all of it, and nothing else.
pub proof fn lemma_trimmed(pre: Seq<char>, s: Seq<char>, post: Seq<char>)
    requires
        is_blank(pre),
        is_blank(post),
        s.len() > 0 ==> !is_white(s[0]) && !is_white(s.last()),
    ensures
        trimmed(pre + s + post) == s,
{
    if s.len() > 0 {
        assert(pre + s + post =~= pre + (s + post));
        assert((s + post)[0] == s[0]);
        lemma_trim_front(pre, s + post);
        lemma_trim_back(s, post);
    } else {
        let all = pre + s + post;
        assert forall|i: int| 0 <= i < all.len() implies is_white(#[trigger] all[i]) by {
            if i < pre.len() {
                assert(all[i] == pre[i]);
            } else {
                assert(all[i] == post[i - pre.len()]);
            }
        }
        assert(all + s =~= all);
        lemma_trim_front(all, s);
        assert(s =~= Seq::<char>::empty());
    }
}

proof fn lemma_word_ends(w: Seq<char>, rest: Seq<char>)
    requires
        forall|i: int| 0 <= i < w.len() ==> !is_white(#[trigger] w[i]),
        rest.len() > 0 ==> is_white(rest[0]),
    ensures
        word_len(w + rest) == w.len(),
    decreases w.len(),
{
    let all = w + rest;
    if w.len() == 0 {
        assert(all =~= rest);
    } else {
        let tail = w.drop_first();
        assert(all[0] == w[0]);
        assert forall|i: int| 0 <= i < tail.len() implies !is_white(#[trigger] tail[i]) by {
            assert(tail[i] == w[i + 1]);
        }
        assert(all.drop_first() =~= tail + rest);
        lemma_word_ends(tail, rest);
    }
}

/// An algorithm and a digest with white space between and around them are read as
/// the algorithm in lower and the digest in upper case.
pub proof fn lemma_named_fingerprint(
    pre: Seq<char>,
    algorithm: Seq<char>,
    between: Seq<char>,
    digest: Seq<char>,
    post: Seq<char>,
)
    requires
        is_blank(pre),
        is_word(algorithm),
        between.len() > 0,
        is_blank(between),
        is_word(digest),
        is_blank(post),
    ensures
        fingerprint_of(pre + algorithm + between + digest + post) == Some(
            (lowered(algorithm), uppered(digest)),
        ),
{
    let t = algorithm + between + digest;
    let none = Seq::<char>::empty();
    assert(pre + algorithm + between + digest + post =~= pre + t + post);
    assert(t[0] == algorithm[0]);
    assert(t.last() == digest[digest.len() - 1]);
    lemma_trimmed(pre, t, post);
    assert(t =~= algorithm + (between + digest));
    assert((between + digest)[0] == between[0]);
    lemma_word_ends(algorithm, between + digest);
    let n = algorithm.len() as int;
    assert(t.take(n) =~= none + algorithm + none);
    assert(algorithm.last() == algorithm[n - 1]);
    lemma_trimmed(none, algorithm, none);
    let gap = between.drop_first();
    assert forall|i: int| 0 <= i < gap.len() implies is_white(#[trigger] gap[i]) by {
        assert(gap[i] == between[i + 1]);
    }
    assert(t.subrange(n + 1, t.len() as int) =~= gap + digest + none);
    assert(digest.last() == digest[digest.len() - 1]);
    lemma_trimmed(gap, digest, none);
}

/// A digest alone, with white space around it, is one of `sha-256`.
pub proof fn lemma_bare_fingerprint(pre: Seq<char>, digest: Seq<char>, post: Seq<char>)
    requires
        is_blank(pre),
        is_word(digest),
        is_blank(post),
    ensures
        fingerprint_of(pre + digest + post) == Some(("sha-256"@, uppered(digest))),
{
    assert(digest.last() == digest[digest.len() - 1]);
    lemma_trimmed(pre, digest, post);
    lemma_word_ends(digest, Seq::empty());
    assert(digest + Seq::<char>::empty() =~= digest);
}

/// White space alone is no fingerprint.
pub proof fn lemma_blank_fingerprint(s: Seq<char>)
    requires
        is_blank(s),
    ensures
        fingerprint_of(s) is None,
{
    let none = Seq::<char>::empty();
    assert(s + none + none =~= s);
    lemma_trimmed(s, none, none);
}

/// Letters change their case and nothing else changes.
pub proof fn lemma_case(s: Seq<char>, i: int)
    requires
        0 <= i < s.len(),
    ensures
        lowered(s).len() == s.len() && uppered(s).len() == s.len(),
        'A' <= s[i] <= 'Z' ==> lowered(s)[i] as int == s[i] as int + 32,
        !('A' <= s[i] <= 'Z') ==> lowered(s)[i] == s[i],
        'a' <= s[i] <= 'z' ==> uppered(s)[i] as int == s[i] as int - 32,
        !('a' <= s[i] <= 'z') ==> uppered(s)[i] == s[i],
        lowered(uppered(s)) == lowered(s),
{
    assert forall|j: int| 0 <= j < s.len() implies lower(upper(#[trigger] s[j])) == lower(s[j]) by {
    }
    assert(lowered(uppered(s)) =~= lowered(s));
}

/// The number that a hexadecimal digit stands for.
pub open spec fn digit_value(c: char) -> int {
    if '0' <= c <= '9' {
        c as int - '0' as int
    } else {
        c as int - 'A' as int + 10
    }
}

/// Each byte is written as two digits, the higher first, with a colon between it
/// and the next.
pub proof fn lemma_hex_layout(b: Seq<u8>, i: int)
    requires
        0 <= i < b.len(),
    ensures
        ({
            let h = hex_colon(b);
            &&& h.len() == 3 * b.len() - 1
            &&& b[i] == 16 * digit_value(h[3 * i]) + digit_value(h[3 * i + 1])
            &&& '0' <= h[3 * i] <= '9' || 'A' <= h[3 * i] <= 'F'
            &&& '0' <= h[3 * i + 1] <= '9' || 'A' <= h[3 * i + 1] <= 'F'
            &&& i + 1 < b.len() ==> h[3 * i + 2] == ':'
        }),
{
    let h = hex_colon(b);
    assert(h[3 * i] == hex_digit(b[i] as int / 16));
    assert(h[3 * i + 1] == hex_digit(b[i] as int % 16));
}

/// A certificate passes by its digest, in any case of its digits, under `sha-256`
/// and under no other algorithm.
pub proof fn lemma_certificate_passes(fp: PeerFingerprint, der: Seq<u8>)
    ensures
        fp.algorithm@ == "sha-256"@ && (fp.hex_colon@ == hex_colon(sha256_of(der)@)
            || fp.hex_colon@ == lowered(hex_colon(sha256_of(der)@))) ==> fp.matched_by(der),
        fp.algorithm@ != "sha-256"@ ==> !fp.matched_by(der),
{
    let h = hex_colon(sha256_of(der)@);
    assert(lowered(lowered(h)) =~= lowered(h));
}

/// One fingerprint passes certificates of one digest only.
pub proof fn lemma_fingerprint_is_of_one_digest(fp: PeerFingerprint, a: Seq<u8>, b: Seq<u8>)
    requires
        fp.matched_by(a),
        fp.matched_by(b),
    ensures
        sha256_of(a)@ == sha256_of(b)@,
{
    let (x, y) = (sha256_of(a)@, sha256_of(b)@);
    let (g, h) = (hex_colon(x), hex_colon(y));
    assert(lowered(g) == lowered(h));
    assert forall|i: int| 0 <= i < 32 implies x[i] == y[i] by {
        lemma_hex_layout(x, i);
        lemma_hex_layout(y, i);
        assert(lowered(g)[3 * i] == lower(g[3 * i]));
        assert(lowered(h)[3 * i] == lower(h[3 * i]));
        assert(lowered(g)[3 * i + 1] == lower(g[3 * i + 1]));
        assert(lowered(h)[3 * i + 1] == lower(h[3 * i + 1]));
    }
    assert(x =~= y);
}

/// The exported material is, in order, the key that the client writes with, the
/// one that the server does, and the salts of both. Each end writes with its own
/// and reads with the other's.
pub proof fn lemma_whose_keys(km: Seq<u8>, r: SrtpKeyingMaterial)
    requires
        r.fits(),
        km.len() >= 2 * (r.profile.spec_key_len() + r.profile.spec_salt_len()),
        r.client_write_key@ + r.server_write_key@ + r.client_write_salt@ + r.server_write_salt@
            == km.take(2 * (r.profile.spec_key_len() + r.profile.spec_salt_len())),
    ensures
        ({
            let k: int = match r.profile {
                ProtectionProfile::Aes256CmHmacSha1_80 => 32,
                ProtectionProfile::Aes256CmHmacSha1_32 => 32,
                ProtectionProfile::AeadAes256Gcm => 32,
                _ => 16,
            };
            let s: int = match r.profile {
                ProtectionProfile::AeadAes128Gcm => 12,
                ProtectionProfile::AeadAes256Gcm => 12,
                _ => 14,
            };
            let client_key = km.subrange(0, k);
            let server_key = km.subrange(k, 2 * k);
            let client_salt = km.subrange(2 * k, 2 * k + s);
            let server_salt = km.subrange(2 * k + s, 2 * k + 2 * s);
            if r.local_is_server {
                &&& r.local_key() == server_key && r.local_salt() == server_salt
                &&& r.remote_key() == client_key && r.remote_salt() == client_salt
            } else {
                &&& r.local_key() == client_key && r.local_salt() == client_salt
                &&& r.remote_key() == server_key && r.remote_salt() == server_salt
            }
        }),
{
    let k = r.profile.spec_key_len() as int;
    let s = r.profile.spec_salt_len() as int;
    let all = r.client_write_key@ + r.server_write_key@ + r.client_write_salt@
        + r.server_write_salt@;
    assert forall|i: int| 0 <= i < 2 * (k + s) implies #[trigger] all[i] == km[i] by {
        assert(all[i] == km.take(2 * (k + s))[i]);
    }
    assert(km.subrange(0, k) =~= r.client_write_key@) by {
        assert forall|i: int| 0 <= i < k implies km[i] == r.client_write_key@[i] by {
            assert(all[i] == km[i]);
        }
    }
    assert(km.subrange(k, 2 * k) =~= r.server_write_key@) by {
        assert forall|i: int| 0 <= i < k implies km[k + i] == r.server_write_key@[i] by {
            assert(all[k + i] == km[k + i]);
        }
    }
    assert(km.subrange(2 * k, 2 * k + s) =~= r.client_write_salt@) by {
        assert forall|i: int| 0 <= i < s implies km[2 * k + i] == r.client_write_salt@[i] by {
            assert(all[2 * k + i] == km[2 * k + i]);
        }
    }
    assert(km.subrange(2 * k + s, 2 * k + 2 * s) =~= r.server_write_salt@) by {
        assert forall|i: int| 0 <= i < s implies km[2 * k + s + i] == r.server_write_salt@[i] by {
            assert(all[2 * k + s + i] == km[2 * k + s + i]);
        }
    }
}

/// The two ends of one session make their contexts of the same key, salt and
/// profile, each direction of its own: what the client encrypts with is what the
/// server opens with, and the other way round. A context that is there stays.
pub proof fn lemma_ends_make_one_context(
    km: Seq<u8>,
    client: SrtpKeyingMaterial,
    server: SrtpKeyingMaterial,
    log: Seq<(u8, Seq<u8>)>,
)
    requires
        client.fits(),
        server.fits(),
        client.profile == server.profile,
        !client.local_is_server,
        server.local_is_server,
        km.len() >= 2 * (client.profile.spec_key_len() + client.profile.spec_salt_len()),
        client.client_write_key@ + client.server_write_key@ + client.client_write_salt@
            + client.server_write_salt@ == km.take(
            2 * (client.profile.spec_key_len() + client.profile.spec_salt_len()),
        ),
        server.client_write_key@ + server.server_write_key@ + server.client_write_salt@
            + server.server_write_salt@ == km.take(
            2 * (client.profile.spec_key_len() + client.profile.spec_salt_len()),
        ),
    ensures
        outbound_log(None, Some(client)) is Some && outbound_log(None, Some(server)) is Some,
        outbound_log(None, Some(client)) == inbound_log(None, Some(server)),
        outbound_log(None, Some(server)) == inbound_log(None, Some(client)),
        keyed_by(
            outbound_log(None, Some(client))->0,
            client.client_write_key@,
            client.client_write_salt@,
            client.profile,
        ),
        keyed_by(
            outbound_log(None, Some(server))->0,
            server.server_write_key@,
            server.server_write_salt@,
            server.profile,
        ),
        outbound_log(Some(log), Some(client)) == Some(log),
        inbound_log(Some(log), Some(client)) == Some(log),
        outbound_log(None, None) is None && inbound_log(None, None) is None,
{
    lemma_ends_agree(client, server);
    let a = outbound_log(None, Some(client))->0;
    let b = outbound_log(None, Some(server))->0;
    assert(a.take(3) =~= a);
    assert(b.take(3) =~= b);
}

} // verus!
