//! SRTP and SRTCP contexts of the `webrtc-srtp` crate.
//!
//! What a context answers depends on what it was made from and on every packet
//! it was handed since. That history is the log of a context (`context_log`),
//! and the result of a call is a function of the log and the packet.
use vstd::prelude::*;
use webrtc_srtp::context::Context;
use webrtc_srtp::protection_profile::ProtectionProfile as Outside;

use crate::rtp::{sequence_of, ssrc_of};
use crate::wire::be16;
use crate::wire::read_u16;

verus! {

/// The SRTP protection profiles.
#[derive(Debug, Clone, Copy, PartialEq, Eq, Structural)]
pub enum ProtectionProfile {
    Aes128CmHmacSha1_80,
    Aes128CmHmacSha1_32,
    Aes256CmHmacSha1_80,
    Aes256CmHmacSha1_32,
    AeadAes128Gcm,
    AeadAes256Gcm,
}

impl ProtectionProfile {
    /// Is this an AEAD profile?
    pub open spec fn is_aead(self) -> bool {
        self is AeadAes128Gcm || self is AeadAes256Gcm
    }

    /// Bytes of a master key.
    pub open spec fn spec_key_len(self) -> usize {
        match self {
            ProtectionProfile::Aes128CmHmacSha1_80 => 16,
            ProtectionProfile::Aes128CmHmacSha1_32 => 16,
            ProtectionProfile::Aes256CmHmacSha1_80 => 32,
            ProtectionProfile::Aes256CmHmacSha1_32 => 32,
            ProtectionProfile::AeadAes128Gcm => 16,
            ProtectionProfile::AeadAes256Gcm => 32,
        }
    }

    /// Bytes of a master salt.
    pub open spec fn spec_salt_len(self) -> usize {
        if self.is_aead() {
            12
        } else {
            14
        }
    }

    /// Bytes of the tag behind the index of an SRTCP packet.
    pub open spec fn spec_rtcp_auth_tag_len(self) -> usize {
        if self.is_aead() {
            0
        } else {
            10
        }
    }

    /// Bytes of the tag inside the ciphertext of an SRTCP packet.
    pub open spec fn spec_aead_auth_tag_len(self) -> usize {
        if self.is_aead() {
            16
        } else {
            0
        }
    }

    /// The number of a profile in the log of a context.
    pub open spec fn code(self) -> u8 {
        match self {
            ProtectionProfile::Aes128CmHmacSha1_80 => 1,
            ProtectionProfile::Aes128CmHmacSha1_32 => 2,
            ProtectionProfile::Aes256CmHmacSha1_80 => 3,
            ProtectionProfile::Aes256CmHmacSha1_32 => 4,
            ProtectionProfile::AeadAes128Gcm => 7,
            ProtectionProfile::AeadAes256Gcm => 8,
        }
    }

    /// Bytes of a master key.
    pub fn key_len(&self) -> (r: usize)
        ensures
            r == self.spec_key_len(),
    {
        match self {
            ProtectionProfile::Aes128CmHmacSha1_80 => 16,
            ProtectionProfile::Aes128CmHmacSha1_32 => 16,
            ProtectionProfile::Aes256CmHmacSha1_80 => 32,
            ProtectionProfile::Aes256CmHmacSha1_32 => 32,
            ProtectionProfile::AeadAes128Gcm => 16,
            ProtectionProfile::AeadAes256Gcm => 32,
        }
    }

    /// Bytes of a master salt.
    pub fn salt_len(&self) -> (r: usize)
        ensures
            r == self.spec_salt_len(),
    {
        match self {
            ProtectionProfile::AeadAes128Gcm => 12,
            ProtectionProfile::AeadAes256Gcm => 12,
            _ => 14,
        }
    }

    /// Bytes of the tag behind the index of an SRTCP packet.
    pub fn rtcp_auth_tag_len(&self) -> (r: usize)
        ensures
            r == self.spec_rtcp_auth_tag_len(),
    {
        match self {
            ProtectionProfile::AeadAes128Gcm => 0,
            ProtectionProfile::AeadAes256Gcm => 0,
            _ => 10,
        }
    }

    /// Bytes of the tag inside the ciphertext of an SRTCP packet.
    pub fn aead_auth_tag_len(&self) -> (r: usize)
        ensures
            r == self.spec_aead_auth_tag_len(),
    {
        match self {
            ProtectionProfile::AeadAes128Gcm => 16,
            ProtectionProfile::AeadAes256Gcm => 16,
            _ => 0,
        }
    }
}

/// A `webrtc_srtp` cryptographic context.
#[verifier::external_type_specification]
#[verifier::external_body]
pub struct ExContext(webrtc_srtp::context::Context);

/// What a context was made from and has been handed since, in order: each
/// entry a code (see `LOG_KEY` and the others) and bytes.
pub uninterp spec fn context_log(ctx: Context) -> Seq<(u8, Seq<u8>)>;

/// Log entry: the master key.
pub const LOG_KEY: u8 = 0;

/// Log entry: the master salt.
pub const LOG_SALT: u8 = 1;

/// Log entry: the code of the profile.
pub const LOG_PROFILE: u8 = 2;

/// Log entry: an SRTP packet to decrypt.
pub const LOG_DECRYPT_RTP: u8 = 3;

/// Log entry: an SRTCP packet to decrypt.
pub const LOG_DECRYPT_RTCP: u8 = 4;

/// Log entry: an RTP packet to encrypt.
pub const LOG_ENCRYPT_RTP: u8 = 5;

/// Log entry: an RTCP packet to encrypt.
pub const LOG_ENCRYPT_RTCP: u8 = 6;

/// The log of a context that was just made.
pub open spec fn new_log(key: Seq<u8>, salt: Seq<u8>, profile: ProtectionProfile) -> Seq<
    (u8, Seq<u8>),
> {
    seq![(LOG_KEY, key), (LOG_SALT, salt), (LOG_PROFILE, seq![profile.code()])]
}

/// What `Context::decrypt_rtp` returns for a context with this log: the plain
/// packet, or `None` for any error.
pub uninterp spec fn decrypted_rtp(log: Seq<(u8, Seq<u8>)>, pkt: Seq<u8>) -> Option<Seq<u8>>;

/// What `Context::decrypt_rtcp` returns for a context with this log: the plain
/// packet, or `None` for any error.
pub uninterp spec fn decrypted_rtcp(log: Seq<(u8, Seq<u8>)>, pkt: Seq<u8>) -> Option<Seq<u8>>;

/// What `Context::encrypt_rtp` returns for a context with this log: the
/// protected packet, or `None` for any error.
pub uninterp spec fn encrypted_rtp(log: Seq<(u8, Seq<u8>)>, pkt: Seq<u8>) -> Option<Seq<u8>>;

/// What `Context::encrypt_rtcp` returns for a context with this log: the
/// protected packet, or `None` for any error.
pub uninterp spec fn encrypted_rtcp(log: Seq<(u8, Seq<u8>)>, pkt: Seq<u8>) -> Option<Seq<u8>>;

/// The bytes in an optional packet.
pub open spec fn bytes_of(p: Option<Vec<u8>>) -> Option<Seq<u8>> {
    match p {
        Some(v) => Some(v@),
        None => None,
    }
}

/// Where the elements of a one-byte header extension (RFC 8285) that starts at
/// `cur` and should end at `end` do end; `None` when one runs past the packet.
pub open spec fn one_byte_end(s: Seq<u8>, cur: int, end: int) -> Option<int>
    decreases
            if cur < end {
                end - cur
            } else {
                0
            },
{
    if cur >= end {
        Some(cur)
    } else if s[cur] == 0 {
        one_byte_end(s, cur + 1, end)
    } else if s[cur] / 16 == 15 {
        Some(cur)
    } else if cur + 2 + s[cur] % 16 > s.len() {
        None
    } else {
        one_byte_end(s, cur + 2 + s[cur] % 16, end)
    }
}

/// Where the elements of a two-byte header extension (RFC 8285) that starts at
/// `cur` and should end at `end` do end; `None` when one runs past the packet.
pub open spec fn two_byte_end(s: Seq<u8>, cur: int, end: int) -> Option<int>
    decreases
            if cur < end {
                end - cur
            } else {
                0
            },
{
    if cur >= end {
        Some(cur)
    } else if s[cur] == 0 {
        two_byte_end(s, cur + 1, end)
    } else if cur + 2 > s.len() || cur + 2 + s[cur + 1] > s.len() {
        None
    } else {
        two_byte_end(s, cur + 2 + s[cur + 1], end)
    }
}

/// Where the fixed header of an RTP packet and its contributing sources end.
pub open spec fn sources_end(s: Seq<u8>) -> int {
    12 + 4 * (s[0] % 16)
}

/// The RTP packet has a header extension.
pub open spec fn has_extension(s: Seq<u8>) -> bool {
    s[0] / 16 % 2 == 1
}

/// Where the extension says that it ends.
pub open spec fn extension_end(s: Seq<u8>) -> int {
    sources_end(s) + 4 + 4 * be16(s, sources_end(s) + 2)
}

/// Where the elements of a packet's header extension end.
pub open spec fn elements_end(s: Seq<u8>) -> Option<int> {
    let at = sources_end(s);
    if be16(s, at) == 0xBEDE {
        one_byte_end(s, at + 4, extension_end(s))
    } else if be16(s, at) == 0x1000 {
        two_byte_end(s, at + 4, extension_end(s))
    } else {
        Some(extension_end(s))
    }
}

/// The size of an RTP header in whole words, by its elements; 0 when the
/// packet is too short for what it declares (which a context reports as an
/// error), and `None` when an element runs past the packet (which a context
/// does not survive).
pub open spec fn header_size(s: Seq<u8>) -> Option<int> {
    if s.len() < 4 || s.len() < sources_end(s) {
        Some(0)
    } else if !has_extension(s) {
        Some(sources_end(s))
    } else if s.len() < sources_end(s) + 4 || s.len() < extension_end(s) {
        Some(0)
    } else {
        match elements_end(s) {
            Some(e) => Some(sources_end(s) + 4 + (e - sources_end(s) - 4 + 3) / 4 * 4),
            None => None,
        }
    }
}

/// With fewer packets than this no rollover counter of a context, which has 32
/// bits, is used up.
pub const LOG_LIMIT: u64 = 0xFFFF_FFFF;

/// Which round of the sequence numbers a packet of a stream belongs to, by the
/// index of the packet before it (RFC 3711 section 3.3.1): the round that brings
/// the packet nearest to it, where the first packet is of round 0 and no round
/// is before that.
pub open spec fn rollover_of(index: Option<int>, seq: u16) -> int {
    match index {
        Some(i) => {
            let (round, at) = (i / 0x1_0000, i % 0x1_0000);
            if i <= 0x8000 {
                round
            } else if at < 0x8000 && seq - at > 0x8000 {
                round - 1
            } else if at >= 0x8000 && seq < at - 0x8000 {
                round + 1
            } else {
                round
            }
        },
        None => 0,
    }
}

/// A packet moves its stream on in a context with this log: it was encrypted or
/// opened there. One that fails does not.
pub open spec fn moves(log: Seq<(u8, Seq<u8>)>, entry: (u8, Seq<u8>)) -> bool {
    ||| entry.0 == LOG_ENCRYPT_RTP && encrypted_rtp(log, entry.1) is Some
    ||| entry.0 == LOG_DECRYPT_RTP && decrypted_rtp(log, entry.1) is Some
}

/// The index of the last packet of a stream in a context with this log: its
/// round and its sequence number. `None` before there was one.
pub open spec fn stream_index(log: Seq<(u8, Seq<u8>)>, ssrc: u32) -> Option<int>
    decreases log.len(),
{
    if log.len() <= 3 {
        None
    } else {
        let (front, last) = (log.drop_last(), log.last());
        let before = stream_index(front, ssrc);
        if ssrc_of(last.1) == ssrc && moves(front, last) {
            let seq = sequence_of(last.1);
            Some(rollover_of(before, seq) * 0x1_0000 + seq)
        } else {
            before
        }
    }
}

/// The round in which a context with this log takes packet `seq` of a stream.
pub open spec fn rollover(log: Seq<(u8, Seq<u8>)>, ssrc: u32, seq: u16) -> int {
    rollover_of(stream_index(log, ssrc), seq)
}

/// Two contexts were made from the same key, salt and profile.
pub open spec fn keyed_alike(a: Seq<(u8, Seq<u8>)>, b: Seq<(u8, Seq<u8>)>) -> bool {
    a.len() >= 3 && b.len() >= 3 && a.take(3) == b.take(3)
}

/// A context was made from this key, salt and profile.
pub open spec fn keyed_by(
    log: Seq<(u8, Seq<u8>)>,
    key: Seq<u8>,
    salt: Seq<u8>,
    profile: ProtectionProfile,
) -> bool {
    log.len() >= 3 && log.take(3) == new_log(key, salt, profile)
}

/// A context was made for a profile.
pub open spec fn has_profile(log: Seq<(u8, Seq<u8>)>, profile: ProtectionProfile) -> bool {
    log.len() >= 3 && log[2] == (LOG_PROFILE, seq![profile.code()])
}

/// A context has encrypted or opened no RTP packet under an SSRC: its rollover
/// counter for it has not begun.
pub open spec fn untouched(log: Seq<(u8, Seq<u8>)>, ssrc: u32) -> bool {
    stream_index(log, ssrc) is None
}

/// A context takes the whole header of an RTP packet for one: with an extension,
/// its elements fill it. (Where they end early, a context encrypts the rest of
/// the extension, and the other end does not find the header that there was.)
pub open spec fn has_whole_header(pkt: Seq<u8>) -> bool {
    header_size(pkt) matches Some(n) && (has_extension(pkt) ==> n >= extension_end(pkt))
}

/// An RTP packet with a whole header, that fits a datagram.
pub open spec fn is_datagram(pkt: Seq<u8>) -> bool {
    header_size(pkt) matches Some(n) && n > 0 && pkt.len() <= 0xFFFF
}

/// RTCP of version 2 with a sender, that fits a datagram.
pub open spec fn is_control(pkt: Seq<u8>) -> bool {
    8 <= pkt.len() <= 0xFFFF && pkt[0] / 64 == 2
}

/// Calls `webrtc_srtp::context::Context::new` without replay protection. The
/// claim is that it succeeds exactly on a key and a salt of the profile's
/// lengths, and that the new context has been handed nothing yet.
#[verifier::external_body]
fn raw_context(key: &[u8], salt: &[u8], profile: ProtectionProfile) -> (r: Option<Context>)
    ensures
        r is Some == (key@.len() == profile.spec_key_len() && salt@.len()
            == profile.spec_salt_len()),
        r matches Some(c) ==> context_log(c) == new_log(key@, salt@, profile),
{
    let outside = match profile {
        ProtectionProfile::Aes128CmHmacSha1_80 => Outside::Aes128CmHmacSha1_80,
        ProtectionProfile::Aes128CmHmacSha1_32 => Outside::Aes128CmHmacSha1_32,
        ProtectionProfile::Aes256CmHmacSha1_80 => Outside::Aes256CmHmacSha1_80,
        ProtectionProfile::Aes256CmHmacSha1_32 => Outside::Aes256CmHmacSha1_32,
        ProtectionProfile::AeadAes128Gcm => Outside::AeadAes128Gcm,
        ProtectionProfile::AeadAes256Gcm => Outside::AeadAes256Gcm,
    };
    Context::new(key, salt, outside, None, None).ok()
}

/// Calls `webrtc_srtp::context::Context::decrypt_rtp`, any error as `None`. The
/// claims are that the result depends on the context's log and the packet, that
/// the packet is added to the log, and that a plain packet is no longer than
/// the protected one, holds a whole fixed header and has it unchanged. It
/// panics on a header extension with an element that runs past the packet.
#[verifier::external_body]
fn raw_decrypt_rtp(ctx: &mut Context, pkt: &[u8]) -> (plain: Option<Vec<u8>>)
    requires
        header_size(pkt@) is Some,
    ensures
        bytes_of(plain) == decrypted_rtp(context_log(*old(ctx)), pkt@),
        context_log(*final(ctx)) == context_log(*old(ctx)).push((LOG_DECRYPT_RTP, pkt@)),
        plain matches Some(p) ==> 12 <= p@.len() <= pkt@.len() && p@.take(12) == pkt@.take(12),
{
    match ctx.decrypt_rtp(pkt) {
        Ok(plain) => Some(plain.to_vec()),
        Err(_) => None,
    }
}

/// Calls `webrtc_srtp::context::Context::decrypt_rtcp`, any error as `None`. The
/// claims are that the result depends on the context's log and the packet; that
/// the packet is added to the log; and that one which is not marked as encrypted
/// comes back as what stands before its index, where the profile is no AEAD. It
/// panics on a packet that is shorter than an index and the longest tag that
/// follows one.
#[verifier::external_body]
fn raw_decrypt_rtcp(ctx: &mut Context, pkt: &[u8]) -> (plain: Option<Vec<u8>>)
    requires
        pkt@.len() >= 14,
    ensures
        bytes_of(plain) == decrypted_rtcp(context_log(*old(ctx)), pkt@),
        context_log(*final(ctx)) == context_log(*old(ctx)).push((LOG_DECRYPT_RTCP, pkt@)),
        forall|profile: ProtectionProfile| #[trigger]
            has_profile(context_log(*old(ctx)), profile) && is_bare(pkt@, profile) ==> bytes_of(
                plain,
            ) == Some(pkt@.take(index_at(pkt@, profile))),
{
    match ctx.decrypt_rtcp(pkt) {
        Ok(plain) => Some(plain.to_vec()),
        Err(_) => None,
    }
}

/// Calls `webrtc_srtp::context::Context::encrypt_rtp`, any error as `None`. The
/// claims are that the result depends on the context's log and the packet; that
/// the packet is added to the log; that it succeeds on a packet with a whole
/// header that fits a datagram, in a context that has been handed fewer than
/// `LOG_LIMIT` packets (the rollover counter of none of its streams can be used
/// up); that the header stays; and that a packet whose header is taken whole is
/// opened by a context with the same key, salt and profile that takes it in the
/// same round (`next_rollover_count` is `rollover_of`, and a packet that fails
/// changes no counter). It panics on a header extension with an element that
/// runs past the packet, and on a header that is larger than the packet once it
/// is filled up to a word.
#[verifier::external_body]
fn raw_encrypt_rtp(ctx: &mut Context, pkt: &[u8]) -> (out: Option<Vec<u8>>)
    requires
        is_sealable(pkt@),
    ensures
        bytes_of(out) == encrypted_rtp(context_log(*old(ctx)), pkt@),
        context_log(*final(ctx)) == context_log(*old(ctx)).push((LOG_ENCRYPT_RTP, pkt@)),
        is_datagram(pkt@) && context_log(*old(ctx)).len() < LOG_LIMIT ==> out is Some,
        out matches Some(c) ==> 12 <= header_size(pkt@)->0 <= pkt@.len() <= c@.len() && c@.take(
            header_size(pkt@)->0,
        ) == pkt@.take(header_size(pkt@)->0),
        out matches Some(c) ==> has_whole_header(pkt@) && context_log(*old(ctx)).len() < LOG_LIMIT
            ==> forall|log: Seq<(u8, Seq<u8>)>|
            keyed_alike(log, context_log(*old(ctx))) && log.len() < LOG_LIMIT && rollover(
                log,
                ssrc_of(pkt@),
                sequence_of(pkt@),
            ) == rollover(context_log(*old(ctx)), ssrc_of(pkt@), sequence_of(pkt@))
                ==> #[trigger] decrypted_rtp(log, c@) == Some(pkt@),
{
    match ctx.encrypt_rtp(pkt) {
        Ok(out) => Some(out.to_vec()),
        Err(_) => None,
    }
}

/// Calls `webrtc_srtp::context::Context::encrypt_rtcp`, any error as `None`. The
/// claims are that the result depends on the context's log and the packet; that
/// the packet is added to the log; that it succeeds on a datagram of version 2
/// with a sender; that the header and the sender stay; and that the result has
/// the length and the mark of SRTCP and is opened by every context with the
/// same key, salt and profile (the index is in the packet).
#[verifier::external_body]
fn raw_encrypt_rtcp(ctx: &mut Context, pkt: &[u8]) -> (out: Option<Vec<u8>>)
    ensures
        bytes_of(out) == encrypted_rtcp(context_log(*old(ctx)), pkt@),
        context_log(*final(ctx)) == context_log(*old(ctx)).push((LOG_ENCRYPT_RTCP, pkt@)),
        is_control(pkt@) ==> out is Some,
        out matches Some(c) ==> 8 <= pkt@.len() <= c@.len() && c@.take(8) == pkt@.take(8),
        out matches Some(c) ==> forall|profile: ProtectionProfile|
            has_profile(context_log(*old(ctx)), profile) ==> #[trigger] is_marked(
                c@,
                Some(profile),
            ),
        out matches Some(c) ==> forall|log: Seq<(u8, Seq<u8>)>|
            keyed_alike(log, context_log(*old(ctx))) ==> #[trigger] decrypted_rtcp(log, c@) == Some(
                pkt@,
            ),
{
    match ctx.encrypt_rtcp(pkt) {
        Ok(out) => Some(out.to_vec()),
        Err(_) => None,
    }
}

/// `one_byte_end`, on a packet that holds the extension.
fn scan_one_byte(pkt: &[u8], from: usize, end: usize) -> (r: Option<usize>)
    requires
        from <= end <= pkt@.len(),
    ensures
        match r {
            Some(e) => one_byte_end(pkt@, from as int, end as int) == Some(e as int),
            None => one_byte_end(pkt@, from as int, end as int) is None,
        },
        r matches Some(e) ==> from <= e <= pkt@.len(),
{
    let mut cur: usize = from;
    while cur < end
        invariant
            from <= cur <= pkt@.len(),
            end <= pkt@.len(),
                one_byte_end(pkt@, from as int, end as int) == one_byte_end(
                pkt@,
                cur as int,
                end as int,
            ),
        decreases pkt@.len() - cur,
    {
        let b: u8 = pkt[cur];
        if b == 0 {
            cur += 1;
        } else if b / 16 == 15 {
            return Some(cur);
        } else {
            let size: usize = 2 + (b % 16) as usize;
            if pkt.len() - cur < size {
                return None;
            }
            cur += size;
        }
    }
    Some(cur)
}

/// `two_byte_end`, on a packet that holds the extension.
fn scan_two_byte(pkt: &[u8], from: usize, end: usize) -> (r: Option<usize>)
    requires
        from <= end <= pkt@.len(),
    ensures
        match r {
            Some(e) => two_byte_end(pkt@, from as int, end as int) == Some(e as int),
            None => two_byte_end(pkt@, from as int, end as int) is None,
        },
        r matches Some(e) ==> from <= e <= pkt@.len(),
{
    let mut cur: usize = from;
    while cur < end
        invariant
            from <= cur <= pkt@.len(),
            end <= pkt@.len(),
                two_byte_end(pkt@, from as int, end as int) == two_byte_end(
                pkt@,
                cur as int,
                end as int,
            ),
        decreases pkt@.len() - cur,
    {
        if pkt[cur] == 0 {
            cur += 1;
        } else if pkt.len() - cur < 2 {
            return None;
        } else {
            let size: usize = 2 + pkt[cur + 1] as usize;
            if pkt.len() - cur < size {
                return None;
            }
            cur += size;
        }
    }
    Some(cur)
}

/// The size of an RTP header by its elements, as where they end and what fills
/// the last word.
fn rtp_header_size(pkt: &[u8]) -> (r: Option<(usize, usize)>)
    ensures
        match r {
            Some((end, fill)) => header_size(pkt@) == Some(end + fill) && end <= pkt@.len(),
            None => header_size(pkt@) is None,
        },
{
    if pkt.len() < 4 {
        return Some((0, 0));
    }
    let at: usize = 12 + 4 * (pkt[0] % 16) as usize;
    if pkt.len() < at {
        return Some((0, 0));
    }
    if pkt[0] / 16 % 2 == 0 {
        return Some((at, 0));
    }
    if pkt.len() < at + 4 {
        return Some((0, 0));
    }
    let profile: u16 = read_u16(pkt, at);
    let end: usize = at + 4 + 4 * read_u16(pkt, at + 2) as usize;
    if pkt.len() < end {
        return Some((0, 0));
    }
    let elements: Option<usize> = if profile == 0xBEDE {
        scan_one_byte(pkt, at + 4, end)
    } else if profile == 0x1000 {
        scan_two_byte(pkt, at + 4, end)
    } else {
        Some(end)
    };
    match elements {
        Some(e) => Some((e, (4 - (e - at - 4) % 4) % 4)),
        None => None,
    }
}

/// What decrypting an RTP packet gives on a context with this log: nothing for
/// one that no context is handed.
pub open spec fn opened_rtp(log: Seq<(u8, Seq<u8>)>, pkt: Seq<u8>) -> Option<Seq<u8>> {
    if header_size(pkt) is Some {
        decrypted_rtp(log, pkt)
    } else {
        None
    }
}

/// The log after an RTP packet was decrypted, or tried.
pub open spec fn log_after_rtp(log: Seq<(u8, Seq<u8>)>, pkt: Seq<u8>) -> Seq<(u8, Seq<u8>)> {
    if header_size(pkt) is Some {
        log.push((LOG_DECRYPT_RTP, pkt))
    } else {
        log
    }
}

/// An RTP packet is handed to a context for encryption: its header is within
/// it.
pub open spec fn is_sealable(pkt: Seq<u8>) -> bool {
    header_size(pkt) matches Some(n) && n <= pkt.len()
}

/// What encrypting an RTP packet gives on a context with this log: nothing for
/// one that no context is handed.
pub open spec fn sealed_rtp(log: Seq<(u8, Seq<u8>)>, pkt: Seq<u8>) -> Option<Seq<u8>> {
    if is_sealable(pkt) {
        encrypted_rtp(log, pkt)
    } else {
        None
    }
}

/// The log after an RTP packet was encrypted, or tried.
pub open spec fn log_after_sealing(log: Seq<(u8, Seq<u8>)>, pkt: Seq<u8>) -> Seq<(u8, Seq<u8>)> {
    if is_sealable(pkt) {
        log.push((LOG_ENCRYPT_RTP, pkt))
    } else {
        log
    }
}

/// A new context without replay protection; `None` when the key or the salt is
/// not of the profile's length.
pub fn new_context(key: &[u8], salt: &[u8], profile: ProtectionProfile) -> (r: Option<Context>)
    ensures
        r is Some == (key@.len() == profile.spec_key_len() && salt@.len()
            == profile.spec_salt_len()),
        r matches Some(c) ==> context_log(c) == new_log(key@, salt@, profile),
{
    raw_context(key, salt, profile)
}

/// Decrypts an SRTP packet. One whose header extension runs past its end is not
/// handed to the context.
pub fn decrypt_rtp(ctx: &mut Context, pkt: &[u8]) -> (plain: Option<Vec<u8>>)
    ensures
        bytes_of(plain) == opened_rtp(context_log(*old(ctx)), pkt@),
        context_log(*final(ctx)) == log_after_rtp(context_log(*old(ctx)), pkt@),
        plain matches Some(p) ==> 12 <= p@.len() <= pkt@.len() && p@.take(12) == pkt@.take(12),
{
    if rtp_header_size(pkt).is_none() {
        return None;
    }
    raw_decrypt_rtp(ctx, pkt)
}

/// A protected packet is genuine, of a round of its stream: every context with
/// this key, salt and profile that takes it in that round opens it, as `plain`.
pub open spec fn genuine_rtp(
    pkt: Seq<u8>,
    plain: Seq<u8>,
    key: Seq<u8>,
    salt: Seq<u8>,
    profile: ProtectionProfile,
    round: int,
) -> bool {
    forall|log: Seq<(u8, Seq<u8>)>|
        keyed_by(log, key, salt, profile) && log.len() < LOG_LIMIT && rollover(
            log,
            ssrc_of(pkt),
            sequence_of(pkt),
        ) == round ==> #[trigger] opened_rtp(log, pkt) == Some(plain)
}

/// A protected control packet is genuine: it is marked as encrypted, and every
/// context with this key, salt and profile opens it, as `plain`.
pub open spec fn genuine_rtcp(
    pkt: Seq<u8>,
    plain: Seq<u8>,
    key: Seq<u8>,
    salt: Seq<u8>,
    profile: ProtectionProfile,
) -> bool {
    &&& is_marked(pkt, Some(profile))
    &&& forall|log: Seq<(u8, Seq<u8>)>|
        keyed_by(log, key, salt, profile) ==> #[trigger] opened_rtcp(log, pkt, Some(profile))
            == Some(plain)
}

/// Where a context with this log made `out` of an RTP packet whose header is
/// taken whole, `out` is genuine, of the round that the context takes it in.
pub open spec fn protects_rtp(
    log: Seq<(u8, Seq<u8>)>,
    pkt: Seq<u8>,
    out: Option<Seq<u8>>,
) -> bool {
    out is Some && has_whole_header(pkt) && log.len() < LOG_LIMIT ==> forall|
        key: Seq<u8>,
        salt: Seq<u8>,
        profile: ProtectionProfile,
    | #[trigger]
        keyed_by(log, key, salt, profile) ==> genuine_rtp(
            out->0,
            pkt,
            key,
            salt,
            profile,
            rollover(log, ssrc_of(pkt), sequence_of(pkt)),
        )
}

/// Where a context with this log made `out` of an RTCP packet, `out` is
/// genuine.
pub open spec fn protects_rtcp(
    log: Seq<(u8, Seq<u8>)>,
    pkt: Seq<u8>,
    out: Option<Seq<u8>>,
) -> bool {
    out is Some ==> forall|key: Seq<u8>, salt: Seq<u8>, profile: ProtectionProfile| #[trigger]
        keyed_by(log, key, salt, profile) ==> genuine_rtcp(out->0, pkt, key, salt, profile)
}

/// Encrypts an RTP packet. One whose header runs past its end is not handed to
/// the context. What comes out of one whose header is taken whole is genuine.
pub fn encrypt_rtp(ctx: &mut Context, pkt: &[u8]) -> (out: Option<Vec<u8>>)
    ensures
        bytes_of(out) == sealed_rtp(context_log(*old(ctx)), pkt@),
        context_log(*final(ctx)) == log_after_sealing(context_log(*old(ctx)), pkt@),
        is_sealable(pkt@) && is_datagram(pkt@) && context_log(*old(ctx)).len() < LOG_LIMIT
            ==> out is Some,
        out matches Some(c) ==> 12 <= pkt@.len() <= c@.len() && c@.take(12) == pkt@.take(12),
        protects_rtp(context_log(*old(ctx)), pkt@, bytes_of(out)),
{
    match rtp_header_size(pkt) {
        Some((end, fill)) => {
            if pkt.len() - end < fill {
                return None;
            }
        },
        None => {
            return None;
        },
    }
    let out = raw_encrypt_rtp(ctx, pkt);
    proof {
        let before = context_log(*old(ctx));
        if out is Some {
            let (n, c) = (header_size(pkt@)->0, out->0@);
            assert(c.take(12) =~= c.take(n).take(12));
            assert(pkt@.take(12) =~= pkt@.take(n).take(12));
            lemma_same_stream(pkt@, c);
            if has_whole_header(pkt@) && before.len() < LOG_LIMIT {
                lemma_whole_header(pkt@, c, n);
                let round = rollover(before, ssrc_of(pkt@), sequence_of(pkt@));
                assert forall|key: Seq<u8>, salt: Seq<u8>, profile: ProtectionProfile| #[trigger]
                    keyed_by(before, key, salt, profile) implies genuine_rtp(
                    c,
                    pkt@,
                    key,
                    salt,
                    profile,
                    round,
                ) by {
                    assert forall|log: Seq<(u8, Seq<u8>)>|
                        keyed_by(log, key, salt, profile) && log.len() < LOG_LIMIT && rollover(
                            log,
                            ssrc_of(c),
                            sequence_of(c),
                        ) == round implies #[trigger] opened_rtp(log, c) == Some(pkt@) by {
                        assert(keyed_alike(log, before));
                        assert(decrypted_rtp(log, c) == Some(pkt@));
                    }
                }
            }
        }
    }
    out
}

/// Packets with the same fixed header are of the same stream, and have the same
/// number in it.
pub proof fn lemma_same_stream(a: Seq<u8>, b: Seq<u8>)
    requires
        12 <= a.len(),
        12 <= b.len(),
        b.take(12) == a.take(12),
    ensures
        ssrc_of(b) == ssrc_of(a),
        sequence_of(b) == sequence_of(a),
{
    reveal(crate::wire::be32);
    assert forall|i: int| 0 <= i < 12 implies a[i] == b[i] by {
        assert(a[i] == a.take(12)[i]);
        assert(b[i] == b.take(12)[i]);
    }
}

proof fn lemma_one_byte_same(a: Seq<u8>, b: Seq<u8>, n: int, cur: int, end: int)
    requires
        0 <= cur,
        0 <= end <= n <= a.len() <= b.len(),
        b.take(n) == a.take(n),
        one_byte_end(a, cur, end) is Some,
    ensures
        one_byte_end(b, cur, end) == one_byte_end(a, cur, end),
    decreases
            if cur < end {
                end - cur
            } else {
                0
            },
{
    if cur < end {
        assert(a[cur] == a.take(n)[cur] && b[cur] == b.take(n)[cur]);
        if a[cur] == 0 {
            lemma_one_byte_same(a, b, n, cur + 1, end);
        } else if a[cur] / 16 != 15 {
            lemma_one_byte_same(a, b, n, cur + 2 + a[cur] % 16, end);
        }
    }
}

/// Elements of two bytes' header that end inside `n` are read the same where the
/// packets agree up to there.
proof fn lemma_two_byte_same(a: Seq<u8>, b: Seq<u8>, n: int, cur: int, end: int)
    requires
        0 <= cur,
        0 <= end <= n <= a.len() <= b.len(),
        b.take(n) == a.take(n),
        two_byte_end(a, cur, end) matches Some(e) && e <= n,
    ensures
        two_byte_end(b, cur, end) == two_byte_end(a, cur, end),
    decreases
            if cur < end {
                end - cur
            } else {
                0
            },
{
    if cur < end {
        assert(a[cur] == a.take(n)[cur] && b[cur] == b.take(n)[cur]);
        if a[cur] == 0 {
            lemma_two_byte_same(a, b, n, cur + 1, end);
        } else {
            lemma_two_byte_ends_behind(a, cur + 2 + a[cur + 1], end);
            assert(cur + 2 <= n);
            assert(a[cur + 1] == a.take(n)[cur + 1] && b[cur + 1] == b.take(n)[cur + 1]);
            lemma_two_byte_same(a, b, n, cur + 2 + a[cur + 1], end);
        }
    }
}

proof fn lemma_two_byte_ends_behind(s: Seq<u8>, cur: int, end: int)
    requires
        0 <= cur,
        two_byte_end(s, cur, end) is Some,
    ensures
        two_byte_end(s, cur, end)->0 >= cur,
    decreases
            if cur < end {
                end - cur
            } else {
                0
            },
{
    if cur < end {
        if s[cur] == 0 {
            lemma_two_byte_ends_behind(s, cur + 1, end);
        } else {
            lemma_two_byte_ends_behind(s, cur + 2 + s[cur + 1], end);
        }
    }
}

/// A longer packet with the same header, where that is taken whole, has a header
/// of the same size.
proof fn lemma_whole_header(a: Seq<u8>, b: Seq<u8>, n: int)
    requires
        has_whole_header(a),
        header_size(a) == Some(n),
        12 <= n <= a.len() <= b.len(),
        b.take(n) == a.take(n),
    ensures
        header_size(b) == Some(n),
{
    assert forall|i: int| 0 <= i < n implies a[i] == b[i] by {
        assert(a[i] == a.take(n)[i]);
        assert(b[i] == b.take(n)[i]);
    }
    if has_extension(a) {
        let at = sources_end(a);
        let end = extension_end(a);
        assert(be16(b, at) == be16(a, at) && be16(b, at + 2) == be16(a, at + 2));
        if be16(a, at) == 0xBEDE {
            lemma_one_byte_same(a, b, n, at + 4, end);
        } else if be16(a, at) == 0x1000 {
            lemma_two_byte_same(a, b, n, at + 4, end);
        }
    }
}

/// The round is found for every packet that is less than half a round away from
/// the one before it, whatever was lost or came out of order between.
pub proof fn lemma_round_is_found(index: int, next: int)
    requires
        0 <= index,
        0 <= next,
        -0x8000 < next - index < 0x8000,
    ensures
        rollover_of(Some(index), (next % 0x1_0000) as u16) == next / 0x1_0000,
{
}

/// Two contexts that are at one place of a stream are at one place again after
/// one has encrypted a packet of it and the other has opened what came of that.
pub proof fn lemma_contexts_stay_in_step(
    near: Seq<(u8, Seq<u8>)>,
    far: Seq<(u8, Seq<u8>)>,
    pkt: Seq<u8>,
    sent: Seq<u8>,
)
    requires
        near.len() >= 3,
        far.len() >= 3,
        12 <= pkt.len(),
        12 <= sent.len(),
        sent.take(12) == pkt.take(12),
        encrypted_rtp(near, pkt) is Some,
        decrypted_rtp(far, sent) is Some,
        stream_index(near, ssrc_of(pkt)) == stream_index(far, ssrc_of(pkt)),
    ensures
        stream_index(near.push((LOG_ENCRYPT_RTP, pkt)), ssrc_of(pkt)) == stream_index(
            far.push((LOG_DECRYPT_RTP, sent)),
            ssrc_of(pkt),
        ),
{
    lemma_same_stream(pkt, sent);
    assert(near.push((LOG_ENCRYPT_RTP, pkt)).drop_last() =~= near);
    assert(far.push((LOG_DECRYPT_RTP, sent)).drop_last() =~= far);
}

/// What a slot for a context has been handed, where it holds one.
pub open spec fn slot_log(slot: Option<Context>) -> Option<Seq<(u8, Seq<u8>)>> {
    match slot {
        Some(ctx) => Some(context_log(ctx)),
        None => None,
    }
}

/// The shortest SRTCP packet of a profile: a header with its sender, the index,
/// and the tags.
pub open spec fn spec_srtcp_min_len(profile: ProtectionProfile) -> int {
    8 + 4 + profile.spec_rtcp_auth_tag_len() + profile.spec_aead_auth_tag_len()
}

/// Where the word with the E flag and the index of an SRTCP packet starts.
pub open spec fn index_at(pkt: Seq<u8>, profile: ProtectionProfile) -> int {
    pkt.len() - profile.spec_rtcp_auth_tag_len() - 4
}

/// A packet is handed to an SRTCP context: the profile is known, and the packet
/// is long enough for it.
pub open spec fn is_srtcp(pkt: Seq<u8>, profile: Option<ProtectionProfile>) -> bool {
    match profile {
        Some(p) => pkt.len() >= spec_srtcp_min_len(p),
        None => false,
    }
}

/// The packet is marked as encrypted: its E flag is set. One that is not says
/// nothing of who sent it.
pub open spec fn is_marked(pkt: Seq<u8>, profile: Option<ProtectionProfile>) -> bool {
    is_srtcp(pkt, profile) && pkt[index_at(pkt, profile->0)] >= 128
}

/// SRTCP of version 2 that is not marked as encrypted, under a profile whose tag
/// stands apart: a context hands it back without looking at the tag.
pub open spec fn is_bare(pkt: Seq<u8>, profile: ProtectionProfile) -> bool {
    &&& is_srtcp(pkt, Some(profile)) && !is_marked(pkt, Some(profile))
    &&& profile.spec_aead_auth_tag_len() == 0
    &&& pkt[0] / 64 == 2
}

/// What decrypting an RTCP packet gives on a context with this log: nothing for
/// one that no context is handed.
pub open spec fn opened_rtcp(
    log: Seq<(u8, Seq<u8>)>,
    pkt: Seq<u8>,
    profile: Option<ProtectionProfile>,
) -> Option<Seq<u8>> {
    if is_srtcp(pkt, profile) {
        decrypted_rtcp(log, pkt)
    } else {
        None
    }
}

/// The log after an RTCP packet was decrypted, or tried.
pub open spec fn log_after_rtcp(
    log: Seq<(u8, Seq<u8>)>,
    pkt: Seq<u8>,
    profile: Option<ProtectionProfile>,
) -> Seq<(u8, Seq<u8>)> {
    if is_srtcp(pkt, profile) {
        log.push((LOG_DECRYPT_RTCP, pkt))
    } else {
        log
    }
}

/// The shortest SRTCP packet of a profile.
pub fn srtcp_min_len(profile: ProtectionProfile) -> (r: usize)
    ensures
        r == spec_srtcp_min_len(profile),
        r >= 22,
{
    8 + 4 + profile.rtcp_auth_tag_len() + profile.aead_auth_tag_len()
}

/// Is the packet marked as encrypted?
pub fn marked(pkt: &[u8], profile: Option<ProtectionProfile>) -> (r: bool)
    ensures
        r == is_marked(pkt@, profile),
{
    match profile {
        Some(p) => {
            pkt.len() >= srtcp_min_len(p) && pkt[pkt.len() - p.rtcp_auth_tag_len() - 4] >= 128
        },
        None => false,
    }
}

/// Decrypts an SRTCP packet. One that is too short for the profile is not handed
/// to the context. One that is not marked as encrypted may come back as it is:
/// where it matters who sent a packet, `marked` is to be asked too.
pub fn decrypt_rtcp_checked(
    ctx: &mut Context,
    pkt: &[u8],
    profile: Option<ProtectionProfile>,
) -> (plain: Option<Vec<u8>>)
    ensures
        bytes_of(plain) == opened_rtcp(context_log(*old(ctx)), pkt@, profile),
        context_log(*final(ctx)) == log_after_rtcp(context_log(*old(ctx)), pkt@, profile),
        profile matches Some(p) ==> (has_profile(context_log(*old(ctx)), p) && is_bare(pkt@, p)
            ==> bytes_of(plain) == Some(pkt@.take(index_at(pkt@, p)))),
{
    match profile {
        Some(p) => {
            if pkt.len() < srtcp_min_len(p) {
                return None;
            }
            raw_decrypt_rtcp(ctx, pkt)
        },
        None => None,
    }
}

/// Encrypts an RTCP packet. What comes out is genuine.
pub fn encrypt_rtcp(ctx: &mut Context, pkt: &[u8]) -> (out: Option<Vec<u8>>)
    ensures
        bytes_of(out) == encrypted_rtcp(context_log(*old(ctx)), pkt@),
        context_log(*final(ctx)) == context_log(*old(ctx)).push((LOG_ENCRYPT_RTCP, pkt@)),
        is_control(pkt@) ==> out is Some,
        protects_rtcp(context_log(*old(ctx)), pkt@, bytes_of(out)),
{
    let out = raw_encrypt_rtcp(ctx, pkt);
    proof {
        let before = context_log(*old(ctx));
        if out is Some {
            assert forall|key: Seq<u8>, salt: Seq<u8>, profile: ProtectionProfile|
                #[trigger] keyed_by(before, key, salt, profile) implies genuine_rtcp(
                out->0@,
                pkt@,
                key,
                salt,
                profile,
            ) by {
                assert(before[2] == before.take(3)[2]);
                assert(has_profile(before, profile));
                assert(is_marked(out->0@, Some(profile)));
                assert forall|log: Seq<(u8, Seq<u8>)>|
                    keyed_by(log, key, salt, profile) implies #[trigger] opened_rtcp(
                    log,
                    out->0@,
                    Some(profile),
                ) == Some(pkt@) by {
                    assert(keyed_alike(log, before));
                    assert(decrypted_rtcp(log, out->0@) == Some(pkt@));
                }
            }
        }
    }
    out
}

} // verus!
