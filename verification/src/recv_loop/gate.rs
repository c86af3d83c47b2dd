//! Bounds on the per-SSRC state of a relay leg's inbound contexts.
use vstd::prelude::*;
use std::collections::HashSet;
use webrtc_srtp::context::Context;

use crate::dtls_session::{remote_srtp_params, SrtpKeyingMaterial};
use crate::srtp::{bytes_of, context_log, log_after_rtcp, log_after_rtp, new_log};
use crate::srtp::{decrypt_rtcp_checked, decrypt_rtp, new_context, ProtectionProfile};
use crate::srtp::{genuine_rtcp, genuine_rtp, keyed_by, opened_rtcp, opened_rtp, slot_log};
use crate::srtp::{is_marked, marked, rollover, untouched, LOG_LIMIT};
use crate::rtp::{sequence_of, ssrc_of};
use vstd::slice::slice_to_vec;

verus! {

broadcast use vstd::std_specs::hash::group_hash_axioms;

/// Most SSRCs that a relay leg's real context is allowed to hold.
pub const GATE_MAX_TRUSTED: usize = 64;

/// SSRCs that a probe context holds before it is thrown away and rebuilt.
pub const GATE_MAX_PROBED: usize = 64;

/// What is decrypted.
#[derive(Debug, Clone, Copy)]
pub enum Protected {
    /// SRTP.
    Rtp,
    /// SRTCP of a profile, where it is known. What is not marked as encrypted is
    /// no such packet: a context would hand it back without looking at its tag.
    Rtcp(Option<ProtectionProfile>),
}

impl Protected {
    /// What decrypting a packet gives on a context with this log.
    pub open spec fn opened(self, log: Seq<(u8, Seq<u8>)>, pkt: Seq<u8>) -> Option<Seq<u8>> {
        match self {
            Protected::Rtp => opened_rtp(log, pkt),
            Protected::Rtcp(profile) => if is_marked(pkt, profile) {
                opened_rtcp(log, pkt, profile)
            } else {
                None
            },
        }
    }

    /// The log after a packet was decrypted, or tried.
    pub open spec fn log_after(self, log: Seq<(u8, Seq<u8>)>, pkt: Seq<u8>) -> Seq<(u8, Seq<u8>)> {
        match self {
            Protected::Rtp => log_after_rtp(log, pkt),
            Protected::Rtcp(profile) => if is_marked(pkt, profile) {
                log_after_rtcp(log, pkt, profile)
            } else {
                log
            },
        }
    }

    /// Decrypts a packet.
    fn decrypt(self, ctx: &mut Context, pkt: &[u8]) -> (plain: Option<Vec<u8>>)
        ensures
            bytes_of(plain) == self.opened(context_log(*old(ctx)), pkt@),
            context_log(*final(ctx)) == self.log_after(context_log(*old(ctx)), pkt@),
            self is Rtp ==> (plain matches Some(p) ==> 12 <= p@.len() <= pkt@.len() && p@.take(12)
                == pkt@.take(12)),
    {
        match self {
            Protected::Rtp => decrypt_rtp(ctx, pkt),
            Protected::Rtcp(profile) => {
                if !marked(pkt, profile) {
                    return None;
                }
                decrypt_rtcp_checked(ctx, pkt, profile)
            },
        }
    }
}

/// Bounds the per-SSRC state that a context keeps for a relay leg. A context
/// makes an SSRC's state on the first attempt to decrypt, before the packet
/// authenticates, and never drops it. So a packet under an SSRC that has not
/// authenticated yet is first tried on a throwaway probe context, which is
/// rebuilt after `GATE_MAX_PROBED` SSRCs, and only once it authenticates there
/// is it handed to the real one. One gate per context: RTP and RTCP SSRCs are
/// separate spaces.
pub struct SsrcGate {
    key: Vec<u8>,
    salt: Vec<u8>,
    profile: ProtectionProfile,
    probe: Option<Context>,
    probed: HashSet<u32>,
    trusted: HashSet<u32>,
}

/// The state of an `SsrcGate`.
pub struct Gate {
    pub key: Seq<u8>,
    pub salt: Seq<u8>,
    pub profile: ProtectionProfile,
    /// The log of the probe context, where there is one.
    pub probe: Option<Seq<(u8, Seq<u8>)>>,
    /// The SSRCs that the probe context has been handed.
    pub probed: Set<u32>,
    /// The SSRCs that have authenticated.
    pub trusted: Set<u32>,
}

impl View for SsrcGate {
    type V = Gate;

    closed spec fn view(&self) -> Gate {
        Gate {
            key: self.key@,
            salt: self.salt@,
            profile: self.profile,
            probe: slot_log(self.probe),
            probed: self.probed@,
            trusted: self.trusted@,
        }
    }
}

impl Gate {
    /// A gate for the packets that the remote side of `keys` protects.
    pub open spec fn new(keys: SrtpKeyingMaterial) -> Gate {
        Gate {
            key: keys.remote_key(),
            salt: keys.remote_salt(),
            profile: keys.profile,
            probe: None,
            probed: Set::empty(),
            trusted: Set::empty(),
        }
    }

    /// What holds of every gate: both sets are bounded, and the probe context
    /// was made from the key, the salt and the profile.
    pub open spec fn inv(self) -> bool {
        &&& self.probed.finite() && self.probed.len() <= GATE_MAX_PROBED
        &&& self.trusted.finite() && self.trusted.len() <= GATE_MAX_TRUSTED
        &&& self.probe matches Some(log) ==> keyed_by(log, self.key, self.salt, self.profile)
    }

    /// The key and the salt have the lengths of the profile.
    pub open spec fn fits(self) -> bool {
        self.key.len() == self.profile.spec_key_len() && self.salt.len()
            == self.profile.spec_salt_len()
    }

    /// The probe context has opened nothing of a stream.
    pub open spec fn new_to_probe(self, ssrc: u32) -> bool {
        self.probe matches Some(log) ==> untouched(log, ssrc)
    }

    /// A gate that is about to probe an SSRC. When the probe context holds as
    /// many as it may, and not this one, it starts over; where there is none it
    /// is made.
    pub open spec fn ready(self, ssrc: u32) -> Gate {
        let old = if self.probed.len() >= GATE_MAX_PROBED && !self.probed.contains(ssrc) {
            Gate { probe: None, probed: Set::empty(), ..self }
        } else {
            self
        };
        Gate {
            probe: if old.probe is None && old.fits() {
                Some(new_log(old.key, old.salt, old.profile))
            } else {
                old.probe
            },
            ..old
        }
    }

    /// A packet under an SSRC is tried on the probe context: this gate then, and
    /// whether the packet authenticated.
    pub open spec fn probing(self, ssrc: u32, pkt: Seq<u8>, kind: Protected) -> (Gate, bool) {
        let g = self.ready(ssrc);
        match g.probe {
            Some(log) => (
                Gate {
                    probe: Some(kind.log_after(log, pkt)),
                    probed: g.probed.insert(ssrc),
                    ..g
                },
                kind.opened(log, pkt) is Some,
            ),
            None => (g, false),
        }
    }

    /// This gate after a packet, and whether it lets the packet through to the
    /// real context: under a trusted SSRC always; else where there is room for
    /// one more and the probe authenticates it.
    pub open spec fn passing(self, ssrc: u32, pkt: Seq<u8>, kind: Protected) -> (Gate, bool) {
        if self.trusted.contains(ssrc) {
            (self, true)
        } else if self.trusted.len() >= GATE_MAX_TRUSTED {
            (self, false)
        } else {
            self.probing(ssrc, pkt, kind)
        }
    }

    /// What a packet gives behind this gate, on a real context with this log.
    pub open spec fn opened(
        self,
        log: Seq<(u8, Seq<u8>)>,
        ssrc: u32,
        pkt: Seq<u8>,
        kind: Protected,
    ) -> Option<Seq<u8>> {
        if self.passing(ssrc, pkt, kind).1 {
            kind.opened(log, pkt)
        } else {
            None
        }
    }

    /// The log of the real context after a packet.
    pub open spec fn log_after(
        self,
        log: Seq<(u8, Seq<u8>)>,
        ssrc: u32,
        pkt: Seq<u8>,
        kind: Protected,
    ) -> Seq<(u8, Seq<u8>)> {
        if self.passing(ssrc, pkt, kind).1 {
            kind.log_after(log, pkt)
        } else {
            log
        }
    }

    /// This gate after a packet, with a real context that has this log. An SSRC
    /// is trusted once a packet of it decrypted there.
    pub open spec fn after(
        self,
        log: Seq<(u8, Seq<u8>)>,
        ssrc: u32,
        pkt: Seq<u8>,
        kind: Protected,
    ) -> Gate {
        let g = self.passing(ssrc, pkt, kind).0;
        if self.opened(log, ssrc, pkt, kind) is Some {
            Gate { trusted: g.trusted.insert(ssrc), ..g }
        } else {
            g
        }
    }
}

impl SsrcGate {
    /// A gate for the packets that the remote side of `keys` protects.
    pub fn new(keys: &SrtpKeyingMaterial) -> (r: Self)
        ensures
            r@ == Gate::new(*keys),
            r@.inv(),
    {
        let (key, salt, profile) = remote_srtp_params(keys);
        SsrcGate {
            key: slice_to_vec(key),
            salt: slice_to_vec(salt),
            profile,
            probe: None,
            probed: HashSet::new(),
            trusted: HashSet::new(),
        }
    }

    /// Has this SSRC authenticated?
    pub fn trusts(&self, ssrc: u32) -> (r: bool)
        ensures
            r == self@.trusted.contains(ssrc),
    {
        self.trusted.contains(&ssrc)
    }

    /// How many SSRCs have authenticated.
    pub fn trusted_count(&self) -> (r: usize)
        ensures
            r == self@.trusted.len(),
    {
        self.trusted.len()
    }

    /// How many SSRCs the probe context has been handed.
    pub fn probed_count(&self) -> (r: usize)
        ensures
            r == self@.probed.len(),
    {
        self.probed.len()
    }

    /// Decrypts `pkt` (under `ssrc`) with the leg's real context `ctx`, by way
    /// of the probe context first if `ssrc` has not authenticated before.
    /// `None` on any failure.
    pub fn decrypt(
        &mut self,
        ctx: &mut Context,
        ssrc: u32,
        pkt: &[u8],
        kind: Protected,
    ) -> (plain: Option<Vec<u8>>)
        ensures
            bytes_of(plain) == old(self)@.opened(context_log(*old(ctx)), ssrc, pkt@, kind),
            context_log(*final(ctx)) == old(self)@.log_after(
                context_log(*old(ctx)),
                ssrc,
                pkt@,
                kind,
            ),
            final(self)@ == old(self)@.after(context_log(*old(ctx)), ssrc, pkt@, kind),
            kind is Rtp ==> (plain matches Some(p) ==> 12 <= p@.len() <= pkt@.len() && p@.take(12)
                == pkt@.take(12)),
    {
        if !self.trusted.contains(&ssrc) {
            if self.trusted.len() >= GATE_MAX_TRUSTED {
                return None;
            }
            if !self.probe(ssrc, pkt, kind) {
                return None;
            }
        }
        let plain = kind.decrypt(ctx, pkt);
        if plain.is_some() {
            self.trusted.insert(ssrc);
        }
        plain
    }

    fn probe(&mut self, ssrc: u32, pkt: &[u8], kind: Protected) -> (r: bool)
        ensures
            (final(self)@, r) == old(self)@.probing(ssrc, pkt@, kind),
    {
        if self.probed.len() >= GATE_MAX_PROBED && !self.probed.contains(&ssrc) {
            self.probe = None;
            self.probed.clear();
        }
        if self.probe.is_none() {
            self.probe = new_context(self.key.as_slice(), self.salt.as_slice(), self.profile);
        }
        assert(self@ == old(self)@.ready(ssrc));
        match &mut self.probe {
            Some(probe) => {
                self.probed.insert(ssrc);
                kind.decrypt(probe, pkt).is_some()
            },
            None => false,
        }
    }
}

/// The log that a packet is added to keeps its beginning.
proof fn lemma_log_keeps_its_key(
    log: Seq<(u8, Seq<u8>)>,
    pkt: Seq<u8>,
    kind: Protected,
    key: Seq<u8>,
    salt: Seq<u8>,
    profile: ProtectionProfile,
)
    requires
        keyed_by(log, key, salt, profile),
    ensures
        keyed_by(kind.log_after(log, pkt), key, salt, profile),
{
    assert(kind.log_after(log, pkt).take(3) =~= log.take(3));
}

/// The sets of a gate stay bounded, whatever arrives.
pub proof fn lemma_gate_stays_bounded(
    g: Gate,
    log: Seq<(u8, Seq<u8>)>,
    ssrc: u32,
    pkt: Seq<u8>,
    kind: Protected,
)
    requires
        g.inv(),
    ensures
        g.after(log, ssrc, pkt, kind).inv(),
{
    let ready = g.ready(ssrc);
    let fresh = new_log(g.key, g.salt, g.profile);
    assert(fresh.take(3) =~= fresh);
    if let Some(probe) = ready.probe {
        lemma_log_keeps_its_key(probe, pkt, kind, g.key, g.salt, g.profile);
    }
}

/// Forged packets take no stream from a gate, not even under its own SSRC: what
/// the probe context does not open leaves a stream as new to it as it was.
pub proof fn lemma_forged_leaves_streams_new(
    g: Gate,
    log: Seq<(u8, Seq<u8>)>,
    ssrc: u32,
    pkt: Seq<u8>,
    stream: u32,
)
    requires
        g.new_to_probe(stream),
        g.ready(ssrc).probe matches Some(probe) ==> opened_rtp(probe, pkt) is None,
    ensures
        g.after(log, ssrc, pkt, Protected::Rtp).new_to_probe(stream),
{
    let ready = g.ready(ssrc);
    if let Some(probe) = ready.probe {
        assert(untouched(probe, stream));
        let next = log_after_rtp(probe, pkt);
        if next != probe {
            assert(next.drop_last() =~= probe);
        }
        assert(untouched(next, stream));
    }
}

/// A genuine control packet gets through, whatever was tried before it, as long
/// as its sender is trusted or there is room for one more.
pub proof fn lemma_genuine_control_passes(
    g: Gate,
    log: Seq<(u8, Seq<u8>)>,
    ssrc: u32,
    pkt: Seq<u8>,
    plain: Seq<u8>,
)
    requires
        g.inv(),
        g.fits(),
        g.trusted.contains(ssrc) || g.trusted.len() < GATE_MAX_TRUSTED,
        keyed_by(log, g.key, g.salt, g.profile),
        genuine_rtcp(pkt, plain, g.key, g.salt, g.profile),
    ensures
        g.opened(log, ssrc, pkt, Protected::Rtcp(Some(g.profile))) == Some(plain),
        g.after(log, ssrc, pkt, Protected::Rtcp(Some(g.profile))).trusted.contains(ssrc),
{
    let fresh = new_log(g.key, g.salt, g.profile);
    assert(fresh.take(3) =~= fresh);
    let probe = g.ready(ssrc).probe->0;
    assert(keyed_by(probe, g.key, g.salt, g.profile));
    assert(opened_rtcp(probe, pkt, Some(g.profile)) == Some(plain));
    assert(opened_rtcp(log, pkt, Some(g.profile)) == Some(plain));
}

/// A genuine packet of the first round of a stream gets through where the probe
/// context has opened none of the stream and the real one takes it in that
/// round, whatever failed before it, as long as there is room for one more.
pub proof fn lemma_genuine_stream_passes(
    g: Gate,
    log: Seq<(u8, Seq<u8>)>,
    pkt: Seq<u8>,
    plain: Seq<u8>,
)
    requires
        g.inv(),
        g.fits(),
        g.new_to_probe(ssrc_of(pkt)),
        g.probe matches Some(probe) ==> probe.len() < LOG_LIMIT,
        !g.trusted.contains(ssrc_of(pkt)),
        g.trusted.len() < GATE_MAX_TRUSTED,
        keyed_by(log, g.key, g.salt, g.profile),
        log.len() < LOG_LIMIT,
        rollover(log, ssrc_of(pkt), sequence_of(pkt)) == 0,
        genuine_rtp(pkt, plain, g.key, g.salt, g.profile, 0),
    ensures
        g.opened(log, ssrc_of(pkt), pkt, Protected::Rtp) == Some(plain),
        g.after(log, ssrc_of(pkt), pkt, Protected::Rtp).trusted.contains(ssrc_of(pkt)),
{
    let ssrc = ssrc_of(pkt);
    let fresh = new_log(g.key, g.salt, g.profile);
    assert(fresh.take(3) =~= fresh);
    assert(untouched(fresh, ssrc));
    let probe = g.ready(ssrc).probe->0;
    assert(keyed_by(probe, g.key, g.salt, g.profile));
    assert(untouched(probe, ssrc));
    assert(opened_rtp(probe, pkt) == Some(plain));
    assert(opened_rtp(log, pkt) == Some(plain));
}

/// A genuine packet of a stream that has authenticated gets through, of any
/// round, where the real context takes it in that round.
pub proof fn lemma_genuine_packet_passes(
    g: Gate,
    log: Seq<(u8, Seq<u8>)>,
    pkt: Seq<u8>,
    plain: Seq<u8>,
    round: int,
)
    requires
        g.trusted.contains(ssrc_of(pkt)),
        keyed_by(log, g.key, g.salt, g.profile),
        log.len() < LOG_LIMIT,
        rollover(log, ssrc_of(pkt), sequence_of(pkt)) == round,
        genuine_rtp(pkt, plain, g.key, g.salt, g.profile, round),
    ensures
        g.opened(log, ssrc_of(pkt), pkt, Protected::Rtp) == Some(plain),
        g.after(log, ssrc_of(pkt), pkt, Protected::Rtp).trusted.contains(ssrc_of(pkt)),
{
    assert(opened_rtp(log, pkt) == Some(plain));
}

/// A packet that fails under an SSRC which has not authenticated does not reach
/// the real context unless the probe context opened it, and no SSRC becomes
/// trusted by it.
pub proof fn lemma_forged_never_reaches_the_context(
    g: Gate,
    log: Seq<(u8, Seq<u8>)>,
    ssrc: u32,
    pkt: Seq<u8>,
    kind: Protected,
)
    requires
        !g.trusted.contains(ssrc),
        g.ready(ssrc).probe matches Some(probe) ==> kind.opened(probe, pkt) is None,
    ensures
        g.opened(log, ssrc, pkt, kind) is None,
        g.log_after(log, ssrc, pkt, kind) == log,
        g.after(log, ssrc, pkt, kind).trusted == g.trusted,
{
}

/// Only an SSRC of which a packet decrypted becomes trusted, and it stays so;
/// its later packets go straight to the real context.
pub proof fn lemma_trust_is_earned_and_kept(
    g: Gate,
    log: Seq<(u8, Seq<u8>)>,
    ssrc: u32,
    pkt: Seq<u8>,
    kind: Protected,
    other: u32,
)
    ensures
        g.opened(log, ssrc, pkt, kind) is Some ==> g.after(
            log,
            ssrc,
            pkt,
            kind,
        ).trusted.contains(ssrc),
        g.trusted.contains(other) ==> g.after(log, ssrc, pkt, kind).trusted.contains(other),
        g.after(log, ssrc, pkt, kind).trusted.contains(other) ==> g.trusted.contains(other) || (
        other == ssrc && g.opened(log, ssrc, pkt, kind) is Some),
        g.trusted.contains(ssrc) ==> g.opened(log, ssrc, pkt, kind) == kind.opened(log, pkt),
{
}

/// The gates of a relay leg, made with its inbound contexts.
pub struct RelayGates {
    pub rtp: Option<SsrcGate>,
    pub rtcp: Option<SsrcGate>,
}

/// The state of an optional gate.
pub open spec fn gate_view(g: Option<SsrcGate>) -> Option<Gate> {
    match g {
        Some(g) => Some(g@),
        None => None,
    }
}

/// A gate once it is needed: what it is, where there is one; else a new one,
/// where there are keys.
pub open spec fn gate_for(g: Option<Gate>, keys: Option<SrtpKeyingMaterial>) -> Option<Gate> {
    match (g, keys) {
        (Some(_), _) => g,
        (None, Some(k)) => Some(Gate::new(k)),
        (None, None) => None,
    }
}

impl Default for RelayGates {
    /// No gates yet.
    fn default() -> (r: Self)
        ensures
            r.rtp is None,
            r.rtcp is None,
    {
        RelayGates { rtp: None, rtcp: None }
    }
}

/// Makes a gate where there is none and there are keys.
pub fn maybe_build_gate(keys: &Option<SrtpKeyingMaterial>, slot: &mut Option<SsrcGate>)
    ensures
        gate_view(*final(slot)) == gate_for(gate_view(*old(slot)), *keys),
{
    if slot.is_some() {
        return;
    }
    if let Some(k) = keys {
        *slot = Some(SsrcGate::new(k));
    }
}

} // verus!
