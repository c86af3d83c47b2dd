//! RTCP feedback (RFC 4585, RFC 5104): keyframe requests and generic NACKs.
use vstd::prelude::*;
use vstd::slice::slice_subrange;

use crate::relay::nack::NackReq;
use crate::wire::{be16, be32, bytes16, bytes32};
use crate::wire::{push_u16, push_u32, read_u16, read_u32};

verus! {

broadcast use crate::wire::lemma_bytes32_len;

/// Transport-layer feedback.
pub const PT_RTPFB: u8 = 205;

/// Payload-specific feedback.
pub const PT_PSFB: u8 = 206;

/// What one decrypted inbound RTCP compound asks of the relay.
#[derive(Debug, Default, PartialEq, Eq)]
pub struct Feedback {
    /// A keyframe request (PLI or FIR), with the media SSRCs that it names: the
    /// media source of a PLI, the entries of a FIR.
    pub keyframe: Option<Vec<u32>>,
    /// Generic NACKs: a media SSRC and entries of an identifier and a mask.
    pub nacks: Vec<(u32, Vec<(u16, u16)>)>,
}

/// What a `Feedback` says.
pub struct Asked {
    pub keyframe: Option<Seq<u32>>,
    pub nacks: Seq<(u32, Seq<(u16, u16)>)>,
}

/// NACKs by their entries.
pub open spec fn nack_views(v: Seq<(u32, Vec<(u16, u16)>)>) -> Seq<(u32, Seq<(u16, u16)>)> {
    v.map_values(|n: (u32, Vec<(u16, u16)>)| (n.0, n.1@))
}

impl View for Feedback {
    type V = Asked;

    open spec fn view(&self) -> Asked {
        Asked {
            keyframe: match self.keyframe {
                Some(v) => Some(v@),
                None => None,
            },
            nacks: nack_views(self.nacks@),
        }
    }
}

/// Where the sub-packet at `off` ends: by its header, or with the datagram.
pub open spec fn packet_end(b: Seq<u8>, off: int) -> int {
    let end = off + (be16(b, off + 2) + 1) * 4;
    if end <= b.len() {
        end
    } else {
        b.len() as int
    }
}

/// The SSRCs that a PLI names: its media source, where it has room for one.
pub open spec fn pli_ssrcs(p: Seq<u8>) -> Seq<u32> {
    if p.len() >= 12 {
        seq![be32(p, 8)]
    } else {
        Seq::empty()
    }
}

/// The SSRCs that a FIR names: one for each whole entry of eight bytes.
pub open spec fn fir_ssrcs(p: Seq<u8>) -> Seq<u32> {
    Seq::new(
        if p.len() >= 12 {
            ((p.len() - 12) / 8) as nat
        } else {
            0
        },
        |i: int| be32(p, 12 + 8 * i),
    )
}

/// The entries of a generic NACK: one for each whole word.
pub open spec fn nack_entries(p: Seq<u8>) -> Seq<(u16, u16)> {
    Seq::new(
        ((p.len() - 12) / 4) as nat,
        |i: int| (be16(p, 12 + 4 * i), be16(p, 14 + 4 * i)),
    )
}

impl Asked {
    /// Nothing is asked.
    pub open spec fn nothing() -> Asked {
        Asked { keyframe: None, nacks: Seq::empty() }
    }

    /// A keyframe of some SSRCs is asked for too.
    pub open spec fn with_keyframe(self, ssrcs: Seq<u32>) -> Asked {
        Asked {
            keyframe: match self.keyframe {
                Some(v) => Some(v + ssrcs),
                None => Some(ssrcs),
            },
            ..self
        }
    }

    /// What one sub-packet asks is asked too.
    pub open spec fn with(self, p: Seq<u8>) -> Asked {
        let fmt = p[0] % 32;
        if p[1] == PT_PSFB && fmt == 1 {
            self.with_keyframe(pli_ssrcs(p))
        } else if p[1] == PT_PSFB && fmt == 4 {
            self.with_keyframe(fir_ssrcs(p))
        } else if p[1] == PT_RTPFB && fmt == 1 && p.len() >= 16 {
            Asked { nacks: self.nacks.push((be32(p, 8), nack_entries(p))), ..self }
        } else {
            self
        }
    }

    /// What the sub-packets from `off` on ask is asked too. The walk ends at
    /// what is no RTCP header and where fewer than eight bytes are left; the
    /// last sub-packet may be cut short.
    pub open spec fn with_from(self, b: Seq<u8>, off: int) -> Asked
        decreases b.len() - off,
    {
        if off + 8 > b.len() || !(128 <= b[off] <= 191) {
            self
        } else {
            self.with(b.subrange(off, packet_end(b, off))).with_from(b, packet_end(b, off))
        }
    }
}

/// What an RTCP compound asks.
pub open spec fn feedback_of(b: Seq<u8>) -> Asked {
    Asked::nothing().with_from(b, 0)
}

fn pli_targets(p: &[u8]) -> (r: Vec<u32>)
    ensures
        r@ == pli_ssrcs(p@),
{
    let mut v: Vec<u32> = Vec::new();
    if p.len() >= 12 {
        v.push(read_u32(p, 8));
    }
    assert(v@ =~= pli_ssrcs(p@));
    v
}

fn fir_targets(p: &[u8]) -> (r: Vec<u32>)
    ensures
        r@ == fir_ssrcs(p@),
{
    let mut v: Vec<u32> = Vec::new();
    if p.len() >= 12 {
        let mut i: usize = 12;
        while p.len() - i >= 8
            invariant
                12 <= i <= p@.len(),
                i == 12 + 8 * v@.len(),
                forall|j: int| 0 <= j < v@.len() ==> #[trigger] v@[j] == be32(p@, 12 + 8 * j),
            decreases p@.len() - i,
        {
            v.push(read_u32(p, i));
            i += 8;
        }
    }
    assert(v@ =~= fir_ssrcs(p@));
    v
}

fn nack_words(p: &[u8]) -> (r: Vec<(u16, u16)>)
    requires
        p@.len() >= 12,
    ensures
        r@ == nack_entries(p@),
{
    let mut v: Vec<(u16, u16)> = Vec::new();
    let mut i: usize = 12;
    while p.len() - i >= 4
        invariant
            12 <= i <= p@.len(),
            i == 12 + 4 * v@.len(),
            forall|j: int|
                0 <= j < v@.len() ==> #[trigger] v@[j] == (
                    be16(p@, 12 + 4 * j),
                    be16(p@, 14 + 4 * j),
                ),
        decreases p@.len() - i,
    {
        v.push((read_u16(p, i), read_u16(p, i + 2)));
        i += 4;
    }
    assert(v@ =~= nack_entries(p@));
    v
}

impl Feedback {
    /// Adds a keyframe request.
    fn ask_keyframe(&mut self, mut ssrcs: Vec<u32>)
        ensures
            final(self)@ == old(self)@.with_keyframe(ssrcs@),
    {
        let taken = self.keyframe.take();
        match taken {
            Some(mut v) => {
                v.append(&mut ssrcs);
                self.keyframe = Some(v);
            },
            None => {
                self.keyframe = Some(ssrcs);
            },
        }
    }

    /// Adds what one sub-packet asks.
    fn add_packet(&mut self, p: &[u8])
        requires
            p@.len() >= 2,
        ensures
            final(self)@ == old(self)@.with(p@),
    {
        let fmt: u8 = p[0] % 32;
        if p[1] == PT_PSFB && fmt == 1 {
            self.ask_keyframe(pli_targets(p));
        } else if p[1] == PT_PSFB && fmt == 4 {
            self.ask_keyframe(fir_targets(p));
        } else if p[1] == PT_RTPFB && fmt == 1 && p.len() >= 16 {
            let entries = nack_words(p);
            let ssrc: u32 = read_u32(p, 8);
            self.nacks.push((ssrc, entries));
            assert(nack_views(self.nacks@) =~= nack_views(old(self).nacks@).push(
                (ssrc, entries@),
            ));
        }
    }
}

/// Classifies a decrypted inbound RTCP compound: keyframe requests and NACKs
/// of all its sub-packets are taken, everything else is ignored.
pub fn parse_feedback(pkt: &[u8]) -> (fb: Feedback)
    ensures
        fb@ == feedback_of(pkt@),
{
    let mut fb = Feedback { keyframe: None, nacks: Vec::new() };
    assert(fb@.nacks =~= Seq::<(u32, Seq<(u16, u16)>)>::empty());
    let mut off: usize = 0;
    while off < pkt.len() && pkt.len() - off >= 8 && 128 <= pkt[off] && pkt[off] <= 191
        invariant
            feedback_of(pkt@) == fb@.with_from(pkt@, off as int),
            0 <= off <= pkt@.len(),
        decreases pkt@.len() - off,
    {
        let size: usize = (read_u16(pkt, off + 2) as usize + 1) * 4;
        let end: usize = if pkt.len() - off < size {
            pkt.len()
        } else {
            off + size
        };
        fb.add_packet(slice_subrange(pkt, off, end));
        off = end;
    }
    fb
}

/// The keyframe half of `parse_feedback`.
pub fn keyframe_targets(pkt: &[u8]) -> (r: Option<Vec<u32>>)
    ensures
        match r {
            Some(v) => feedback_of(pkt@).keyframe == Some(v@),
            None => feedback_of(pkt@).keyframe is None,
        },
{
    parse_feedback(pkt).keyframe
}

/// Does this compound ask for a keyframe at all?
pub fn wants_keyframe(pkt: &[u8]) -> (r: bool)
    ensures
        r == (feedback_of(pkt@).keyframe is Some),
{
    keyframe_targets(pkt).is_some()
}

/// A Picture Loss Indication from `sender_ssrc` about `media_ssrc`.
pub open spec fn pli_bytes(sender_ssrc: u32, media_ssrc: u32) -> Seq<u8> {
    seq![0x81u8, PT_PSFB, 0u8, 2u8] + bytes32(sender_ssrc) + bytes32(media_ssrc)
}

/// Encoding of entries one after the other.
pub open spec fn entry_bytes(fci: Seq<(u16, u16)>) -> Seq<u8>
    decreases fci.len(),
{
    if fci.len() == 0 {
        Seq::empty()
    } else {
        entry_bytes(fci.drop_last()) + bytes16(fci.last().0) + bytes16(fci.last().1)
    }
}

/// A generic NACK from `sender_ssrc`. The length field is modulo 2^16.
pub open spec fn nack_bytes(sender_ssrc: u32, media_ssrc: u32, fci: Seq<(u16, u16)>) -> Seq<u8> {
    seq![0x81u8, PT_RTPFB] + bytes16(((fci.len() + 2) % 0x1_0000) as u16) + bytes32(sender_ssrc)
        + bytes32(media_ssrc) + entry_bytes(fci)
}

/// A Picture Loss Indication (RFC 4585 section 6.3.1).
pub fn build_pli(sender_ssrc: u32, media_ssrc: u32) -> (p: Vec<u8>)
    ensures
        p@ == pli_bytes(sender_ssrc, media_ssrc),
{
    let mut p: Vec<u8> = Vec::with_capacity(12);
    p.push(0x81);
    p.push(PT_PSFB);
    p.push(0);
    p.push(2);
    push_u32(&mut p, sender_ssrc);
    push_u32(&mut p, media_ssrc);
    assert(p@ =~= pli_bytes(sender_ssrc, media_ssrc));
    p
}

/// A generic NACK (RFC 4585 section 6.2.1).
pub fn build_nack(sender_ssrc: u32, req: &NackReq) -> (p: Vec<u8>)
    ensures
        p@ == nack_bytes(sender_ssrc, req.media_ssrc, req.fci@),
{
    let mut p: Vec<u8> = Vec::new();
    p.push(0x81);
    p.push(PT_RTPFB);
    push_u16(&mut p, 2u16.wrapping_add((req.fci.len() % 0x1_0000) as u16));
    push_u32(&mut p, sender_ssrc);
    push_u32(&mut p, req.media_ssrc);
    let ghost fixed = p@;
    let mut i: usize = 0;
    while i < req.fci.len()
        invariant
            i <= req.fci@.len(),
            p@ == fixed + entry_bytes(req.fci@.take(i as int)),
        decreases req.fci@.len() - i,
    {
        let (pid, blp) = req.fci[i];
        push_u16(&mut p, pid);
        push_u16(&mut p, blp);
        assert(req.fci@.take(i + 1).drop_last() =~= req.fci@.take(i as int));
        assert(p@ =~= fixed + entry_bytes(req.fci@.take(i + 1)));
        i += 1;
    }
    assert(req.fci@.take(i as int) =~= req.fci@);
    assert(p@ =~= nack_bytes(sender_ssrc, req.media_ssrc, req.fci@));
    p
}

proof fn lemma_shift(fb: Asked, a: Seq<u8>, b: Seq<u8>, off: int)
    requires
        0 <= off,
    ensures
        fb.with_from(a + b, a.len() + off) == fb.with_from(b, off),
    decreases b.len() - off,
{
    let ab = a + b;
    if off + 8 <= b.len() && 128 <= b[off] <= 191 {
        let end = packet_end(b, off);
        assert(packet_end(ab, a.len() + off) == a.len() + end);
        assert(ab.subrange(a.len() + off, a.len() + end) =~= b.subrange(off, end));
        lemma_shift(fb.with(b.subrange(off, end)), a, b, end);
    }
}

/// A whole sub-packet in front of others, of eight bytes or more, asks first.
pub proof fn lemma_feedback_head(a: Seq<u8>, b: Seq<u8>)
    requires
        a.len() >= 8,
        128 <= a[0] <= 191,
        (be16(a, 2) + 1) * 4 == a.len(),
    ensures
        feedback_of(a + b) == Asked::nothing().with(a).with_from(b, 0),
{
    let ab = a + b;
    assert(packet_end(ab, 0) == a.len());
    assert(ab.subrange(0, a.len() as int) =~= a);
    lemma_shift(Asked::nothing().with(a), a, b, 0);
}

/// Feedback is found behind a report, as a browser sends it: a leading
/// sub-packet of another type changes nothing.
pub proof fn lemma_feedback_behind_report(a: Seq<u8>, b: Seq<u8>)
    requires
        a.len() >= 8,
        128 <= a[0] <= 191,
        (be16(a, 2) + 1) * 4 == a.len(),
        a[1] != PT_RTPFB,
        a[1] != PT_PSFB,
    ensures
        feedback_of(a + b) == feedback_of(b),
{
    lemma_feedback_head(a, b);
}

/// A built PLI is read as a keyframe request of its media source, and asks
/// nothing else.
pub proof fn lemma_pli_roundtrip(sender_ssrc: u32, media_ssrc: u32)
    ensures
        feedback_of(pli_bytes(sender_ssrc, media_ssrc)) == (Asked {
            keyframe: Some(seq![media_ssrc]),
            nacks: Seq::empty(),
        }),
{
    let p = pli_bytes(sender_ssrc, media_ssrc);
    lemma_feedback_head(p, Seq::empty());
    assert(p + Seq::<u8>::empty() =~= p);
    assert(p.subrange(8, 12) =~= bytes32(media_ssrc));
    crate::wire::lemma_be32_of_bytes32(p, 8, media_ssrc);
}

/// The entries of a NACK read back as they were written.
pub proof fn lemma_entry_bytes(fci: Seq<(u16, u16)>)
    ensures
        entry_bytes(fci).len() == 4 * fci.len(),
        forall|i: int|
            0 <= i < fci.len() ==> (
                be16(entry_bytes(fci), 4 * i),
                be16(entry_bytes(fci), 4 * i + 2),
            ) == #[trigger] fci[i],
    decreases fci.len(),
{
    if fci.len() > 0 {
        let rest = fci.drop_last();
        lemma_entry_bytes(rest);
        assert forall|i: int| 0 <= i < fci.len() implies (
            be16(entry_bytes(fci), 4 * i),
            be16(entry_bytes(fci), 4 * i + 2),
        ) == #[trigger] fci[i] by {
            if i < rest.len() {
                assert(rest[i] == fci[i]);
                assert(be16(entry_bytes(fci), 4 * i) == be16(entry_bytes(rest), 4 * i));
                assert(be16(entry_bytes(fci), 4 * i + 2) == be16(entry_bytes(rest), 4 * i + 2));
            } else {
                crate::wire::lemma_be16_of_bytes16(fci.last().0);
                crate::wire::lemma_be16_of_bytes16(fci.last().1);
            }
        }
    }
}

/// A built NACK with at least one entry, and no more than its length field can
/// count, is read as that NACK, and is no keyframe request.
pub proof fn lemma_nack_roundtrip(sender_ssrc: u32, media_ssrc: u32, fci: Seq<(u16, u16)>)
    requires
        1 <= fci.len() <= 0xFFFD,
    ensures
        feedback_of(nack_bytes(sender_ssrc, media_ssrc, fci)) == (Asked {
            keyframe: None,
            nacks: seq![(media_ssrc, fci)],
        }),
{
    let p = nack_bytes(sender_ssrc, media_ssrc, fci);
    lemma_entry_bytes(fci);
    assert(p.len() == 12 + 4 * fci.len());
    assert(be16(p, 2) == fci.len() + 2);
    lemma_feedback_head(p, Seq::empty());
    assert(p + Seq::<u8>::empty() =~= p);
    assert(p.subrange(8, 12) =~= bytes32(media_ssrc));
    crate::wire::lemma_be32_of_bytes32(p, 8, media_ssrc);
    assert(p.subrange(12, p.len() as int) =~= entry_bytes(fci));
    assert forall|i: int| 0 <= i < fci.len() implies (be16(p, 12 + 4 * i), be16(p, 14 + 4 * i))
        == #[trigger] fci[i] by {
        assert(be16(p, 12 + 4 * i) == be16(entry_bytes(fci), 4 * i));
        assert(be16(p, 14 + 4 * i) == be16(entry_bytes(fci), 4 * i + 2));
    }
    assert(nack_entries(p) =~= fci);
    assert(Asked::nothing().with(p).nacks =~= seq![(media_ssrc, fci)]);
}

} // verus!
