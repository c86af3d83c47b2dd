//! Outbound sequence numbering of one forwarded stream.
use vstd::prelude::*;

verus! {

/// Once a continued stream is this far past its first number, that number is
/// forgotten: no receiver asks again for a packet that old, and half a cycle
/// past it every current number would read as one before it.
pub const BASE_RETIRE_SPAN: u16 = 0x4000;

/// `a` comes after `b`, with sequence numbers that wrap.
pub open spec fn newer(a: u16, b: u16) -> bool {
    a != b && a.wrapping_sub(b) < 0x8000
}

/// Does `a` come after `b`, with sequence numbers that wrap?
pub fn seq_newer(a: u16, b: u16) -> (r: bool)
    ensures
        r == newer(a, b),
{
    a != b && a.wrapping_sub(b) < 0x8000
}

/// Outbound sequence numbering of one forwarded stream (one source SSRC): an
/// offset, fixed on the stream's first packet, is added to the source's
/// numbers, so that every gap and reordering reaches the receiver. A stream on
/// a fresh outbound SSRC passes through; one that takes over an SSRC in use
/// carries on behind the highest number used under it.
pub struct SeqMap {
    started: bool,
    offset: u16,
    highest: Option<u16>,
    base: Option<u16>,
}

/// The state of a `SeqMap`.
pub struct Numbering {
    /// A packet has been mapped.
    pub started: bool,
    /// What is added to the source's numbers.
    pub offset: u16,
    /// The highest outbound number so far.
    pub highest: Option<u16>,
    /// The first number of a stream that continued an earlier series, while it
    /// is recent.
    pub base: Option<u16>,
}

impl View for SeqMap {
    type V = Numbering;

    closed spec fn view(&self) -> Numbering {
        Numbering {
            started: self.started,
            offset: self.offset,
            highest: self.highest,
            base: self.base,
        }
    }
}

impl Numbering {
    /// A stream that carries on after `highest`.
    pub open spec fn continuing(highest: Option<u16>) -> Numbering {
        Numbering { started: false, offset: 0, highest, base: None }
    }

    /// The state in which a packet is mapped: the first fixes the offset, so
    /// that the stream starts right behind the highest number, and as it is
    /// where there is none.
    pub open spec fn begun(self, src_seq: u16) -> Numbering {
        if self.started {
            self
        } else {
            Numbering {
                started: true,
                offset: match self.highest {
                    Some(h) => h.wrapping_add(1).wrapping_sub(src_seq),
                    None => 0,
                },
                highest: self.highest,
                base: match self.highest {
                    Some(h) => Some(h.wrapping_add(1)),
                    None => None,
                },
            }
        }
    }

    /// The outbound number of a source's number.
    pub open spec fn outbound(self, src_seq: u16) -> u16 {
        src_seq.wrapping_add(self.begun(src_seq).offset)
    }

    /// The highest number after a packet.
    pub open spec fn highest_after(self, src_seq: u16) -> u16 {
        match self.highest {
            Some(h) => if newer(self.outbound(src_seq), h) {
                self.outbound(src_seq)
            } else {
                h
            },
            None => self.outbound(src_seq),
        }
    }

    /// The state after a packet.
    pub open spec fn mapped(self, src_seq: u16) -> Numbering {
        let begun = self.begun(src_seq);
        let highest = self.highest_after(src_seq);
        Numbering {
            started: true,
            offset: begun.offset,
            highest: Some(highest),
            base: match begun.base {
                Some(b) => if highest.wrapping_sub(b) >= BASE_RETIRE_SPAN {
                    None
                } else {
                    Some(b)
                },
                None => None,
            },
        }
    }
}

impl Default for SeqMap {
    fn default() -> (r: Self)
        ensures
            r@ == Numbering::continuing(None),
    {
        SeqMap { started: false, offset: 0, highest: None, base: None }
    }
}

impl SeqMap {
    /// A map whose stream continues after `highest`.
    pub fn continuing(highest: Option<u16>) -> (r: Self)
        ensures
            r@ == Numbering::continuing(highest),
    {
        SeqMap { started: false, offset: 0, highest, base: None }
    }

    /// Highest outbound sequence number issued so far.
    pub fn highest(&self) -> (r: Option<u16>)
        ensures
            r == self@.highest,
    {
        self.highest
    }

    /// The offset applied to the source's numbers and, where the stream
    /// continued an earlier series, the first outbound number it used.
    pub fn route(&self) -> (r: (u16, Option<u16>))
        ensures
            r == (self@.offset, self@.base),
    {
        (self.offset, self.base)
    }

    /// Maps a source packet's sequence number to the outbound one.
    pub fn map(&mut self, src_seq: u16) -> (out: u16)
        ensures
            out == old(self)@.outbound(src_seq),
            final(self)@ == old(self)@.mapped(src_seq),
    {
        if !self.started {
            self.started = true;
            match self.highest {
                Some(h) => {
                    self.offset = h.wrapping_add(1).wrapping_sub(src_seq);
                    self.base = Some(h.wrapping_add(1));
                },
                None => {
                    self.offset = 0;
                    self.base = None;
                },
            }
        }
        let out: u16 = src_seq.wrapping_add(self.offset);
        let highest: u16 = match self.highest {
            Some(h) => if seq_newer(out, h) {
                out
            } else {
                h
            },
            None => out,
        };
        self.highest = Some(highest);
        if let Some(b) = self.base {
            if highest.wrapping_sub(b) >= BASE_RETIRE_SPAN {
                self.base = None;
            }
        }
        out
    }
}

/// Gaps and order are kept: two packets of one stream are as far apart on the
/// way out as they were at the source, whatever came between.
pub proof fn lemma_distance_kept(n: Numbering, first: u16, second: u16)
    ensures
        n.mapped(first).outbound(second).wrapping_sub(n.outbound(first)) == second.wrapping_sub(
            first,
        ),
        n.mapped(first).offset == n.mapped(first).mapped(second).offset,
{
}

/// A stream on a fresh outbound SSRC passes through unchanged.
pub proof fn lemma_fresh_passes_through(first: u16, second: u16)
    ensures
        Numbering::continuing(None).outbound(first) == first,
        Numbering::continuing(None).mapped(first).outbound(second) == second,
{
}

/// A stream that takes over an SSRC carries on right behind the highest number
/// used under it, and its later packets reuse no number at or just before it.
pub proof fn lemma_continues_behind(h: u16, first: u16, later: u16)
    requires
        later.wrapping_sub(first) < 0x7FFF,
    ensures
        Numbering::continuing(Some(h)).outbound(first) == h.wrapping_add(1),
        newer(Numbering::continuing(Some(h)).mapped(first).outbound(later), h),
{
}

/// The highest number only moves forward, and never past what went out.
pub proof fn lemma_highest_advances(n: Numbering, src_seq: u16)
    ensures
        n.mapped(src_seq).highest == Some(n.highest_after(src_seq)),
        n.highest matches Some(h) ==> n.highest_after(src_seq) == h || newer(
            n.highest_after(src_seq),
            h,
        ),
        n.highest_after(src_seq) == n.outbound(src_seq) || n.highest == Some(
            n.highest_after(src_seq),
        ),
{
}

/// The offset undoes the mapping: what a receiver asks for by its outbound
/// number is the source's number again.
pub proof fn lemma_offset_inverts(n: Numbering, src_seq: u16)
    ensures
        n.outbound(src_seq).wrapping_sub(n.mapped(src_seq).offset) == src_seq,
{
}

} // verus!
