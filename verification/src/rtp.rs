//! RTP packets (RFC 3550 section 5.1), and the fields of their fixed header.
use vstd::prelude::*;
use vstd::slice::slice_to_vec;

use crate::wire::{be16, be32, bytes16, bytes32, overwrite};
use crate::wire::{read_u16, read_u32, write_u16, write_u32};

verus! {

/// The fixed header of an RTP packet.
pub const RTP_FIXED_HEADER_LEN: usize = 12;

/// The most bytes of an RTP packet.
pub const RTP_MAX_LENGTH: usize = 1500;

/// The payload type of a packet.
pub open spec fn payload_type_of(s: Seq<u8>) -> u8 {
    s[1] % 128
}

/// The sequence number of a packet.
pub open spec fn sequence_of(s: Seq<u8>) -> u16 {
    be16(s, 2)
}

/// The timestamp of a packet.
pub open spec fn timestamp_of(s: Seq<u8>) -> u32 {
    be32(s, 4)
}

/// The synchronization source of a packet.
pub open spec fn ssrc_of(s: Seq<u8>) -> u32 {
    be32(s, 8)
}

/// The synchronization source of a packet.
pub fn ssrc(pkt: &[u8]) -> (r: u32)
    requires
        pkt@.len() >= RTP_FIXED_HEADER_LEN,
    ensures
        r == ssrc_of(pkt@),
{
    read_u32(pkt, 8)
}

/// The sequence number of a packet.
pub fn sequence_number(pkt: &[u8]) -> (r: u16)
    requires
        pkt@.len() >= RTP_FIXED_HEADER_LEN,
    ensures
        r == sequence_of(pkt@),
{
    read_u16(pkt, 2)
}

/// The timestamp of a packet.
pub fn timestamp(pkt: &[u8]) -> (r: u32)
    requires
        pkt@.len() >= RTP_FIXED_HEADER_LEN,
    ensures
        r == timestamp_of(pkt@),
{
    read_u32(pkt, 4)
}

/// An RTP packet: a whole fixed header, and no more bytes than one datagram is
/// read into.
#[derive(Debug)]
pub struct RtpPacket {
    data: Vec<u8>,
}

impl View for RtpPacket {
    type V = Seq<u8>;

    closed spec fn view(&self) -> Seq<u8> {
        self.data@
    }
}

/// What fits in a packet: the first `RTP_MAX_LENGTH` bytes.
pub open spec fn clipped(s: Seq<u8>) -> Seq<u8> {
    if s.len() <= RTP_MAX_LENGTH {
        s
    } else {
        s.take(RTP_MAX_LENGTH as int)
    }
}

impl RtpPacket {
    /// A whole fixed header in no more bytes than fit.
    pub open spec fn inv(&self) -> bool {
        RTP_FIXED_HEADER_LEN <= self@.len() <= RTP_MAX_LENGTH
    }

    /// The packet of these bytes, cut to what fits.
    pub fn from_bytes(bytes: &[u8]) -> (r: Self)
        requires
            bytes@.len() >= RTP_FIXED_HEADER_LEN,
        ensures
            r@ == clipped(bytes@),
            r.inv(),
    {
        let mut data: Vec<u8> = slice_to_vec(bytes);
        if data.len() > RTP_MAX_LENGTH {
            data.truncate(RTP_MAX_LENGTH);
            assert(data@ =~= bytes@.take(RTP_MAX_LENGTH as int));
        }
        RtpPacket { data }
    }

    /// The bytes of the packet.
    pub fn as_slice(&self) -> (r: &[u8])
        ensures
            r@ == self@,
    {
        self.data.as_slice()
    }

    /// The size of the packet.
    pub fn len(&self) -> (r: usize)
        ensures
            r == self@.len(),
    {
        self.data.len()
    }

    /// The payload type.
    pub fn payload_type(&self) -> (r: u8)
        requires
            self.inv(),
        ensures
            r == payload_type_of(self@),
    {
        self.data[1] % 128
    }

    /// The sequence number.
    pub fn sequence_number(&self) -> (r: u16)
        requires
            self.inv(),
        ensures
            r == sequence_of(self@),
    {
        read_u16(self.data.as_slice(), 2)
    }

    /// The synchronization source.
    pub fn ssrc(&self) -> (r: u32)
        requires
            self.inv(),
        ensures
            r == ssrc_of(self@),
    {
        read_u32(self.data.as_slice(), 8)
    }

    /// Changes the synchronization source.
    pub fn set_ssrc(&mut self, v: u32)
        requires
            old(self).inv(),
        ensures
            final(self).inv(),
            final(self)@ == overwrite(old(self)@, 8, bytes32(v)),
    {
        write_u32(self.data.as_mut_slice(), 8, v);
    }

    /// Changes the sequence number.
    pub fn set_sequence_number(&mut self, v: u16)
        requires
            old(self).inv(),
        ensures
            final(self).inv(),
            final(self)@ == overwrite(old(self)@, 2, bytes16(v)),
    {
        write_u16(self.data.as_mut_slice(), 2, v);
    }

    /// Changes the payload type, to the low seven bits of `v`; the marker bit
    /// stays.
    pub fn set_payload_type(&mut self, v: u8)
        requires
            old(self).inv(),
        ensures
            final(self).inv(),
            final(self)@ == old(self)@.update(1, (old(self)@[1] / 128 * 128 + v % 128) as u8),
    {
        let marker: u8 = self.data[1] / 128 * 128;
        self.data[1] = marker + v % 128;
    }
}

/// Another packet of the same bytes.
pub fn copy_packet(pkt: &RtpPacket) -> (r: RtpPacket)
    requires
        pkt.inv(),
    ensures
        r@ == pkt@,
        r.inv(),
{
    RtpPacket::from_bytes(pkt.as_slice())
}

} // verus!
