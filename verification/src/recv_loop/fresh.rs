//! The replay guard of address latching on a secure relay leg.
use vstd::prelude::*;
use std::collections::HashMap;
use std::collections::VecDeque;

use crate::relay::seq_map::seq_newer;
use crate::relay::seq_map::newer;
use crate::srtp::ProtectionProfile;
use crate::srtp::index_at;
use crate::wire::be32;
use crate::wire::read_u32;

verus! {

broadcast use vstd::std_specs::hash::group_hash_axioms;

/// Most STUN transaction IDs that are remembered.
pub const FRESH_MAX_STUN: usize = 256;

/// Most SSRCs that a leg tracks, of RTP and of RTCP each: only what
/// authenticates is recorded, and no more SSRCs than this get that far.
pub const FRESH_MAX_SSRCS: usize = 64;

/// Replay guard for address latching on a secure relay leg. The inbound
/// contexts run without replay protection, so a captured packet that is sent
/// again from another address still decrypts. A packet may move the remote
/// only when it is newer than everything accepted under its SSRC, and a signed
/// STUN request only the first time that its transaction ID is seen. No SSRC is
/// forgotten.
pub struct Freshness {
    rtp: HashMap<u32, u16>,
    rtcp: HashMap<u32, u32>,
    stun: VecDeque<[u8; 12]>,
}

/// The state of a `Freshness`.
pub struct Fresh {
    /// The newest sequence number of each SSRC.
    pub rtp: Map<u32, u16>,
    /// The highest SRTCP index of each SSRC.
    pub rtcp: Map<u32, u32>,
    /// Transaction IDs that were seen, oldest first.
    pub stun: Seq<Seq<u8>>,
}

/// Transaction IDs as bytes.
pub open spec fn id_views(v: Seq<[u8; 12]>) -> Seq<Seq<u8>> {
    v.map_values(|id: [u8; 12]| id@)
}

impl View for Freshness {
    type V = Fresh;

    closed spec fn view(&self) -> Fresh {
        Fresh { rtp: self.rtp@, rtcp: self.rtcp@, stun: id_views(self.stun@) }
    }
}

impl Fresh {
    /// Nothing has been seen.
    pub open spec fn empty() -> Fresh {
        Fresh { rtp: Map::empty(), rtcp: Map::empty(), stun: Seq::empty() }
    }

    /// What holds of every guard: the transaction IDs are bounded.
    pub open spec fn inv(self) -> bool {
        self.stun.len() <= FRESH_MAX_STUN
    }

    /// An RTP packet is newer than any accepted under its SSRC.
    pub open spec fn rtp_fresh(self, ssrc: u32, seq: u16) -> bool {
        self.rtp.contains_key(ssrc) ==> newer(seq, self.rtp[ssrc])
    }

    /// An RTP packet was accepted.
    pub open spec fn with_rtp(self, ssrc: u32, seq: u16) -> Fresh {
        if self.rtp_fresh(ssrc, seq) {
            Fresh { rtp: self.rtp.insert(ssrc, seq), ..self }
        } else {
            self
        }
    }

    /// An SRTCP packet is newer than any accepted from its sender.
    pub open spec fn rtcp_fresh(self, ssrc: u32, index: u32) -> bool {
        self.rtcp.contains_key(ssrc) ==> index > self.rtcp[ssrc]
    }

    /// An SRTCP packet was accepted.
    pub open spec fn with_rtcp(self, ssrc: u32, index: u32) -> Fresh {
        if self.rtcp_fresh(ssrc, index) {
            Fresh { rtcp: self.rtcp.insert(ssrc, index), ..self }
        } else {
            self
        }
    }

    /// A transaction ID has not been seen.
    pub open spec fn stun_fresh(self, txid: Seq<u8>) -> bool {
        !self.stun.contains(txid)
    }

    /// A signed STUN request was considered.
    pub open spec fn with_stun(self, txid: Seq<u8>) -> Fresh {
        if self.stun_fresh(txid) {
            Fresh {
                stun: if self.stun.len() >= FRESH_MAX_STUN {
                    self.stun.drop_first().push(txid)
                } else {
                    self.stun.push(txid)
                },
                ..self
            }
        } else {
            self
        }
    }
}

/// Do two transaction IDs agree?
fn same_id(a: &[u8; 12], b: &[u8; 12]) -> (r: bool)
    ensures
        r == (a@ == b@),
{
    let mut i: usize = 0;
    while i < 12
        invariant
            i <= 12,
            forall|j: int| 0 <= j < i ==> a@[j] == b@[j],
        decreases 12 - i,
    {
        if a[i] != b[i] {
            return false;
        }
        i += 1;
    }
    assert(a@ =~= b@);
    true
}

impl Default for Freshness {
    /// Nothing has been seen.
    fn default() -> (r: Self)
        ensures
            r@ == Fresh::empty(),
            r@.inv(),
    {
        let r = Freshness { rtp: HashMap::new(), rtcp: HashMap::new(), stun: VecDeque::new() };
        assert(r@.stun =~= Seq::<Seq<u8>>::empty());
        r
    }
}

impl Freshness {
    /// Records an authenticated RTP packet; is it newer than any seen under its
    /// SSRC (and so may move the remote)?
    pub fn rtp(&mut self, ssrc: u32, seq: u16) -> (r: bool)
        ensures
            r == old(self)@.rtp_fresh(ssrc, seq),
            final(self)@ == old(self)@.with_rtp(ssrc, seq),
            old(self)@.inv() ==> final(self)@.inv(),
    {
        if let Some(h) = self.rtp.get(&ssrc) {
            if !seq_newer(seq, *h) {
                return false;
            }
        }
        self.rtp.insert(ssrc, seq);
        assert(self@.stun == old(self)@.stun);
        true
    }

    /// Records an authenticated STUN request's transaction ID; is this the
    /// first time that it is seen?
    pub fn stun(&mut self, txid: [u8; 12]) -> (r: bool)
        ensures
            r == old(self)@.stun_fresh(txid@),
            final(self)@ == old(self)@.with_stun(txid@),
            old(self)@.inv() ==> final(self)@.inv(),
    {
        let ghost ids = self@.stun;
        let mut i: usize = 0;
        while i < self.stun.len()
            invariant
                i <= self.stun@.len(),
                *self == *old(self),
                ids == id_views(self.stun@),
                forall|j: int| 0 <= j < i ==> ids[j] != txid@,
            decreases self.stun@.len() - i,
        {
            assert(ids[i as int] == self.stun@[i as int]@);
            if same_id(&self.stun[i], &txid) {
                assert(ids.contains(txid@));
                return false;
            }
            i += 1;
        }
        assert(!ids.contains(txid@));
        if self.stun.len() >= FRESH_MAX_STUN {
            let _ = self.stun.pop_front();
            assert(id_views(self.stun@) =~= ids.drop_first());
        }
        self.stun.push_back(txid);
        assert(self@.stun =~= old(self)@.with_stun(txid@).stun);
        true
    }

    /// Records an authenticated SRTCP packet by its index; is it newer than any
    /// seen from its sender?
    pub fn rtcp(&mut self, ssrc: u32, index: u32) -> (r: bool)
        ensures
            r == old(self)@.rtcp_fresh(ssrc, index),
            final(self)@ == old(self)@.with_rtcp(ssrc, index),
            old(self)@.inv() ==> final(self)@.inv(),
    {
        if let Some(h) = self.rtcp.get(&ssrc) {
            if index <= *h {
                return false;
            }
        }
        self.rtcp.insert(ssrc, index);
        assert(self@.stun == old(self)@.stun);
        true
    }
}

/// The SRTCP index of a protected packet; `None` when the packet is too short
/// to have one behind its header.
pub open spec fn index_of(pkt: Seq<u8>, profile: ProtectionProfile) -> Option<u32> {
    if index_at(pkt, profile) < 8 {
        None
    } else {
        Some(be32(pkt, index_at(pkt, profile)) % 0x8000_0000)
    }
}

/// The SRTCP index (RFC 3711 section 3.4) of a protected packet: the word
/// before the tag, without its E flag. The tag of an AEAD profile is inside the
/// ciphertext, and the index the last word.
pub fn srtcp_index(pkt: &[u8], profile: ProtectionProfile) -> (r: Option<u32>)
    ensures
        r == index_of(pkt@, profile),
{
    let behind: usize = profile.rtcp_auth_tag_len() + 4;
    if pkt.len() < behind + 8 {
        return None;
    }
    Some(read_u32(pkt, pkt.len() - behind) % 0x8000_0000)
}

/// A replay is not fresh: once a packet or a request was recorded, the same one
/// is not fresh again, and nor is anything older under its SSRC.
pub proof fn lemma_replay_is_not_fresh(
    f: Fresh,
    ssrc: u32,
    seq: u16,
    index: u32,
    older: u32,
    txid: Seq<u8>,
)
    requires
        older <= index,
    ensures
        !f.with_rtp(ssrc, seq).rtp_fresh(ssrc, seq),
        !f.with_rtcp(ssrc, index).rtcp_fresh(ssrc, older),
        !f.with_stun(txid).stun_fresh(txid),
{
    let ids = f.with_stun(txid).stun;
    if f.stun_fresh(txid) {
        assert(ids.last() == txid);
        assert(ids.contains(ids.last()));
    }
}

/// What is recorded of an SSRC is never forgotten and only moves forward.
pub proof fn lemma_only_forward(f: Fresh, ssrc: u32, seq: u16, index: u32, other: u32)
    ensures
        ({
            let after = f.with_rtp(ssrc, seq).rtp;
            f.rtp.contains_key(other) ==> after.contains_key(other) && (after[other]
                == f.rtp[other] || newer(after[other], f.rtp[other]))
        }),
        ({
            let after = f.with_rtcp(ssrc, index).rtcp;
            f.rtcp.contains_key(other) ==> after.contains_key(other) && after[other]
                >= f.rtcp[other]
        }),
{
}

impl Fresh {
    /// RTP packets were accepted, in order, each an SSRC and a number.
    pub open spec fn with_all_rtp(self, pkts: Seq<(u32, u16)>) -> Fresh
        decreases pkts.len(),
    {
        if pkts.len() == 0 {
            self
        } else {
            self.with_all_rtp(pkts.drop_last()).with_rtp(pkts.last().0, pkts.last().1)
        }
    }

    /// SRTCP packets were accepted, in order, each an SSRC and an index.
    pub open spec fn with_all_rtcp(self, pkts: Seq<(u32, u32)>) -> Fresh
        decreases pkts.len(),
    {
        if pkts.len() == 0 {
            self
        } else {
            self.with_all_rtcp(pkts.drop_last()).with_rtcp(pkts.last().0, pkts.last().1)
        }
    }
}

/// An RTP packet that was accepted stays stale whatever comes under other
/// SSRCs: none of them, however many, has it forgotten.
pub proof fn lemma_other_streams_forget_nothing(
    f: Fresh,
    ssrc: u32,
    seq: u16,
    later: Seq<(u32, u16)>,
)
    requires
        forall|i: int| 0 <= i < later.len() ==> (#[trigger] later[i]).0 != ssrc,
    ensures
        !f.with_rtp(ssrc, seq).with_all_rtp(later).rtp_fresh(ssrc, seq),
{
    lemma_replay_is_not_fresh(f, ssrc, seq, 0, 0, Seq::empty());
    lemma_untouched_entry(f.with_rtp(ssrc, seq), ssrc, later);
}

/// Packets under other SSRCs leave what is recorded of an SSRC as it is.
proof fn lemma_untouched_entry(f: Fresh, ssrc: u32, later: Seq<(u32, u16)>)
    requires
        forall|i: int| 0 <= i < later.len() ==> (#[trigger] later[i]).0 != ssrc,
    ensures
        ({
            let after = f.with_all_rtp(later).rtp;
            &&& after.contains_key(ssrc) == f.rtp.contains_key(ssrc)
            &&& f.rtp.contains_key(ssrc) ==> after[ssrc] == f.rtp[ssrc]
        }),
    decreases later.len(),
{
    if later.len() > 0 {
        let front = later.drop_last();
        assert forall|i: int| 0 <= i < front.len() implies (#[trigger] front[i]).0 != ssrc by {
            assert(front[i] == later[i]);
        }
        lemma_untouched_entry(f, ssrc, front);
        assert(later[later.len() - 1].0 != ssrc);
    }
}

/// An SRTCP packet that was accepted stays stale whatever comes after it, and
/// so does all that was older.
pub proof fn lemma_control_stays_stale(
    f: Fresh,
    ssrc: u32,
    index: u32,
    older: u32,
    later: Seq<(u32, u32)>,
)
    requires
        older <= index,
    ensures
        !f.with_rtcp(ssrc, index).with_all_rtcp(later).rtcp_fresh(ssrc, older),
{
    lemma_replay_is_not_fresh(f, ssrc, 0, index, older, Seq::empty());
    lemma_control_only_forward(f.with_rtcp(ssrc, index), ssrc, later);
}

proof fn lemma_control_only_forward(f: Fresh, ssrc: u32, later: Seq<(u32, u32)>)
    ensures
        ({
            let after = f.with_all_rtcp(later).rtcp;
            f.rtcp.contains_key(ssrc) ==> after.contains_key(ssrc) && after[ssrc] >= f.rtcp[ssrc]
        }),
    decreases later.len(),
{
    if later.len() > 0 {
        lemma_control_only_forward(f, ssrc, later.drop_last());
    }
}

/// The first packet under an SSRC is fresh, and so is one that is ahead of the
/// newest by less than half a cycle, or has a higher index; a request is fresh
/// under an ID that is not remembered. What is fresh is recorded as the newest.
pub proof fn lemma_newer_is_fresh(f: Fresh, ssrc: u32, seq: u16, index: u32, txid: Seq<u8>)
    ensures
        !f.rtp.contains_key(ssrc) ==> f.rtp_fresh(ssrc, seq),
        f.rtp.contains_key(ssrc) ==> f.rtp_fresh(ssrc, seq) == (0 < (seq - f.rtp[ssrc]) % 0x1_0000
            < 0x8000),
        f.rtp_fresh(ssrc, seq) ==> f.with_rtp(ssrc, seq).rtp == f.rtp.insert(ssrc, seq),
        !f.rtcp.contains_key(ssrc) ==> f.rtcp_fresh(ssrc, index),
        f.rtcp.contains_key(ssrc) ==> f.rtcp_fresh(ssrc, index) == (index > f.rtcp[ssrc]),
        f.rtcp_fresh(ssrc, index) ==> f.with_rtcp(ssrc, index).rtcp == f.rtcp.insert(ssrc, index),
        f.stun_fresh(txid) == !(exists|i: int|
            0 <= i < f.stun.len() && #[trigger] f.stun[i] == txid),
{
}

impl Fresh {
    /// Signed requests were considered, in order, each a transaction ID.
    pub open spec fn with_all_stun(self, ids: Seq<Seq<u8>>) -> Fresh
        decreases ids.len(),
    {
        if ids.len() == 0 {
            self
        } else {
            self.with_all_stun(ids.drop_last()).with_stun(ids.last())
        }
    }
}

/// A request is remembered through 255 others at least.
pub proof fn lemma_requests_are_remembered(f: Fresh, txid: Seq<u8>, later: Seq<Seq<u8>>)
    requires
        f.inv(),
        f.stun_fresh(txid),
        later.len() <= 255,
    ensures
        !f.with_stun(txid).with_all_stun(later).stun_fresh(txid),
{
    let start = f.with_stun(txid);
    assert(start.stun.last() == txid);
    lemma_place_kept(start, txid, start.stun.len() - 1, later);
}

/// What stands at a place among the IDs moves forward by one at most for each
/// request.
proof fn lemma_place_kept(f: Fresh, txid: Seq<u8>, at: int, later: Seq<Seq<u8>>) -> (r: int)
    requires
        f.inv(),
        0 <= at < f.stun.len(),
        f.stun[at] == txid,
        later.len() <= at + FRESH_MAX_STUN - f.stun.len(),
    ensures
        ({
            let after = f.with_all_stun(later);
            &&& after.inv()
            &&& 0 <= r < after.stun.len()
            &&& after.stun[r] == txid
            &&& r + FRESH_MAX_STUN - after.stun.len() >= at + FRESH_MAX_STUN - f.stun.len()
                - later.len()
        }),
    decreases later.len(),
{
    if later.len() == 0 {
        at
    } else {
        let mid = f.with_all_stun(later.drop_last());
        let r = lemma_place_kept(f, txid, at, later.drop_last());
        if mid.stun_fresh(later.last()) && mid.stun.len() >= FRESH_MAX_STUN {
            r - 1
        } else {
            r
        }
    }
}

/// The index of an SRTCP packet is the low 31 bits of its last word under an AEAD
/// profile, and of the word before a tag of ten bytes under any other; a packet
/// that has no room for it behind its header has none.
pub proof fn lemma_index_place(pkt: Seq<u8>, profile: ProtectionProfile)
    ensures
        ({
            let at: int = match profile {
                ProtectionProfile::AeadAes128Gcm => pkt.len() - 4,
                ProtectionProfile::AeadAes256Gcm => pkt.len() - 4,
                _ => pkt.len() - 14,
            };
            &&& at < 8 ==> index_of(pkt, profile) is None
            &&& at >= 8 ==> index_of(pkt, profile) == Some(
                (pkt[at] % 128 * 0x100_0000 + pkt[at + 1] * 0x1_0000 + pkt[at + 2] * 0x100
                    + pkt[at + 3]) as u32,
            )
        }),
{
    reveal(be32);
}

} // verus!
