//! One relay leg: what its receive loop, its send task and the other legs of
//! its group share.
use vstd::prelude::*;
use std::collections::VecDeque;

use crate::relay::nack::{NackLimiter, NackReq};
use crate::relay::outbound::OutRoute;
use crate::relay::pt_map::Pts;
use crate::relay::pt_map::PtMap;
use crate::rtp::{RtpPacket, RTP_FIXED_HEADER_LEN, RTP_MAX_LENGTH};

verus! {

/// Depth of a leg's forward queue: room for a keyframe burst. Beyond it the
/// newest packet is dropped.
pub const RELAY_QUEUE_DEPTH: usize = 256;

/// Most NACK requests queued for a leg's send task; beyond it new ones are
/// dropped.
pub const NACK_QUEUE_DEPTH: usize = 64;

/// One forwarded packet on its way to a leg's send task, with its source leg
/// and that leg's payload types.
#[derive(Debug)]
pub struct RelayFrame {
    pub src: u64,
    pub src_pts: PtMap,
    pub pkt: RtpPacket,
}

/// What a `RelayFrame` holds.
pub struct Frame {
    pub src: u64,
    pub pts: Pts,
    pub pkt: Seq<u8>,
}

impl View for RelayFrame {
    type V = Frame;

    open spec fn view(&self) -> Frame {
        Frame { src: self.src, pts: self.src_pts@, pkt: self.pkt@ }
    }
}

/// One outbound stream of a leg, as it is reported: what a signalling layer
/// announces to the receiving endpoint.
#[derive(Debug, Clone, PartialEq, Eq)]
pub struct StreamInfo {
    /// The source leg's label.
    pub source: String,
    /// The SSRC that this leg forwards the stream under.
    pub ssrc: u32,
    /// The source's own SSRC for it.
    pub source_ssrc: u32,
    /// The payload type that it last went out under.
    pub pt: Option<u8>,
}

/// A relay leg's counters. They wrap.
#[derive(Debug, Clone, Copy, PartialEq, Eq)]
pub struct RelayCounters {
    /// Inbound RTP datagrams, before decryption.
    pub in_count: u64,
    /// Inbound RTP accepted for forwarding: authenticated on a secure leg,
    /// well-formed on a clear one.
    pub accepted: u64,
    /// Inbound RTCP accepted the same way.
    pub rtcp_in: u64,
    /// Secure leg with keys, but authentication or decryption failed.
    pub decrypt_failed: u64,
    /// Secure leg without keys yet.
    pub prekey_dropped: u64,
    /// Packets forwarded out of this leg.
    pub out_count: u64,
    /// Packets dropped because the forward queue was full.
    pub dropped: u64,
    /// Forwarded packets dropped because this leg has no payload type for them.
    pub pt_dropped: u64,
}

/// Counters of a leg that has seen nothing.
pub open spec fn no_counts() -> RelayCounters {
    RelayCounters {
        in_count: 0,
        accepted: 0,
        rtcp_in: 0,
        decrypt_failed: 0,
        prekey_dropped: 0,
        out_count: 0,
        dropped: 0,
        pt_dropped: 0,
    }
}

/// The shared face of a relay channel.
pub struct RelayShared {
    id: u64,
    label: String,
    depth: usize,
    queue: VecDeque<RelayFrame>,
    pli: bool,
    retired: Vec<u64>,
    retire_pending: bool,
    out_routes: Vec<OutRoute>,
    nacks: Vec<NackReq>,
    nack_limit: NackLimiter,
    nack_wake: bool,
    pts: PtMap,
    secure: bool,
    counters: RelayCounters,
}

/// The state of a leg.
pub struct Leg {
    /// Identifies the leg as a source.
    pub id: u64,
    /// How the leg is named as a source.
    pub label: Seq<char>,
    /// How many frames its queue holds.
    pub depth: nat,
    /// Frames for its send task.
    pub queue: Seq<Frame>,
    /// Its send task is asked to request a keyframe of its remote.
    pub pli: bool,
    /// Source legs that left its group since its send task last looked.
    pub retired: Seq<u64>,
    /// `retired` has grown since.
    pub retire_pending: bool,
    /// How its outbound streams map back to their sources.
    pub routes: Seq<OutRoute>,
    /// NACKs for its remote, by media SSRC and entries.
    pub nacks: Seq<(u32, Seq<(u16, u16)>)>,
    /// When its remote was asked for which packets.
    pub recent: Map<u64, u64>,
    /// Its send task is asked to look at `nacks`.
    pub nack_wake: bool,
    /// The payload types that it negotiated.
    pub pts: Pts,
    /// It negotiated DTLS-SRTP: media is withheld until there are keys.
    pub secure: bool,
    /// Its counters.
    pub counters: RelayCounters,
}

/// The bytes of an RTP packet: a whole fixed header, in no more than fit.
pub open spec fn whole_packet(pkt: Seq<u8>) -> bool {
    RTP_FIXED_HEADER_LEN <= pkt.len() <= RTP_MAX_LENGTH
}

/// Queued frames by what they hold.
pub open spec fn frame_views(q: Seq<RelayFrame>) -> Seq<Frame> {
    q.map_values(|f: RelayFrame| f@)
}

/// Requests by media SSRC and entries.
pub open spec fn req_views(v: Seq<NackReq>) -> Seq<(u32, Seq<(u16, u16)>)> {
    v.map_values(|r: NackReq| (r.media_ssrc, r.fci@))
}

impl View for RelayShared {
    type V = Leg;

    closed spec fn view(&self) -> Leg {
        Leg {
            id: self.id,
            label: self.label@,
            depth: self.depth as nat,
            queue: frame_views(self.queue@),
            pli: self.pli,
            retired: self.retired@,
            retire_pending: self.retire_pending,
            routes: self.out_routes@,
            nacks: req_views(self.nacks@),
            recent: self.nack_limit@,
            nack_wake: self.nack_wake,
            pts: self.pts@,
            secure: self.secure,
            counters: self.counters,
        }
    }
}

impl Leg {
    /// What holds of every leg: its queue holds whole packets, and no more NACKs
    /// wait than may.
    pub open spec fn inv(self) -> bool {
        &&& forall|i: int|
            0 <= i < self.queue.len() ==> whole_packet((#[trigger] self.queue[i]).pkt)
        &&& self.nacks.len() <= NACK_QUEUE_DEPTH
    }

    /// A frame arrives for the send task: it is queued, or dropped and counted
    /// where the queue is full.
    pub open spec fn delivered(self, f: Frame) -> Leg {
        if self.queue.len() < self.depth {
            Leg { queue: self.queue.push(f), ..self }
        } else {
            Leg {
                counters: RelayCounters {
                    dropped: self.counters.dropped.wrapping_add(1),
                    ..self.counters
                },
                ..self
            }
        }
    }

    /// Sources left its group.
    pub open spec fn retiring(self, gone: Seq<u64>) -> Leg {
        Leg { retired: self.retired + gone, retire_pending: true, ..self }
    }

    /// A keyframe is asked for.
    pub open spec fn asked_keyframe(self) -> Leg {
        Leg { pli: true, ..self }
    }

    /// Legs that are members again are not retired.
    pub open spec fn welcoming(self, members: Seq<u64>) -> Leg {
        Leg {
            retired: self.retired.filter(|id: u64| !members.contains(id)),
            pli: true,
            ..self
        }
    }

    /// The media-flowing signal of the idle detector: packets from the remote
    /// that were accepted.
    pub open spec fn liveness(self) -> u64 {
        self.counters.accepted.wrapping_add(self.counters.rtcp_in)
    }

    /// One inbound muxed RTCP datagram is counted: with keys by whether it
    /// decrypted; without, as accepted on a clear leg and as early on a secure
    /// one.
    pub open spec fn rtcp_counted(self, keyed: bool, ok: bool) -> Leg {
        let c = self.counters;
        Leg {
            counters: if keyed && !ok {
                RelayCounters { decrypt_failed: c.decrypt_failed.wrapping_add(1), ..c }
            } else if !keyed && self.secure {
                RelayCounters { prekey_dropped: c.prekey_dropped.wrapping_add(1), ..c }
            } else {
                RelayCounters { rtcp_in: c.rtcp_in.wrapping_add(1), ..c }
            },
            ..self
        }
    }
}

impl RelayShared {
    /// A leg with an id, the depth of its forward queue, whether it negotiated
    /// DTLS-SRTP, and the payload type of its primary codec (0 for none). Its
    /// label is its id until it is given one.
    pub fn new(id: u64, depth: usize, secure: bool, primary_pt: u32) -> (r: Self)
        ensures
            r@.id == id,
            r@.label == decimal(id as nat),
            r@.depth == depth,
            r@.queue == Seq::<Frame>::empty(),
            !r@.pli,
            r@.retired == Seq::<u64>::empty(),
            !r@.retire_pending,
            r@.routes == Seq::<OutRoute>::empty(),
            r@.nacks == Seq::<(u32, Seq<(u16, u16)>)>::empty(),
            r@.recent == Map::<u64, u64>::empty(),
            !r@.nack_wake,
            r@.pts.primary == if crate::relay::pt_map::valid_pt(primary_pt) {
                Some(primary_pt as u8)
            } else {
                None
            },
            r@.pts.named.len() == 0,
            r@.secure == secure,
            r@.counters == no_counts(),
    {
        let r = RelayShared {
            id,
            label: decimal_string(id),
            depth,
            queue: VecDeque::new(),
            pli: false,
            retired: Vec::new(),
            retire_pending: false,
            out_routes: Vec::new(),
            nacks: Vec::new(),
            nack_limit: NackLimiter::default(),
            nack_wake: false,
            pts: PtMap::new(primary_pt, Vec::new()),
            secure,
            counters: RelayCounters {
                in_count: 0,
                accepted: 0,
                rtcp_in: 0,
                decrypt_failed: 0,
                prekey_dropped: 0,
                out_count: 0,
                dropped: 0,
                pt_dropped: 0,
            },
        };
        assert(r@.queue =~= Seq::<Frame>::empty());
        assert(r@.nacks =~= Seq::<(u32, Seq<(u16, u16)>)>::empty());
        r
    }

    /// Names this leg as a source.
    pub fn with_label(self, label: String) -> (r: Self)
        ensures
            r@ == (Leg { label: label@, ..self@ }),
    {
        let mut leg = self;
        leg.label = label;
        leg
    }

    pub fn id(&self) -> (r: u64)
        ensures
            r == self@.id,
    {
        self.id
    }

    pub fn label(&self) -> (r: String)
        ensures
            r@ == self@.label,
    {
        self.label.clone()
    }

    /// Did this leg negotiate DTLS-SRTP?
    pub fn is_secure(&self) -> (r: bool)
        ensures
            r == self@.secure,
    {
        self.secure
    }

    /// Sets whether this leg negotiated DTLS-SRTP.
    pub fn set_secure(&mut self, secure: bool)
        ensures
            final(self)@ == (Leg { secure, ..old(self)@ }),
    {
        self.secure = secure;
    }

    /// Replaces the leg's payload types.
    pub fn set_pts(&mut self, pts: PtMap)
        ensures
            final(self)@ == (Leg { pts: pts@, ..old(self)@ }),
    {
        self.pts = pts;
    }

    /// The leg's payload types.
    pub fn pts(&self) -> (r: &PtMap)
        ensures
            r@ == self@.pts,
    {
        &self.pts
    }

    /// Packets from the remote that were accepted: RTP and RTCP.
    pub fn liveness(&self) -> (r: u64)
        ensures
            r == self@.liveness(),
    {
        self.counters.accepted.wrapping_add(self.counters.rtcp_in)
    }

    /// Point-in-time copy of every counter.
    pub fn snapshot(&self) -> (r: RelayCounters)
        ensures
            r == self@.counters,
    {
        self.counters
    }

    /// How the leg's outbound streams map back to their sources.
    pub fn out_routes(&self) -> (r: &Vec<OutRoute>)
        ensures
            r@ == self@.routes,
    {
        &self.out_routes
    }

    /// Publishes how the outbound streams map back to their sources.
    pub fn set_out_routes(&mut self, routes: Vec<OutRoute>)
        ensures
            final(self)@ == (Leg { routes: routes@, ..old(self)@ }),
    {
        self.out_routes = routes;
    }

    /// Source legs that left the group since the send task last looked.
    pub fn retired(&self) -> (r: &Vec<u64>)
        ensures
            r@ == self@.retired,
    {
        &self.retired
    }

    /// Has `retired` grown since it was last taken or looked for?
    pub(crate) fn take_retire_pending(&mut self) -> (r: bool)
        ensures
            r == old(self)@.retire_pending,
            final(self)@ == (Leg { retire_pending: false, ..old(self)@ }),
    {
        let r = self.retire_pending;
        self.retire_pending = false;
        r
    }

    /// Takes the source legs that left the group.
    pub(crate) fn take_retired(&mut self) -> (r: Vec<u64>)
        ensures
            r@ == old(self)@.retired,
            final(self)@ == (Leg { retired: Seq::empty(), ..old(self)@ }),
    {
        let mut taken: Vec<u64> = Vec::new();
        core::mem::swap(&mut taken, &mut self.retired);
        taken
    }

    /// A source left the group.
    pub(crate) fn retire(&mut self, src: u64)
        ensures
            final(self)@ == old(self)@.retiring(seq![src]),
    {
        self.retired.push(src);
        self.retire_pending = true;
        assert(self@.retired =~= old(self)@.retired + seq![src]);
    }

    /// The leg left its group, and with it these sources.
    pub(crate) fn retire_all(&mut self, gone: &Vec<u64>)
        ensures
            final(self)@ == old(self)@.retiring(gone@),
    {
        self.retired.extend_from_slice(gone.as_slice());
        self.retire_pending = true;
        assert(self@.retired =~= old(self)@.retired + gone@);
    }

    /// These legs are members (again); a keyframe is asked for.
    pub(crate) fn welcome(&mut self, members: &Vec<u64>)
        ensures
            final(self)@ == old(self)@.welcoming(members@),
    {
        let mut kept: Vec<u64> = Vec::new();
        let ghost keep = |id: u64| !members@.contains(id);
        let mut i: usize = 0;
        while i < self.retired.len()
            invariant
                i <= self.retired@.len(),
                *self == *old(self),
                keep == (|id: u64| !members@.contains(id)),
                kept@ == self.retired@.take(i as int).filter(keep),
            decreases self.retired@.len() - i,
        {
            let id: u64 = self.retired[i];
            reveal(Seq::filter);
            assert(self.retired@.take(i + 1).drop_last() =~= self.retired@.take(i as int));
            if !crate::relay::leg::has_id(members, id) {
                kept.push(id);
            }
            i += 1;
        }
        assert(self.retired@.take(i as int) =~= self.retired@);
        self.retired = kept;
        self.pli = true;
    }

    /// A keyframe is asked for.
    pub(crate) fn ask_keyframe(&mut self)
        ensures
            final(self)@ == old(self)@.asked_keyframe(),
    {
        self.pli = true;
    }

    /// Takes the request for a keyframe, if there is one.
    pub fn take_pli(&mut self) -> (r: bool)
        ensures
            r == old(self)@.pli,
            final(self)@ == (Leg { pli: false, ..old(self)@ }),
    {
        let r = self.pli;
        self.pli = false;
        r
    }

    /// Is the send task asked to look at the NACKs?
    pub fn nack_pending(&self) -> (r: bool)
        ensures
            r == self@.nack_wake,
    {
        self.nack_wake
    }

    /// The NACKs for this leg's remote, as they wait.
    pub fn nacks(&self) -> (r: &Vec<NackReq>)
        ensures
            req_views(r@) == self@.nacks,
    {
        &self.nacks
    }

    /// Takes the NACKs for this leg's remote.
    pub fn take_nacks(&mut self) -> (r: Vec<NackReq>)
        ensures
            req_views(r@) == old(self)@.nacks,
            final(self)@ == (Leg { nacks: Seq::empty(), nack_wake: false, ..old(self)@ }),
    {
        let mut taken: Vec<NackReq> = Vec::new();
        core::mem::swap(&mut taken, &mut self.nacks);
        self.nack_wake = false;
        assert(self@.nacks =~= Seq::<(u32, Seq<(u16, u16)>)>::empty());
        taken
    }

    /// A frame arrives for the send task.
    pub(crate) fn deliver(&mut self, frame: RelayFrame)
        ensures
            final(self)@ == old(self)@.delivered(frame@),
    {
        if self.queue.len() < self.depth {
            self.queue.push_back(frame);
            assert(self@.queue =~= old(self)@.queue.push(frame@));
        } else {
            self.counters.dropped = self.counters.dropped.wrapping_add(1);
        }
    }

    /// Takes the oldest frame for the send task.
    pub fn take_frame(&mut self) -> (r: Option<RelayFrame>)
        requires
            old(self)@.inv(),
        ensures
            final(self)@.inv(),
            r matches Some(f) ==> f.pkt.inv(),
            match r {
                Some(f) => old(self)@.queue.len() > 0 && f@ == old(self)@.queue[0] && final(self)@
                    == (Leg { queue: old(self)@.queue.drop_first(), ..old(self)@ }),
                None => old(self)@.queue.len() == 0 && final(self)@ == old(self)@,
            },
    {
        let r = self.queue.pop_front();
        assert(r is Some ==> self@.queue =~= old(self)@.queue.drop_first());
        assert(r matches Some(f) ==> old(self)@.queue[0] == f@);
        r
    }

    /// Counts one inbound muxed RTCP datagram.
    pub fn count_rtcp(&mut self, keyed: bool, ok: bool)
        ensures
            final(self)@ == old(self)@.rtcp_counted(keyed, ok),
    {
        if keyed && !ok {
            self.counters.decrypt_failed = self.counters.decrypt_failed.wrapping_add(1);
        } else if !keyed && self.secure {
            self.counters.prekey_dropped = self.counters.prekey_dropped.wrapping_add(1);
        } else {
            self.counters.rtcp_in = self.counters.rtcp_in.wrapping_add(1);
        }
    }

    /// Replaces the counters.
    pub(crate) fn set_counters(&mut self, counters: RelayCounters)
        ensures
            final(self)@ == (Leg { counters, ..old(self)@ }),
    {
        self.counters = counters;
    }

    /// Queues a NACK for this leg's remote: what of it may be asked, where
    /// there is room.
    pub(crate) fn queue_nack(&mut self, req: &NackReq, now: u64)
        ensures
            final(self)@ == old(self)@.nacked(req.media_ssrc, req.fci@, now),
    {
        if let Some(req) = self.nack_limit.admit_request(req, now) {
            if self.nacks.len() < NACK_QUEUE_DEPTH {
                let ghost entry = (req.media_ssrc, req.fci@);
                self.nacks.push(req);
                self.nack_wake = true;
                assert(self@.nacks =~= old(self)@.nacks.push(entry));
            }
        }
    }
}

impl Leg {
    /// A receiver asks for packets of this leg's remote: those that may be
    /// asked are queued, where there is room.
    pub open spec fn nacked(self, media_ssrc: u32, fci: Seq<(u16, u16)>, now: u64) -> Leg {
        let st = (crate::relay::nack::Admission {
            recent: crate::relay::nack::purged(self.recent, now),
            fci: Seq::empty(),
        }).with_all(media_ssrc, crate::relay::nack::numbers(fci), now);
        if st.fci.len() > 0 && self.nacks.len() < NACK_QUEUE_DEPTH {
            Leg {
                recent: st.recent,
                nacks: self.nacks.push((media_ssrc, st.fci)),
                nack_wake: true,
                ..self
            }
        } else {
            Leg { recent: st.recent, ..self }
        }
    }
}

/// Is an id in a list?
pub(crate) fn has_id(ids: &Vec<u64>, id: u64) -> (r: bool)
    ensures
        r == ids@.contains(id),
{
    let mut i: usize = 0;
    while i < ids.len()
        invariant
            i <= ids@.len(),
            forall|j: int| 0 <= j < i ==> ids@[j] != id,
        decreases ids@.len() - i,
    {
        if ids[i] == id {
            return true;
        }
        i += 1;
    }
    false
}

/// A decimal digit.
pub open spec fn digit(d: nat) -> char {
    ((48 + d % 10) as u8) as char
}

/// A number in decimal.
pub open spec fn decimal(n: nat) -> Seq<char>
    decreases n,
{
    if n < 10 {
        seq![digit(n)]
    } else {
        decimal(n / 10).push(digit(n))
    }
}

/// A number in decimal.
fn decimal_chars(n: u64) -> (r: Vec<char>)
    ensures
        r@ == decimal(n as nat),
    decreases n,
{
    let last: char = ((48 + n % 10) as u8) as char;
    if n < 10 {
        let mut v: Vec<char> = Vec::new();
        v.push(last);
        assert(v@ =~= seq![digit(n as nat)]);
        v
    } else {
        let mut v = decimal_chars(n / 10);
        v.push(last);
        v
    }
}

/// A number in decimal.
fn decimal_string(n: u64) -> (r: String)
    ensures
        r@ == decimal(n as nat),
{
    crate::text::string_of(&decimal_chars(n))
}

/// The number that decimal digits make.
pub open spec fn decimal_value(s: Seq<char>) -> int
    decreases s.len(),
{
    if s.len() == 0 {
        0
    } else {
        10 * decimal_value(s.drop_last()) + (s.last() as int - '0' as int)
    }
}

/// The decimal digits of a number make the number, and only zero begins with a zero.
pub proof fn lemma_decimal(n: nat)
    ensures
        decimal_value(decimal(n)) == n,
        decimal(n).len() > 0,
        forall|i: int| 0 <= i < decimal(n).len() ==> '0' <= #[trigger] decimal(n)[i] <= '9',
        n > 0 ==> decimal(n)[0] != '0',
    decreases n,
{
    let s = decimal(n);
    if n < 10 {
        assert(s.drop_last() =~= Seq::<char>::empty());
        assert(decimal_value(s.drop_last()) == 0);
    } else {
        lemma_decimal(n / 10);
        assert(s.drop_last() =~= decimal(n / 10));
    }
}

} // verus!
