//! Mapping a receiver's requests back to the sources that they are about.
use vstd::prelude::*;

use crate::relay::feedback::Asked;
use crate::relay::feedback::{nack_views, Feedback};
use crate::relay::hub::{changed, Hub};
use crate::relay::hub::RelayHub;
use crate::relay::leg::Leg;
use crate::relay::leg::StreamInfo;
use crate::relay::nack::{asks, at_or_after, clipped, lemma_clip_exact};
use crate::relay::nack::{clip_nack, NackReq};
use crate::relay::outbound::OutRoute;
use crate::relay::seq_map::Numbering;

verus! {

/// Most entries relayed from one inbound NACK compound: an entry asks for up to
/// 17 packets, and a compound may carry hundreds of entries.
pub const MAX_NACK_FCI: usize = 32;

/// The first route of an outbound SSRC, from `at` on.
pub open spec fn first_route(routes: Seq<OutRoute>, ssrc: u32, at: int) -> Option<OutRoute>
    decreases routes.len() - at,
{
    if at >= routes.len() {
        None
    } else if routes[at].ssrc == ssrc {
        Some(routes[at])
    } else {
        first_route(routes, ssrc, at + 1)
    }
}

/// The route of an outbound SSRC.
pub open spec fn route_of(routes: Seq<OutRoute>, ssrc: u32) -> Option<OutRoute> {
    first_route(routes, ssrc, 0)
}

/// Some of these SSRCs is one that the leg sends of source `src`.
pub open spec fn names_source(routes: Seq<OutRoute>, ssrcs: Seq<u32>, src: u64) -> bool {
    exists|i: int|
        0 <= i < ssrcs.len() && (route_of(routes, #[trigger] ssrcs[i]) matches Some(r) && r.src
            == src)
}

/// A NACK entry on an outbound stream, in the terms of its source: without
/// packets of an earlier stream under the SSRC, and by the source's numbers.
pub open spec fn translated_entry(r: OutRoute, pid: u16, blp: u16) -> Option<(u16, u16)> {
    match r.base {
        Some(b) => match clipped(pid, blp, b) {
            Some((p, m)) => Some((p.wrapping_sub(r.offset), m)),
            None => None,
        },
        None => Some((pid.wrapping_sub(r.offset), blp)),
    }
}

/// NACK entries on an outbound stream, in the terms of its source; those of
/// which nothing is left are dropped.
pub open spec fn translated(r: OutRoute, fci: Seq<(u16, u16)>) -> Seq<(u16, u16)>
    decreases fci.len(),
{
    if fci.len() == 0 {
        Seq::empty()
    } else {
        let before = translated(r, fci.drop_last());
        match translated_entry(r, fci.last().0, fci.last().1) {
            Some(e) => before.push(e),
            None => before,
        }
    }
}

/// The front of a list, of `n` elements at most.
pub open spec fn at_most(s: Seq<(u16, u16)>, n: int) -> Seq<(u16, u16)> {
    if s.len() <= n {
        s
    } else {
        s.take(n)
    }
}

/// A request of a source: its id, its SSRC, and entries.
pub struct SourceReq {
    pub src: u64,
    pub ssrc: u32,
    pub fci: Seq<(u16, u16)>,
}

/// The requests that NACKs come to, in order, and how many entries more may be
/// relayed.
pub open spec fn requests(
    routes: Seq<OutRoute>,
    items: Seq<(u32, Seq<(u16, u16)>)>,
) -> (Seq<SourceReq>, int)
    decreases items.len(),
{
    if items.len() == 0 {
        (Seq::empty(), MAX_NACK_FCI as int)
    } else {
        let (before, budget) = requests(routes, items.drop_last());
        match route_of(routes, items.last().0) {
            Some(r) => {
                let fci = at_most(translated(r, items.last().1), budget);
                (
                    if fci.len() > 0 {
                        before.push(SourceReq { src: r.src, ssrc: r.src_ssrc, fci })
                    } else {
                        before
                    },
                    budget - fci.len(),
                )
            },
            None => (before, budget),
        }
    }
}

/// Requests reach those sources that `p` picks, in order.
pub open spec fn requested(
    legs: Map<u64, Leg>,
    p: spec_fn(u64) -> bool,
    reqs: Seq<SourceReq>,
    now: u64,
) -> Map<u64, Leg>
    decreases reqs.len(),
{
    if reqs.len() == 0 {
        legs
    } else {
        let before = requested(legs, p, reqs.drop_last(), now);
        let r = reqs.last();
        if p(r.src) {
            before.insert(r.src, before[r.src].nacked(r.ssrc, r.fci, now))
        } else {
            before
        }
    }
}

/// How a stream is reported: its source's label, its SSRC, the source's SSRC
/// for it, and its payload type.
pub struct Listed {
    pub source: Seq<char>,
    pub ssrc: u32,
    pub source_ssrc: u32,
    pub pt: Option<u8>,
}

/// Reported streams by what they say.
pub open spec fn info_views(v: Seq<StreamInfo>) -> Seq<Listed> {
    v.map_values(
        |s: StreamInfo|
            Listed { source: s.source@, ssrc: s.ssrc, source_ssrc: s.source_ssrc, pt: s.pt },
    )
}

impl Hub {
    /// None of these SSRCs is one that a leg sends of a peer: they are unknown
    /// to it, or their sources have left.
    pub open spec fn names_no_peer(self, id: u64, ssrcs: Seq<u32>) -> bool {
        forall|i: int|
            0 <= i < ssrcs.len() ==> (route_of(self.legs[id].routes, #[trigger] ssrcs[i])
                matches Some(r) ==> !self.peers(id, r.src))
    }

    /// The remote of a leg asks for a keyframe of these SSRCs: each peer that
    /// they name is asked, and every peer where they name none.
    pub open spec fn keyframe_asked(self, id: u64, ssrcs: Seq<u32>) -> Hub {
        let routes = self.legs[id].routes;
        Hub {
            legs: changed(
                self.legs,
                |k: u64|
                    self.peers(id, k) && (self.names_no_peer(id, ssrcs) || names_source(
                        routes,
                        ssrcs,
                        k,
                    )),
                |l: Leg| l.asked_keyframe(),
            ),
            ..self
        }
    }

    /// The remote of a leg asks for packets again: each source that is a peer
    /// is asked for its own.
    pub open spec fn nacks_relayed(
        self,
        id: u64,
        items: Seq<(u32, Seq<(u16, u16)>)>,
        now: u64,
    ) -> Hub {
        Hub {
            legs: requested(
                self.legs,
                |k: u64| self.peers(id, k),
                requests(self.legs[id].routes, items).0,
                now,
            ),
            ..self
        }
    }

    /// The remote of a leg sends feedback.
    pub open spec fn fed_back(self, id: u64, fb: Asked, now: u64) -> Hub {
        let asked = match fb.keyframe {
            Some(ssrcs) => self.keyframe_asked(id, ssrcs),
            None => self,
        };
        asked.nacks_relayed(id, fb.nacks, now)
    }

    /// The streams of these routes whose sources are peers, in order.
    pub open spec fn listed(self, id: u64, routes: Seq<OutRoute>) -> Seq<Listed>
        decreases routes.len(),
    {
        if routes.len() == 0 {
            Seq::empty()
        } else {
            let before = self.listed(id, routes.drop_last());
            let r = routes.last();
            if self.peers(id, r.src) {
                before.push(
                    Listed {
                        source: self.legs[r.src].label,
                        ssrc: r.ssrc,
                        source_ssrc: r.src_ssrc,
                        pt: r.pt,
                    },
                )
            } else {
                before
            }
        }
    }
}

fn find_route(routes: &Vec<OutRoute>, ssrc: u32) -> (r: Option<OutRoute>)
    ensures
        r == route_of(routes@, ssrc),
{
    let mut i: usize = 0;
    while i < routes.len()
        invariant
            i <= routes@.len(),
            route_of(routes@, ssrc) == first_route(routes@, ssrc, i as int),
        decreases routes@.len() - i,
    {
        if routes[i].ssrc == ssrc {
            return Some(routes[i]);
        }
        i += 1;
    }
    None
}

/// The sources that some SSRCs name.
fn named_sources(routes: &Vec<OutRoute>, ssrcs: &Vec<u32>) -> (r: Vec<u64>)
    ensures
        forall|src: u64| #[trigger] r@.contains(src) == names_source(routes@, ssrcs@, src),
{
    let mut out: Vec<u64> = Vec::new();
    let ghost mut upto: Seq<u32> = Seq::empty();
    let mut i: usize = 0;
    while i < ssrcs.len()
        invariant
            i <= ssrcs@.len(),
            upto == ssrcs@.take(i as int),
            forall|src: u64| #[trigger] out@.contains(src) == names_source(routes@, upto, src),
        decreases ssrcs@.len() - i,
    {
        let m: u32 = ssrcs[i];
        let ghost next = ssrcs@.take(i + 1);
        let ghost before = out@;
        assert(next[i as int] == m);
        assert forall|j: int| 0 <= j < i implies next[j] == #[trigger] upto[j] by {}
        let found = find_route(routes, m);
        if let Some(r) = found {
            out.push(r.src);
        }
        proof {
            assert forall|src: u64| #[trigger] out@.contains(src) == names_source(
                routes@,
                next,
                src,
            ) by {
                assert(before.contains(src) == names_source(routes@, upto, src));
                if before.contains(src) {
                    let a = choose|a: int| 0 <= a < before.len() && before[a] == src;
                    assert(out@[a] == src);
                    let j = choose|j: int|
                        0 <= j < upto.len() && (route_of(routes@, #[trigger] upto[j]) matches Some(
                            r,
                        ) && r.src == src);
                    assert(next[j] == upto[j]);
                }
                if let Some(r) = found {
                    assert(out@[before.len() as int] == r.src);
                    if r.src == src {
                        assert(route_of(routes@, next[i as int]) == Some(r));
                    }
                }
                if names_source(routes@, next, src) {
                    let j = choose|j: int|
                        0 <= j < next.len() && (route_of(routes@, #[trigger] next[j]) matches Some(
                            r,
                        ) && r.src == src);
                    if j < i {
                        assert(route_of(routes@, upto[j]) == route_of(routes@, next[j]));
                    }
                }
                if out@.contains(src) && !before.contains(src) {
                    let a = choose|a: int| 0 <= a < out@.len() && out@[a] == src;
                    if a < before.len() {
                        assert(before[a] == src);
                    }
                }
            }
            upto = next;
        }
        i += 1;
    }
    assert(upto =~= ssrcs@);
    out
}

/// Is some other member among these sources?
fn has_peer(members: &Vec<u64>, id: u64, sources: &Vec<u64>) -> (r: bool)
    ensures
        r == exists|k: u64| k != id && members@.contains(k) && #[trigger] sources@.contains(k),
{
    let mut i: usize = 0;
    while i < sources.len()
        invariant
            i <= sources@.len(),
            forall|j: int|
                0 <= j < i ==> sources@[j] == id || !members@.contains(#[trigger] sources@[j]),
        decreases sources@.len() - i,
    {
        if sources[i] != id && crate::relay::leg::has_id(members, sources[i]) {
            assert(sources@.contains(sources@[i as int]));
            return true;
        }
        i += 1;
    }
    assert forall|k: u64| k != id && members@.contains(k) implies !#[trigger] sources@.contains(
        k,
    ) by {
        if sources@.contains(k) {
            let j = choose|j: int| 0 <= j < sources@.len() && sources@[j] == k;
            assert(!members@.contains(sources@[j]));
        }
    }
    false
}

/// Some peer is named exactly where not none is.
proof fn lemma_names_no_peer(hub: Hub, id: u64, ssrcs: Seq<u32>)
    ensures
        hub.names_no_peer(id, ssrcs) == !exists|k: u64|
            hub.peers(id, k) && #[trigger] names_source(hub.legs[id].routes, ssrcs, k),
{
    let routes = hub.legs[id].routes;
    if hub.names_no_peer(id, ssrcs) {
        assert forall|k: u64| hub.peers(id, k) implies !#[trigger] names_source(
            routes,
            ssrcs,
            k,
        ) by {
            if names_source(routes, ssrcs, k) {
                let i = choose|i: int|
                    0 <= i < ssrcs.len() && (route_of(routes, #[trigger] ssrcs[i]) matches Some(r)
                        && r.src == k);
                assert(route_of(routes, ssrcs[i]) is Some);
            }
        }
    } else {
        let i = choose|i: int|
            0 <= i < ssrcs.len() && (route_of(routes, #[trigger] ssrcs[i]) matches Some(r)
                && hub.peers(id, r.src));
        let k = route_of(routes, ssrcs[i])->0.src;
        assert(names_source(routes, ssrcs, k));
    }
}

impl RelayHub {
    /// The remote of a leg asks for a keyframe of these SSRCs, which the leg
    /// sends it. Each source leg of the group that they name is asked to request
    /// one of its own remote; where they name none (they are unknown, or of
    /// sources that have left), every source of the group is asked, since a
    /// frozen picture costs more than a keyframe.
    pub fn request_keyframe(&mut self, id: u64, media_ssrcs: &Vec<u32>)
        requires
            old(self)@.inv(),
            old(self)@.legs.contains_key(id),
        ensures
            final(self)@ == old(self)@.keyframe_asked(id, media_ssrcs@),
            final(self)@.inv(),
    {
        let ghost before = self@;
        let ghost routes = before.legs[id].routes;
        let sources: Vec<u64> = match self.leg(id) {
            Some(l) => named_sources(l.out_routes(), media_ssrcs),
            None => Vec::new(),
        };
        let members = self.members(id);
        let ghost m = members@;
        let ghost f = |l: Leg| l.asked_keyframe();
        let everyone = !has_peer(&members, id, &sources);
        proof {
            lemma_names_no_peer(before, id, media_ssrcs@);
            if !before.names_no_peer(id, media_ssrcs@) {
                let k = choose|k: u64|
                    before.peers(id, k) && #[trigger] names_source(routes, media_ssrcs@, k);
                assert(sources@.contains(k));
            }
            assert(everyone == before.names_no_peer(id, media_ssrcs@));
        }
        let ghost wanted = |k: u64| everyone || names_source(routes, media_ssrcs@, k);
        let ghost none = |k: u64| k != id && m.take(0).contains(k) && wanted(k);
        assert(self@.legs =~= changed(before.legs, none, f));
        let mut i: usize = 0;
        while i < members.len()
            invariant
                i <= members@.len(),
                m == members@,
                before.inv(),
                m == before.members_of(id),
                self@.groups == before.groups,
                f == (|l: Leg| l.asked_keyframe()),
                wanted == (|k: u64| everyone || names_source(routes, media_ssrcs@, k)),
                forall|src: u64| #[trigger]
                    sources@.contains(src) == names_source(routes, media_ssrcs@, src),
                self@.legs == changed(
                    before.legs,
                    |k: u64| k != id && m.take(i as int).contains(k) && wanted(k),
                    f,
                ),
            decreases members@.len() - i,
        {
            let peer: u64 = members[i];
            let ghost p = |k: u64| k != id && m.take(i as int).contains(k) && wanted(k);
            let ghost q = |k: u64| k != id && m.take(i + 1).contains(k) && wanted(k);
            assert(m.take(i + 1) =~= m.take(i as int).push(peer));
            proof {
                crate::relay::hub::lemma_members_are_legs(before, id);
            }
            assert(before.legs.contains_key(m[i as int]));
            assert forall|k: u64| m.take(i + 1).contains(k) == (m.take(i as int).contains(k) || k
                == peer) by {
                crate::relay::hub::lemma_push_contains(m.take(i as int), peer, k);
            }
            if peer != id && (everyone || crate::relay::leg::has_id(&sources, peer)) {
                if let Some(mut leg) = self.take(peer) {
                    leg.ask_keyframe();
                    self.put(peer, leg);
                }
                assert(wanted(peer));
                assert(self@.legs =~= changed(before.legs, q, f));
            } else {
                assert(peer != id ==> !wanted(peer));
                assert(self@.legs =~= changed(before.legs, q, f));
            }
            i += 1;
        }
        assert(m.take(i as int) =~= m);
        assert(self@.legs =~= before.keyframe_asked(id, media_ssrcs@).legs);
    }
}

/// Requests of sources by what they hold.
spec fn source_reqs(v: Seq<(u64, NackReq)>) -> Seq<SourceReq> {
    v.map_values(|r: (u64, NackReq)| SourceReq { src: r.0, ssrc: r.1.media_ssrc, fci: r.1.fci@ })
}

/// NACK entries on an outbound stream, in the terms of its source, as many as
/// may be relayed.
fn translate(r: &OutRoute, fci: &Vec<(u16, u16)>, budget: usize) -> (out: Vec<(u16, u16)>)
    ensures
        out@ == at_most(translated(*r, fci@), budget as int),
{
    let mut out: Vec<(u16, u16)> = Vec::new();
    let mut i: usize = 0;
    while i < fci.len()
        invariant
            i <= fci@.len(),
            out@ == at_most(translated(*r, fci@.take(i as int)), budget as int),
        decreases fci@.len() - i,
    {
        let (pid, blp) = fci[i];
        let ghost before = translated(*r, fci@.take(i as int));
        assert(fci@.take(i + 1).drop_last() =~= fci@.take(i as int));
        let kept: Option<(u16, u16)> = match r.base {
            Some(b) => clip_nack(pid, blp, b),
            None => Some((pid, blp)),
        };
        if let Some((p, m)) = kept {
            if out.len() < budget {
                out.push((p.wrapping_sub(r.offset), m));
            }
            assert(out@ =~= at_most(
                before.push((p.wrapping_sub(r.offset), m)),
                budget as int,
            ));
        }
        i += 1;
    }
    assert(fci@.take(i as int) =~= fci@);
    out
}

proof fn lemma_budget(routes: Seq<OutRoute>, items: Seq<(u32, Seq<(u16, u16)>)>)
    ensures
        0 <= requests(routes, items).1 <= MAX_NACK_FCI,
    decreases items.len(),
{
    if items.len() > 0 {
        lemma_budget(routes, items.drop_last());
    }
}

/// With nothing more to relay, further NACKs come to no request.
proof fn lemma_spent(routes: Seq<OutRoute>, items: Seq<(u32, Seq<(u16, u16)>)>, n: int)
    requires
        0 <= n <= items.len(),
        requests(routes, items.take(n)).1 == 0,
    ensures
        requests(routes, items) == requests(routes, items.take(n)),
    decreases items.len() - n,
{
    if n < items.len() {
        let next = items.take(n + 1);
        assert(next.drop_last() =~= items.take(n));
        if let Some(r) = route_of(routes, next.last().0) {
            assert(at_most(translated(r, next.last().1), 0).len() == 0);
        }
        lemma_spent(routes, items, n + 1);
    } else {
        assert(items.take(n) =~= items);
    }
}

/// The requests that NACKs come to.
fn plan_requests(routes: &Vec<OutRoute>, items: &Vec<(u32, Vec<(u16, u16)>)>) -> (out: Vec<
    (u64, NackReq),
>)
    ensures
        source_reqs(out@) == requests(routes@, nack_views(items@)).0,
{
    let ghost all = nack_views(items@);
    let mut out: Vec<(u64, NackReq)> = Vec::new();
    assert(source_reqs(out@) =~= Seq::<SourceReq>::empty());
    let mut budget: usize = MAX_NACK_FCI;
    let mut i: usize = 0;
    while i < items.len()
        invariant
            i <= items@.len(),
            all == nack_views(items@),
            (source_reqs(out@), budget as int) == requests(routes@, all.take(i as int)),
        decreases items@.len() - i,
    {
        if budget == 0 {
            proof {
                lemma_spent(routes@, all, i as int);
            }
            return out;
        }
        let ghost before = source_reqs(out@);
        let (media, fci) = &items[i];
        assert(all.take(i + 1).drop_last() =~= all.take(i as int));
        assert(all.take(i + 1).last() == (*media, fci@));
        if let Some(r) = find_route(routes, *media) {
            let entries = translate(&r, fci, budget);
            budget -= entries.len();
            if entries.len() > 0 {
                let req = NackReq { media_ssrc: r.src_ssrc, fci: entries };
                out.push((r.src, req));
                assert(source_reqs(out@) =~= before.push(
                    SourceReq { src: r.src, ssrc: r.src_ssrc, fci: entries@ },
                ));
            }
        }
        i += 1;
    }
    assert(all.take(i as int) =~= all);
    out
}

/// Requests leave the set of legs as it is.
proof fn lemma_requested_dom(
    legs: Map<u64, Leg>,
    p: spec_fn(u64) -> bool,
    reqs: Seq<SourceReq>,
    now: u64,
)
    requires
        forall|k: u64| #[trigger] p(k) ==> legs.contains_key(k),
        forall|k: u64| #[trigger]
            legs.contains_key(k) ==> legs[k].id == k && legs[k].inv(),
    ensures
        requested(legs, p, reqs, now).dom() == legs.dom(),
        forall|k: u64| #[trigger]
            requested(legs, p, reqs, now).contains_key(k) ==> requested(legs, p, reqs, now)[k].id
                == k && requested(legs, p, reqs, now)[k].inv(),
    decreases reqs.len(),
{
    if reqs.len() > 0 {
        lemma_requested_dom(legs, p, reqs.drop_last(), now);
        let before = requested(legs, p, reqs.drop_last(), now);
        let r = reqs.last();
        if p(r.src) {
            assert(before.contains_key(r.src));
        }
        assert(requested(legs, p, reqs, now).dom() =~= legs.dom());
    } else {
        assert forall|k: u64| #[trigger]
            requested(legs, p, reqs, now).contains_key(k) implies requested(
            legs,
            p,
            reqs,
            now,
        )[k].id == k && requested(legs, p, reqs, now)[k].inv() by {
            assert(legs.contains_key(k));
        }
    }
}

impl RelayHub {
    /// The remote of a leg asks again for packets of streams that the leg sends
    /// it. Each NACK is put into the source's SSRC and sequence numbers and
    /// queued on the source leg, whose send task asks its own remote. One that
    /// names an SSRC that the leg does not send is dropped.
    pub fn relay_nacks(&mut self, id: u64, items: &Vec<(u32, Vec<(u16, u16)>)>, now: u64)
        requires
            old(self)@.inv(),
            old(self)@.legs.contains_key(id),
        ensures
            final(self)@ == old(self)@.nacks_relayed(id, nack_views(items@), now),
            final(self)@.inv(),
    {
        let ghost before = self@;
        let ghost p = |k: u64| before.peers(id, k);
        let reqs: Vec<(u64, NackReq)> = match self.leg(id) {
            Some(l) => plan_requests(l.out_routes(), items),
            None => Vec::new(),
        };
        let ghost all = source_reqs(reqs@);
        proof {
            crate::relay::hub::lemma_members_are_legs(before, id);
        }
        assert forall|k: u64| #[trigger] p(k) implies before.legs.contains_key(k) by {
            assert(before.members_of(id).contains(k));
        }
        let members = self.members(id);
        let mut i: usize = 0;
        while i < reqs.len()
            invariant
                i <= reqs@.len(),
                before.inv(),
                all == source_reqs(reqs@),
                members@ == before.members_of(id),
                p == (|k: u64| before.peers(id, k)),
                forall|k: u64| #[trigger] p(k) ==> before.legs.contains_key(k),
                self@.groups == before.groups,
                self@.legs == requested(before.legs, p, all.take(i as int), now),
            decreases reqs@.len() - i,
        {
            let (src, req) = &reqs[i];
            let ghost next = all.take(i + 1);
            assert(next.drop_last() =~= all.take(i as int));
            assert(next.last() == (SourceReq { src: *src, ssrc: req.media_ssrc, fci: req.fci@ }));
            proof {
                lemma_requested_dom(before.legs, p, all.take(i as int), now);
            }
            if *src != id && crate::relay::leg::has_id(&members, *src) {
                assert(p(*src));
                assert(self@.legs.dom().contains(*src));
                if let Some(mut leg) = self.take(*src) {
                    leg.queue_nack(req, now);
                    self.put(*src, leg);
                }
                assert(self@.legs =~= requested(before.legs, p, next, now));
            } else {
                assert(!p(*src));
            }
            i += 1;
        }
        assert(all.take(i as int) =~= all);
        proof {
            lemma_requested_dom(before.legs, p, all, now);
            assert(self@ == before.nacks_relayed(id, nack_views(items@), now));
            assert forall|g: int, i: int|
                0 <= g < self@.groups.len() && 0 <= i
                    < self@.groups[g].len() implies self@.legs.contains_key(
                #[trigger] self@.groups[g][i],
            ) by {
                assert(before.legs.contains_key(before.groups[g][i]));
                assert(self@.legs.dom().contains(before.groups[g][i]));
            }
        }
    }

    /// Reacts to one decrypted inbound RTCP compound from the remote of a leg:
    /// keyframe requests and NACKs, each routed to its source.
    pub fn on_feedback(&mut self, id: u64, fb: &Feedback, now: u64)
        requires
            old(self)@.inv(),
            old(self)@.legs.contains_key(id),
        ensures
            final(self)@ == old(self)@.fed_back(id, fb@, now),
            final(self)@.inv(),
    {
        if let Some(ssrcs) = &fb.keyframe {
            self.request_keyframe(id, ssrcs);
        }
        self.relay_nacks(id, &fb.nacks, now);
    }

    /// The streams that a leg forwards: one per source SSRC, the main stream of
    /// each source first, in the order of their ids. Streams of a source that
    /// has left the group are left out.
    pub fn streams(&self, id: u64) -> (r: Vec<StreamInfo>)
        requires
            self@.inv(),
            self@.legs.contains_key(id),
        ensures
            info_views(r@) == self@.listed(id, self@.legs[id].routes),
    {
        let mut out: Vec<StreamInfo> = Vec::new();
        assert(info_views(out@) =~= Seq::<Listed>::empty());
        let members = self.members(id);
        proof {
            crate::relay::hub::lemma_members_are_legs(self@, id);
        }
        if let Some(l) = self.leg(id) {
            let routes = l.out_routes();
            let ghost all = routes@;
            let mut i: usize = 0;
            while i < routes.len()
                invariant
                    i <= routes@.len(),
                    all == routes@,
                    members@ == self@.members_of(id),
                    forall|k: u64| #[trigger]
                        self@.members_of(id).contains(k) ==> self@.legs.contains_key(k),
                    info_views(out@) == self@.listed(id, all.take(i as int)),
                decreases routes@.len() - i,
            {
                let r: OutRoute = routes[i];
                let ghost before = info_views(out@);
                assert(all.take(i + 1).drop_last() =~= all.take(i as int));
                if r.src != id && crate::relay::leg::has_id(&members, r.src) {
                    assert(self@.members_of(id).contains(r.src));
                    if let Some(m) = self.leg(r.src) {
                        let info = StreamInfo {
                            source: m.label(),
                            ssrc: r.ssrc,
                            source_ssrc: r.src_ssrc,
                            pt: r.pt,
                        };
                        out.push(info);
                        assert(info_views(out@) =~= before.push(
                            Listed {
                                source: self@.legs[r.src].label,
                                ssrc: r.ssrc,
                                source_ssrc: r.src_ssrc,
                                pt: r.pt,
                            },
                        ));
                    }
                }
                i += 1;
            }
            assert(all.take(i as int) =~= all);
        }
        out
    }
}

/// One inbound compound makes a source resend at most what `MAX_NACK_FCI`
/// entries ask for.
pub proof fn lemma_nack_budget(routes: Seq<OutRoute>, items: Seq<(u32, Seq<(u16, u16)>)>)
    ensures
        total_entries(requests(routes, items).0) + requests(routes, items).1 == MAX_NACK_FCI,
        requests(routes, items).1 >= 0,
    decreases items.len(),
{
    lemma_budget(routes, items);
    if items.len() > 0 {
        lemma_nack_budget(routes, items.drop_last());
        let (before, budget) = requests(routes, items.drop_last());
        let after = requests(routes, items).0;
        if after.len() > before.len() {
            assert(after.drop_last() =~= before);
        }
    }
}

/// The entries in some requests.
pub open spec fn total_entries(reqs: Seq<SourceReq>) -> int
    decreases reqs.len(),
{
    if reqs.len() == 0 {
        0
    } else {
        total_entries(reqs.drop_last()) + reqs.last().fci.len()
    }
}

/// A NACK for a packet by its outbound number asks the source for the packet
/// that was sent under it. On a route with the stream's offset, an entry that
/// asks for the outbound number of `src_seq` asks for `src_seq` at the source,
/// unless the number lies before the stream's own; and what is asked for at the
/// source was asked for by its outbound number.
pub proof fn lemma_nack_asks_for_the_same_packet(
    r: OutRoute,
    n: Numbering,
    src_seq: u16,
    pid: u16,
    blp: u16,
)
    requires
        r.offset == n.mapped(src_seq).offset,
    ensures
        ({
            let out = n.outbound(src_seq);
            let owed = match r.base {
                Some(b) => at_or_after(pid, b) || at_or_after(out, b),
                None => true,
            };
            match translated_entry(r, pid, blp) {
                Some((p, m)) => {
                    &&& asks(p, m, src_seq) ==> asks(pid, blp, out)
                    &&& asks(pid, blp, out) && owed ==> asks(p, m, src_seq)
                },
                None => !(asks(pid, blp, out) && owed),
            }
        }),
{
    let out = n.outbound(src_seq);
    if let Some(b) = r.base {
        if !at_or_after(pid, b) {
            lemma_clip_exact(pid, blp, b);
            assert(asks(pid, blp, out) == asks(pid, blp, out));
            if let Some((f, m)) = clipped(pid, blp, b) {
                assert(asks(f, m, out) == (asks(pid, blp, out) && at_or_after(out, b)));
                assert(out.wrapping_sub(f) == src_seq.wrapping_sub(f.wrapping_sub(r.offset)));
            }
        } else {
            assert(out.wrapping_sub(pid) == src_seq.wrapping_sub(pid.wrapping_sub(r.offset)));
        }
    } else {
        assert(out.wrapping_sub(pid) == src_seq.wrapping_sub(pid.wrapping_sub(r.offset)));
    }
}

} // verus!
