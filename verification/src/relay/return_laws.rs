//! What holds of the way back: a request about an outbound stream reaches the
//! source of the stream, and no other.
use vstd::prelude::*;

use crate::relay::hub::Hub;
use crate::relay::leg::Leg;
use crate::relay::outbound::{rank, routes_of, stream_routes, OutRoute};
use crate::relay::outbound::{lemma_first_source, Out, Source, Stream, MAX_SOURCES};
use crate::relay::outbound_laws::{
    lemma_at_index, lemma_first_stream, lemma_routes_published, lemma_stamp_keeps_inv,
    lemma_streamed, lemma_takeover_continues, lemma_with_source, lemma_without_all,
};
use crate::relay::routing::{
    first_route, names_source, requested, requests, route_of, SourceReq,
};
use crate::relay::seq_map::lemma_offset_inverts;
use crate::relay::stamp::{reaped, reaps, stamped};

verus! {

/// How a stream of a source maps back.
pub open spec fn stream_route(s: Source, t: Stream) -> OutRoute {
    OutRoute {
        ssrc: t.ssrc,
        src: s.src,
        src_ssrc: t.src_ssrc,
        offset: t.seq.offset,
        base: t.seq.base,
        pt: t.pt,
    }
}

/// Every published route is that of a stream.
pub(crate) proof fn lemma_routes_are_of_streams(sources: Seq<Source>, m: int)
    requires
        0 <= m < routes_of(sources).len(),
    ensures
        exists|i: int, j: int|
            0 <= i < sources.len() && 0 <= j < sources[i].streams.len() && routes_of(sources)[m]
                == stream_route(sources[i], #[trigger] sources[i].streams[j]),
    decreases sources.len(),
{
    let front = sources.drop_last();
    let n = sources.len() - 1;
    if m < routes_of(front).len() {
        lemma_routes_are_of_streams(front, m);
        let (i, j) = choose|i: int, j: int|
            0 <= i < front.len() && 0 <= j < front[i].streams.len() && routes_of(front)[m]
                == stream_route(front[i], #[trigger] front[i].streams[j]);
        assert(sources[i] == front[i]);
        assert(routes_of(sources)[m] == stream_route(sources[i], sources[i].streams[j]));
    } else {
        let j = m - routes_of(front).len();
        assert(stream_routes(sources[n])[j] == stream_route(sources[n], sources[n].streams[j]));
        assert(routes_of(sources)[m] == stream_route(sources[n], sources[n].streams[j]));
    }
}

/// The route of every stream is published.
proof fn lemma_streams_have_routes(sources: Seq<Source>, i: int, j: int)
    requires
        0 <= i < sources.len(),
        0 <= j < sources[i].streams.len(),
    ensures
        routes_of(sources).contains(stream_route(sources[i], sources[i].streams[j])),
    decreases sources.len(),
{
    let front = sources.drop_last();
    let r = stream_route(sources[i], sources[i].streams[j]);
    if i < front.len() {
        lemma_streams_have_routes(front, i, j);
        let m = choose|m: int| 0 <= m < routes_of(front).len() && routes_of(front)[m] == r;
        assert(routes_of(sources)[m] == r);
    } else {
        let m = routes_of(front).len() + j;
        assert(stream_routes(sources[i])[j] == r);
        assert(routes_of(sources)[m] == r);
    }
}

proof fn lemma_first_route(routes: Seq<OutRoute>, ssrc: u32, at: int)
    requires
        0 <= at,
    ensures
        match first_route(routes, ssrc, at) {
            Some(r) => r.ssrc == ssrc && exists|m: int|
                at <= m < routes.len() && #[trigger] routes[m] == r,
            None => forall|m: int| at <= m < routes.len() ==> (#[trigger] routes[m]).ssrc != ssrc,
        },
    decreases routes.len() - at,
{
    if at < routes.len() {
        if routes[at].ssrc == ssrc {
            assert(routes[at] == first_route(routes, ssrc, at)->0);
        } else {
            lemma_first_route(routes, ssrc, at + 1);
        }
    }
}

/// The SSRC of a stream leads back to the stream.
proof fn lemma_route_found(o: Out, i: int, j: int)
    requires
        o.inv(),
        0 <= i < o.sources.len(),
        0 <= j < o.sources[i].streams.len(),
    ensures
        route_of(routes_of(o.sources), o.sources[i].streams[j].ssrc) == Some(
            stream_route(o.sources[i], o.sources[i].streams[j]),
        ),
{
    let routes = routes_of(o.sources);
    let ssrc = o.sources[i].streams[j].ssrc;
    lemma_streams_have_routes(o.sources, i, j);
    lemma_first_route(routes, ssrc, 0);
    match route_of(routes, ssrc) {
        Some(r) => {
            let m = choose|m: int| 0 <= m < routes.len() && #[trigger] routes[m] == r;
            lemma_routes_are_of_streams(o.sources, m);
            let (k, l) = choose|k: int, l: int|
                0 <= k < o.sources.len() && 0 <= l < o.sources[k].streams.len() && routes[m]
                    == stream_route(o.sources[k], #[trigger] o.sources[k].streams[l]);
            assert(o.sources[k].streams[l].ssrc == o.sources[i].streams[j].ssrc);
        },
        None => {
            let m = choose|m: int|
                0 <= m < routes.len() && routes[m] == stream_route(
                    o.sources[i],
                    o.sources[i].streams[j],
                );
            assert(routes[m].ssrc != ssrc);
        },
    }
}

/// What a packet went out under leads back to where it came from: the SSRC to
/// its source and the source's SSRC, and the number to the source's number.
pub proof fn lemma_stamped_maps_back(
    out: Out,
    leg: Leg,
    member: bool,
    src: u64,
    src_ssrc: u32,
    src_seq: u16,
    pt: u8,
    now: u64,
)
    requires
        out.sources.len() < MAX_SOURCES,
        out.inv(),
        leg.routes == routes_of(out.sources),
    ensures
        ({
            let s = stamped(out, leg, member, src, src_ssrc, src_seq, pt, now);
            s.stamp matches Some((ssrc, n)) ==> (route_of(s.leg.routes, ssrc) matches Some(r)
                && r.src == src && r.src_ssrc == src_ssrc && n.wrapping_sub(r.offset) == src_seq
                && r.pt == Some(pt))
        }),
{
    let s = stamped(out, leg, member, src, src_ssrc, src_seq, pt, now);
    lemma_routes_published(out, leg, member, src, src_ssrc, src_seq, pt, now);
    lemma_stamp_keeps_inv(out, leg, member, src, src_ssrc, src_seq, pt, now);
    lemma_without_all(out, leg.retired);
    let (o1, l1) = reaped(out, leg, src);
    lemma_first_source(o1.sources, src, 0);
    if !(o1.index_of(src) is None && (!member || (reaps(out, leg, src) && leg.retired.contains(
        src,
    )))) {
        if o1.index_of(src) is None {
            lemma_with_source(o1, src);
        }
        let (o2, i) = match o1.index_of(src) {
            Some(i) => (o1, i),
            None => (o1.with_source(src), rank(o1.sources, src)),
        };
        lemma_streamed(o2, i, src_ssrc, now);
        let (o3, at, fresh) = o2.streamed(i, src_ssrc, now);
        lemma_offset_inverts(o3.sources[i].streams[at].seq, src_seq);
        lemma_route_found(s.out, i, at);
    }
}

/// A keyframe request asks the peers that it names and no other leg, and every
/// peer where it names none: not the leg that it came to, and where there are
/// peers always one of them.
pub proof fn lemma_keyframe_asks_the_named(hub: Hub, id: u64, ssrcs: Seq<u32>, k: u64)
    requires
        hub.legs.contains_key(id),
        hub.legs.contains_key(k),
    ensures
        ({
            let named = names_source(hub.legs[id].routes, ssrcs, k);
            let after = hub.keyframe_asked(id, ssrcs).legs[k];
            if hub.peers(id, k) && (named || hub.names_no_peer(id, ssrcs)) {
                after == hub.legs[k].asked_keyframe()
            } else {
                after == hub.legs[k]
            }
        }),
        hub.peers(id, k) ==> exists|j: u64|
            hub.peers(id, j) && (names_source(hub.legs[id].routes, ssrcs, j) || hub.names_no_peer(
                id,
                ssrcs,
            )),
        k == id ==> hub.keyframe_asked(id, ssrcs).legs[k] == hub.legs[k],
{
    let routes = hub.legs[id].routes;
    if hub.peers(id, k) {
        if hub.names_no_peer(id, ssrcs) {
            assert(hub.peers(id, k) && (names_source(routes, ssrcs, k) || hub.names_no_peer(
                id,
                ssrcs,
            )));
        } else {
            let i = choose|i: int|
                0 <= i < ssrcs.len() && (route_of(routes, #[trigger] ssrcs[i]) matches Some(r)
                    && hub.peers(id, r.src));
            let j = route_of(routes, ssrcs[i])->0.src;
            assert(names_source(routes, ssrcs, j));
            assert(hub.peers(id, j) && (names_source(routes, ssrcs, j) || hub.names_no_peer(
                id,
                ssrcs,
            )));
        }
    }
}

/// The requests that NACKs come to are of sources that they name.
proof fn lemma_requests_are_named(
    routes: Seq<OutRoute>,
    items: Seq<(u32, Seq<(u16, u16)>)>,
    k: u64,
)
    requires
        forall|i: int|
            0 <= i < items.len() ==> (route_of(routes, (#[trigger] items[i]).0) matches Some(r)
                ==> r.src != k),
    ensures
        forall|i: int|
            0 <= i < requests(routes, items).0.len() ==> (#[trigger] requests(
                routes,
                items,
            ).0[i]).src != k,
    decreases items.len(),
{
    if items.len() > 0 {
        let front = items.drop_last();
        assert forall|i: int| 0 <= i < front.len() implies (route_of(
            routes,
            (#[trigger] front[i]).0,
        ) matches Some(r) ==> r.src != k) by {
            assert(front[i] == items[i]);
        }
        lemma_requests_are_named(routes, front, k);
        assert(items[items.len() - 1] == items.last());
        let before = requests(routes, front).0;
        let after = requests(routes, items).0;
        assert forall|i: int| 0 <= i < after.len() implies (#[trigger] after[i]).src != k by {
            if i < before.len() {
                assert(after[i] == before[i]);
            }
        }
    }
}

/// Requests leave a leg that none of them is of as it is.
proof fn lemma_requested_elsewhere(
    legs: Map<u64, Leg>,
    p: spec_fn(u64) -> bool,
    reqs: Seq<SourceReq>,
    now: u64,
    k: u64,
)
    requires
        legs.contains_key(k),
        forall|i: int| 0 <= i < reqs.len() ==> (#[trigger] reqs[i]).src != k,
    ensures
        requested(legs, p, reqs, now).contains_key(k),
        requested(legs, p, reqs, now)[k] == legs[k],
    decreases reqs.len(),
{
    if reqs.len() > 0 {
        let front = reqs.drop_last();
        assert forall|i: int| 0 <= i < front.len() implies (#[trigger] front[i]).src != k by {
            assert(front[i] == reqs[i]);
        }
        lemma_requested_elsewhere(legs, p, front, now, k);
        assert(reqs[reqs.len() - 1] == reqs.last());
    }
}

/// NACKs reach no leg but the sources that they name.
pub proof fn lemma_nacks_reach_only_the_named(
    hub: Hub,
    id: u64,
    items: Seq<(u32, Seq<(u16, u16)>)>,
    now: u64,
    k: u64,
)
    requires
        hub.legs.contains_key(id),
        hub.legs.contains_key(k),
        forall|i: int|
            0 <= i < items.len() ==> (route_of(
                hub.legs[id].routes,
                (#[trigger] items[i]).0,
            ) matches Some(r) ==> r.src != k),
    ensures
        hub.nacks_relayed(id, items, now).legs[k] == hub.legs[k],
{
    let routes = hub.legs[id].routes;
    lemma_requests_are_named(routes, items, k);
    lemma_requested_elsewhere(
        hub.legs,
        |j: u64| hub.peers(id, j),
        requests(routes, items).0,
        now,
        k,
    );
}

/// Where a stream takes over the SSRC of a main stream that has been quiet for a
/// second, the SSRC leads back to the new stream only, from the number behind the
/// highest one that the old stream used on.
pub proof fn lemma_takeover_maps_back_from_its_start(
    out: Out,
    leg: Leg,
    member: bool,
    i: int,
    src_ssrc: u32,
    src_seq: u16,
    pt: u8,
    now: u64,
    h: u16,
)
    requires
        out.inv(),
        out.sources.len() < MAX_SOURCES,
        leg.routes == routes_of(out.sources),
        !leg.retire_pending,
        0 <= i < out.sources.len(),
        out.sources[i].streams.len() > 0,
        now >= out.sources[i].streams[0].last + 1_000_000_000,
        out.sources[i].streams[0].src_ssrc != src_ssrc,
        out.sources[i].streams[0].seq.highest == Some(h),
    ensures
        ({
            let src = out.sources[i].src;
            let main = out.sources[i].streams[0];
            let s = stamped(out, leg, member, src, src_ssrc, src_seq, pt, now);
            &&& s.stamp == Some((main.ssrc, h.wrapping_add(1)))
            &&& route_of(s.leg.routes, main.ssrc) matches Some(r) && {
                &&& r.src == src
                &&& r.src_ssrc == src_ssrc
                &&& r.base == Some(h.wrapping_add(1))
                &&& h.wrapping_add(1).wrapping_sub(r.offset) == src_seq
                &&& r.pt == Some(pt)
            }
        }),
{
    let src = out.sources[i].src;
    let main = out.sources[i].streams[0];
    let s = stamped(out, leg, member, src, src_ssrc, src_seq, pt, now);
    lemma_takeover_continues(out, leg, member, i, src_ssrc, src_seq, pt, now);
    lemma_stamped_maps_back(out, leg, member, src, src_ssrc, src_seq, pt, now);
    lemma_stamp_keeps_inv(out, leg, member, src, src_ssrc, src_seq, pt, now);
    lemma_routes_published(out, leg, member, src, src_ssrc, src_seq, pt, now);
    lemma_at_index(out, i);
    lemma_first_stream(out.sources[i].streams, src_ssrc, 0);
    lemma_streamed(out, i, src_ssrc, now);
    assert(s.out.sources[i].streams[0].seq.base == Some(h.wrapping_add(1)));
    lemma_route_found(s.out, i, 0);
}

} // verus!
