//! What holds of a leg's outbound state and its group, whatever joins, leaves and
//! packets came before.
use vstd::prelude::*;

use crate::relay::hub::Hub;
use crate::relay::hub::{
    lemma_joined_legs, lemma_left_adds_no_peers, lemma_left_has_no_peers, lemma_left_legs,
};
use crate::relay::outbound::{lemma_first_source, rank, routes_of, Out, MAX_SOURCES};
use crate::relay::outbound::MAX_STREAMS_PER_SOURCE;
use crate::relay::outbound_laws::{
    lemma_routes_published, lemma_stamp_keeps_inv, lemma_streamed, lemma_with_source,
    lemma_without_all,
};
use crate::relay::return_laws::{lemma_routes_are_of_streams, stream_route};
use crate::relay::stamp::{reaped, reaps, stamped};

verus! {

impl Hub {
    /// The outbound state of a leg keeps step with its group: a source with
    /// state is a peer, or is among those that the leg was told are gone, and
    /// none of those is a peer.
    pub open spec fn in_step(self, id: u64, out: Out) -> bool {
        let leg = self.legs[id];
        &&& self.legs.contains_key(id)
        &&& forall|k: u64| k != id && #[trigger] leg.retired.contains(k) ==> !self.peers(id, k)
        &&& forall|k: u64| #[trigger]
            out.index_of(k) is Some ==> k != id && (self.peers(id, k) || leg.retired.contains(k))
        &&& leg.retired.len() > 0 ==> leg.retire_pending
    }
}

/// A leg that was told of none and has forwarded nothing is in step.
pub proof fn lemma_new_leg_is_in_step(hub: Hub, id: u64, out: Out)
    requires
        hub.legs.contains_key(id),
        hub.legs[id].retired.len() == 0,
        out.sources.len() == 0,
    ensures
        hub.in_step(id, out),
{
}

/// A leg stays in step when some leg leaves its group, itself or another.
pub proof fn lemma_leaving_keeps_step(hub: Hub, gone: u64, id: u64, out: Out)
    requires
        hub.inv(),
        hub.in_step(id, out),
    ensures
        hub.left(gone).in_step(id, out),
{
    let next = hub.left(gone);
    let (before, after) = (hub.legs[id], next.legs[id]);
    lemma_left_legs(hub, gone, id, gone);
    assert forall|k: u64| k != id && #[trigger] after.retired.contains(k) implies !next.peers(
        id,
        k,
    ) by {
        lemma_left_legs(hub, gone, id, k);
        lemma_left_has_no_peers(hub, gone, id, k);
        lemma_left_has_no_peers(hub, gone, k, id);
        if next.peers(id, k) {
            lemma_left_adds_no_peers(hub, gone, id, k);
            assert(before.retired.contains(k));
        }
    }
    assert forall|k: u64| #[trigger] out.index_of(k) is Some implies k != id && (next.peers(id, k)
        || after.retired.contains(k)) by {
        lemma_left_legs(hub, gone, id, k);
        lemma_left_has_no_peers(hub, gone, id, k);
    }
}

/// A leg stays in step when two legs are joined.
pub proof fn lemma_joining_keeps_step(hub: Hub, a: u64, b: u64, id: u64, out: Out)
    requires
        hub.inv(),
        hub.in_step(id, out),
    ensures
        hub.joined(a, b).0.in_step(id, out),
{
    let next = hub.joined(a, b).0;
    let (before, after) = (hub.legs[id], next.legs[id]);
    assert forall|k: u64| k != id && #[trigger] after.retired.contains(k) implies !next.peers(
        id,
        k,
    ) by {
        lemma_joined_legs(hub, a, b, id, k);
        assert(before.retired.contains(k));
    }
    assert forall|k: u64| #[trigger] out.index_of(k) is Some implies k != id && (next.peers(id, k)
        || after.retired.contains(k)) by {
        lemma_joined_legs(hub, a, b, id, k);
    }
    let other: u64 = if id == 0 {
        1
    } else {
        0
    };
    lemma_joined_legs(hub, a, b, id, other);
}

/// The sources with state after a packet are those that are left, and the
/// packet's where it is a member.
proof fn lemma_stamped_sources(
    out: Out,
    hub: Hub,
    id: u64,
    src: u64,
    src_ssrc: u32,
    src_seq: u16,
    pt: u8,
    now: u64,
    k: u64,
)
    requires
        out.inv(),
        out.sources.len() < MAX_SOURCES,
        hub.in_step(id, out),
        src != id,
    ensures
        ({
            let leg = hub.legs[id];
            let s = stamped(out, leg, hub.peers(id, src), src, src_ssrc, src_seq, pt, now);
            &&& s.stamp is Some == hub.peers(id, src)
            &&& s.stamp is None ==> s.out.index_of(src) is None
            &&& s.out.index_of(k) is Some ==> out.index_of(k) is Some || (k == src && hub.peers(
                id,
                src,
            ))
            &&& s.out.index_of(k) is Some && leg.retired.contains(k) ==> !reaps(out, leg, src)
            &&& s.leg.retired == if reaps(out, leg, src) {
                Seq::empty()
            } else {
                leg.retired
            }
            &&& s.leg.retire_pending == (!reaps(out, leg, src) && leg.retire_pending)
        }),
{
    let leg = hub.legs[id];
    let member = hub.peers(id, src);
    let s = stamped(out, leg, member, src, src_ssrc, src_seq, pt, now);
    lemma_without_all(out, leg.retired);
    let (o1, l1) = reaped(out, leg, src);
    lemma_first_source(o1.sources, src, 0);
    if !member {
        if out.index_of(src) is Some {
            assert(leg.retired.contains(src));
        }
        assert(o1.index_of(src) is None);
    } else {
        assert(!leg.retired.contains(src));
        if o1.index_of(src) is None {
            lemma_with_source(o1, src);
        }
        let (o2, i) = match o1.index_of(src) {
            Some(i) => (o1, i),
            None => (o1.with_source(src), rank(o1.sources, src)),
        };
        lemma_streamed(o2, i, src_ssrc, now);
        let (o3, at, fresh) = o2.streamed(i, src_ssrc, now);
        assert forall|j: int| 0 <= j < s.out.sources.len() implies (
        #[trigger] s.out.sources[j]).src == o2.sources[j].src by {
            assert(o3.sources[j].src == o2.sources[j].src);
        }
        lemma_first_source(s.out.sources, k, 0);
        lemma_first_source(o2.sources, k, 0);
        lemma_first_source(o1.sources, k, 0);
        if let Some(j) = s.out.index_of(k) {
            assert(o2.sources[j].src == k);
            if o1.index_of(src) is None {
                let r = rank(o1.sources, src);
                if j < r {
                    assert(o2.sources[j] == o1.sources[j]);
                } else if j > r {
                    assert(o2.sources[j] == o1.sources[j - 1]);
                }
            }
            assert(k == src || o1.index_of(k) is Some);
        }
    }
}

/// A packet gets an outbound identity exactly where its source is a member of
/// the group. Otherwise no stream of the source is left, and none is published.
/// What is published after it are streams that there is state for, each under an
/// SSRC of its own, and no more of a source than it may have.
pub proof fn lemma_members_are_forwarded(
    out: Out,
    hub: Hub,
    id: u64,
    src: u64,
    src_ssrc: u32,
    src_seq: u16,
    pt: u8,
    now: u64,
)
    requires
        out.inv(),
        out.sources.len() < MAX_SOURCES,
        hub.in_step(id, out),
        hub.legs[id].routes == routes_of(out.sources),
        src != id,
    ensures
        ({
            let member = hub.peers(id, src);
            let s = stamped(out, hub.legs[id], member, src, src_ssrc, src_seq, pt, now);
            let routes = s.leg.routes;
            &&& s.stamp is Some == member
            &&& !member ==> s.out.index_of(src) is None && forall|m: int|
                0 <= m < routes.len() ==> (#[trigger] routes[m]).src != src
            &&& forall|m: int|
                0 <= m < routes.len() ==> s.out.index_of((#[trigger] routes[m]).src) is Some
            &&& forall|m: int, n: int|
                0 <= m < n < routes.len() ==> (#[trigger] routes[m]).ssrc != (
                #[trigger] routes[n]).ssrc
            &&& forall|i: int|
                0 <= i < s.out.sources.len() ==> (#[trigger] s.out.sources[i]).streams.len()
                    <= MAX_STREAMS_PER_SOURCE
            &&& Hub { legs: hub.legs.insert(id, s.leg), ..hub }.in_step(id, s.out)
        }),
{
    let leg = hub.legs[id];
    let member = hub.peers(id, src);
    let s = stamped(out, leg, member, src, src_ssrc, src_seq, pt, now);
    lemma_stamped_sources(out, hub, id, src, src_ssrc, src_seq, pt, now, src);
    lemma_stamp_keeps_inv(out, leg, member, src, src_ssrc, src_seq, pt, now);
    lemma_routes_published(out, leg, member, src, src_ssrc, src_seq, pt, now);
    lemma_first_source(s.out.sources, src, 0);
    let routes = s.leg.routes;
    assert forall|m: int| 0 <= m < routes.len() implies s.out.index_of(
        (#[trigger] routes[m]).src,
    ) is Some && (!member ==> routes[m].src != src) by {
        lemma_routes_are_of_streams(s.out.sources, m);
        let (i, j) = choose|i: int, j: int|
            0 <= i < s.out.sources.len() && 0 <= j < s.out.sources[i].streams.len() && routes[m]
                == stream_route(s.out.sources[i], #[trigger] s.out.sources[i].streams[j]);
        lemma_first_source(s.out.sources, routes[m].src, 0);
        assert(s.out.sources[i].src == routes[m].src);
    }
    lemma_routes_are_distinct(s.out);
    let next = Hub { legs: hub.legs.insert(id, s.leg), ..hub };
    assert(next.members_of(id) == hub.members_of(id));
    assert forall|k: u64| #[trigger] s.out.index_of(k) is Some implies k != id && (next.peers(id, k)
        || s.leg.retired.contains(k)) by {
        lemma_stamped_sources(out, hub, id, src, src_ssrc, src_seq, pt, now, k);
    }
    assert forall|k: u64| k != id && #[trigger] s.leg.retired.contains(k) implies !next.peers(
        id,
        k,
    ) by {
        assert(leg.retired.contains(k));
    }
}

/// No two published routes share an SSRC.
proof fn lemma_routes_are_distinct(o: Out)
    requires
        o.inv(),
    ensures
        forall|m: int, n: int|
            0 <= m < n < routes_of(o.sources).len() ==> (#[trigger] routes_of(o.sources)[m]).ssrc
                != (#[trigger] routes_of(o.sources)[n]).ssrc,
    decreases o.sources.len(),
{
    let routes = routes_of(o.sources);
    if o.sources.len() > 0 {
        let top = o.sources.len() - 1;
        let front = Out { sources: o.sources.drop_last(), ..o };
        assert forall|i: int| 0 <= i < front.sources.len() implies #[trigger] front.sources[i]
            == o.sources[i] by {}
        assert(front.inv());
        lemma_routes_are_distinct(front);
        let cut = routes_of(front.sources).len();
        let last = o.sources[top];
        assert forall|m: int, n: int| 0 <= m < n < routes.len() implies (
        #[trigger] routes[m]).ssrc != (#[trigger] routes[n]).ssrc by {
            if n < cut {
                assert(routes[m] == routes_of(front.sources)[m]);
                assert(routes[n] == routes_of(front.sources)[n]);
            } else {
                assert(routes[n].ssrc == last.streams[n - cut].ssrc);
                if m < cut {
                    assert(routes[m] == routes_of(front.sources)[m]);
                    lemma_routes_are_of_streams(front.sources, m);
                    let (i, j) = choose|i: int, j: int|
                        0 <= i < front.sources.len() && 0 <= j < front.sources[i].streams.len()
                            && routes[m] == stream_route(
                            front.sources[i],
                            #[trigger] front.sources[i].streams[j],
                        );
                    assert(o.sources[i].streams[j].ssrc == routes[m].ssrc);
                    if routes[m].ssrc == routes[n].ssrc {
                        assert(o.sources[i].streams[j].ssrc == o.sources[top].streams[n
                            - cut].ssrc);
                    }
                } else {
                    assert(routes[m].ssrc == last.streams[m - cut].ssrc);
                    if routes[m].ssrc == routes[n].ssrc {
                        assert(o.sources[top].streams[m - cut].ssrc == o.sources[top].streams[n
                            - cut].ssrc);
                    }
                }
            }
        }
    }
}

} // verus!
