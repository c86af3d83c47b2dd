//! Groups of legs: who hears whom, after joins, leaves and packets.
use vstd::prelude::*;

use crate::relay::hub::{
    lemma_first_group, lemma_group_of, lemma_grouped_inv, lemma_joined_are_peers,
    lemma_left_adds_no_peers, lemma_left_has_no_peers, lemma_left_legs, lemma_members_are_legs, Hub,
};
use crate::relay::leg::{Frame, Leg, RelayCounters};
use crate::relay::outbound::OutRoute;
use crate::relay::pli::PliLimiter;
use crate::relay::routing::{first_route, names_source, route_of};
use crate::relay::step::{hub_step, leg_step, Next};

verus! {

/// Two legs are in one group.
pub open spec fn together(hub: Hub, x: u64, y: u64) -> bool {
    exists|g: int|
        0 <= g < hub.groups.len() && (#[trigger] hub.groups[g]).contains(x)
            && hub.groups[g].contains(y)
}

/// A leg is in some group.
pub open spec fn grouped_at_all(hub: Hub, x: u64) -> bool {
    together(hub, x, x)
}

/// A leg is one of two legs, or in the group of one of them.
pub open spec fn around(hub: Hub, a: u64, b: u64, x: u64) -> bool {
    x == a || x == b || together(hub, a, x) || together(hub, b, x)
}

/// The peers of a leg are the others of its group.
pub proof fn lemma_peers_are_together(hub: Hub, x: u64, y: u64)
    requires
        hub.inv(),
    ensures
        hub.peers(x, y) == (x != y && together(hub, x, y)),
{
    lemma_first_group(hub.groups, x, 0);
    if x != y && together(hub, x, y) {
        let g = choose|g: int|
            0 <= g < hub.groups.len() && (#[trigger] hub.groups[g]).contains(x)
                && hub.groups[g].contains(y);
        lemma_group_of(hub, g, x);
    }
}

/// Two legs that are there, and not in two different groups, are joined, and no
/// others are.
pub proof fn lemma_who_is_joined(hub: Hub, a: u64, b: u64)
    requires
        hub.inv(),
    ensures
        hub.joined(a, b).1 == (a == b || (hub.legs.contains_key(a) && hub.legs.contains_key(b)
            && !(grouped_at_all(hub, a) && grouped_at_all(hub, b) && !together(hub, a, b)))),
        !hub.joined(a, b).1 || a == b ==> hub.joined(a, b).0 == hub,
{
    lemma_first_group(hub.groups, a, 0);
    lemma_first_group(hub.groups, b, 0);
    if let Some(g) = hub.group_of(a) {
        assert(hub.groups[g].contains(a));
        assert(grouped_at_all(hub, a));
        if together(hub, a, b) {
            let h = choose|h: int|
                0 <= h < hub.groups.len() && (#[trigger] hub.groups[h]).contains(a)
                    && hub.groups[h].contains(b);
            lemma_group_of(hub, h, a);
            lemma_group_of(hub, h, b);
        }
    }
    if let Some(g) = hub.group_of(b) {
        assert(hub.groups[g].contains(b));
        assert(grouped_at_all(hub, b));
        if hub.group_of(a) == Some(g) {
            assert(together(hub, a, b));
        }
    }
}

/// After a join, whoever was with one of the two is with all that were with either,
/// and else everybody is with whom they were with.
pub proof fn lemma_join_makes_one_group(hub: Hub, a: u64, b: u64, x: u64, y: u64)
    requires
        hub.inv(),
        a != b,
        hub.joined(a, b).1,
        x != y,
    ensures
        together(hub.joined(a, b).0, x, y) == (together(hub, x, y) || (around(hub, a, b, x)
            && around(hub, a, b, y))),
{
    let lo = if a < b {
        a
    } else {
        b
    };
    let hi = if a < b {
        b
    } else {
        a
    };
    lemma_grouped_inv(hub, lo, hi);
    lemma_joined_are_peers(hub, a, b);
    let after = hub.joined(a, b).0;
    let (groups, g) = hub.grouped(lo, hi).unwrap();
    let mid = Hub { groups, legs: hub.legs };
    assert(after.groups == groups);
    lemma_first_group(hub.groups, lo, 0);
    lemma_first_group(hub.groups, hi, 0);
    lemma_circle(hub, a, b, x);
    lemma_circle(hub, a, b, y);
    if together(hub, x, y) {
        let h = choose|h: int|
            0 <= h < hub.groups.len() && (#[trigger] hub.groups[h]).contains(x)
                && hub.groups[h].contains(y);
        crate::relay::hub::lemma_push_contains(hub.groups[h], lo, x);
        crate::relay::hub::lemma_push_contains(hub.groups[h], lo, y);
        crate::relay::hub::lemma_push_contains(hub.groups[h], hi, x);
        crate::relay::hub::lemma_push_contains(hub.groups[h], hi, y);
        assert(groups[h].contains(x) && groups[h].contains(y));
        assert(together(after, x, y));
    }
    if around(hub, a, b, x) && around(hub, a, b, y) {
        assert(groups[g].contains(x) && groups[g].contains(y));
        assert(together(after, x, y));
    }
    if together(after, x, y) {
        let h = choose|h: int|
            0 <= h < after.groups.len() && (#[trigger] after.groups[h]).contains(x)
                && after.groups[h].contains(y);
        if h != g {
            assert(groups[h] == hub.groups[h]);
            assert(together(hub, x, y));
        }
    }
}

/// The group of two legs that were joined holds whoever was around them.
proof fn lemma_circle(hub: Hub, a: u64, b: u64, x: u64)
    requires
        hub.inv(),
        a != b,
        hub.joined(a, b).1,
    ensures
        ({
            let lo = if a < b {
                a
            } else {
                b
            };
            let hi = if a < b {
                b
            } else {
                a
            };
            let (groups, g) = hub.grouped(lo, hi).unwrap();
            groups[g].contains(x) == around(hub, a, b, x)
        }),
{
    let lo = if a < b {
        a
    } else {
        b
    };
    let hi = if a < b {
        b
    } else {
        a
    };
    let (groups, g) = hub.grouped(lo, hi).unwrap();
    lemma_grouped_inv(hub, lo, hi);
    lemma_first_group(hub.groups, lo, 0);
    lemma_first_group(hub.groups, hi, 0);
    if let Some(h) = hub.group_of(lo) {
        assert(hub.groups[h].contains(lo));
        crate::relay::hub::lemma_push_contains(hub.groups[h], hi, x);
        assert(together(hub, lo, x) == hub.groups[h].contains(x)) by {
            if together(hub, lo, x) {
                let i = choose|i: int|
                    0 <= i < hub.groups.len() && (#[trigger] hub.groups[i]).contains(lo)
                        && hub.groups[i].contains(x);
                lemma_group_of(hub, i, lo);
            }
        }
    }
    if let Some(h) = hub.group_of(hi) {
        assert(hub.groups[h].contains(hi));
        crate::relay::hub::lemma_push_contains(hub.groups[h], lo, x);
        assert(together(hub, hi, x) == hub.groups[h].contains(x)) by {
            if together(hub, hi, x) {
                let i = choose|i: int|
                    0 <= i < hub.groups.len() && (#[trigger] hub.groups[i]).contains(hi)
                        && hub.groups[i].contains(x);
                lemma_group_of(hub, i, hi);
            }
        }
    }
    if hub.group_of(lo) is None && hub.group_of(hi) is None {
        assert(groups[g] == seq![lo, hi]);
        assert(seq![lo, hi][0] == lo && seq![lo, hi][1] == hi);
    }
}

/// A join asks every leg of the group for a keyframe, and nobody else; whom a leg
/// was told is gone stays so, but for those that are now with it. Nothing else of
/// any leg changes.
pub proof fn lemma_join_asks_everybody(hub: Hub, a: u64, b: u64, k: u64, x: u64)
    requires
        hub.inv(),
        a != b,
        hub.joined(a, b).1,
        hub.legs.contains_key(k),
    ensures
        ({
            let (before, after) = (hub.legs[k], hub.joined(a, b).0.legs[k]);
            &&& hub.joined(a, b).0.legs.contains_key(k)
            &&& around(hub, a, b, k) ==> {
                &&& after.pli
                &&& after == (Leg { pli: true, retired: after.retired, ..before })
                &&& after.retired.contains(x) == (before.retired.contains(x) && !around(
                    hub,
                    a,
                    b,
                    x,
                ))
            }
            &&& !around(hub, a, b, k) ==> after == before
        }),
{
    lemma_circle(hub, a, b, k);
    lemma_circle(hub, a, b, x);
    let (before, after) = (hub.legs[k], hub.joined(a, b).0.legs[k]);
    let lo = if a < b {
        a
    } else {
        b
    };
    let hi = if a < b {
        b
    } else {
        a
    };
    let (groups, g) = hub.grouped(lo, hi).unwrap();
    if around(hub, a, b, k) {
        let keep = |id: u64| !groups[g].contains(id);
        assert(after.retired == before.retired.filter(keep));
        if after.retired.contains(x) {
            let i = choose|i: int| 0 <= i < after.retired.len() && after.retired[i] == x;
            before.retired.lemma_filter_pred(keep, i);
            before.retired.lemma_filter_contains_rev(keep, x);
        }
        if before.retired.contains(x) && !groups[g].contains(x) {
            let i = choose|i: int| 0 <= i < before.retired.len() && before.retired[i] == x;
            before.retired.lemma_filter_contains(keep, i);
        }
    }
}

/// Whoever leaves is with nobody; all others are with whom they were with.
pub proof fn lemma_leave_parts(hub: Hub, id: u64, x: u64, y: u64)
    requires
        hub.inv(),
        hub.left(id).inv(),
        x != y,
    ensures
        together(hub.left(id), x, y) == (together(hub, x, y) && x != id && y != id),
{
    lemma_peers_are_together(hub, x, y);
    lemma_peers_are_together(hub.left(id), x, y);
    lemma_left_has_no_peers(hub, id, x, y);
    lemma_left_has_no_peers(hub, id, y, x);
    if hub.left(id).peers(x, y) {
        lemma_left_adds_no_peers(hub, id, x, y);
    }
}

/// Whoever leaves is told that each it was with is gone, and each of them that it
/// is; all are to look. No other leg hears of it, and nothing else of any changes.
pub proof fn lemma_leave_is_told(hub: Hub, id: u64, k: u64, x: u64)
    requires
        hub.inv(),
        hub.legs.contains_key(k),
    ensures
        ({
            let (before, after) = (hub.legs[k], hub.left(id).legs[k]);
            let told = x != k && together(hub, k, x) && (k == id || x == id);
            &&& hub.left(id).legs.contains_key(k)
            &&& after.retired.contains(x) == (before.retired.contains(x) || told)
            &&& told ==> after.retire_pending
            &&& after == (Leg {
                retired: after.retired,
                retire_pending: after.retire_pending,
                ..before
            })
            &&& !together(hub, k, id) ==> after == before
        }),
{
    lemma_left_legs(hub, id, k, x);
    lemma_peers_are_together(hub, k, id);
    lemma_peers_are_together(hub, id, x);
    lemma_first_group(hub.groups, id, 0);
    if let Some(g) = hub.group_of(id) {
        let m = hub.groups[g];
        assert(together(hub, id, id));
        let rest = crate::relay::hub::without_id(m, id);
        crate::relay::hub::lemma_first_id(m, id, 0);
        crate::relay::hub::lemma_without_id(
            hub,
            g,
            id,
            crate::relay::hub::first_id(m, id, 0),
        );
        if rest.contains(k) {
            assert(together(hub, k, id));
        }
    }
}

/// A packet of a leg is handed to all that it is with, and to nobody else: behind
/// what waits there, with the leg as its source and its payload types, where there
/// is room; else it is counted as dropped.
pub proof fn lemma_packet_reaches_the_group(hub: Hub, id: u64, pkt: Seq<u8>, k: u64)
    requires
        hub.inv(),
        hub.legs.contains_key(k),
    ensures
        ({
            let (before, after) = (hub.legs[k], hub.fanned(id, pkt).legs[k]);
            let hears = k != id && together(hub, id, k);
            let frame = Frame { src: id, pts: hub.legs[id].pts, pkt };
            &&& hub.fanned(id, pkt).groups == hub.groups
            &&& hub.fanned(id, pkt).legs.contains_key(k)
            &&& !hears ==> after == before
            &&& hears && before.queue.len() < before.depth ==> after == (Leg {
                queue: before.queue.push(frame),
                ..before
            })
            &&& hears && before.queue.len() >= before.depth ==> after == (Leg {
                counters: after.counters,
                ..before
            }) && after.counters == (RelayCounters {
                dropped: after.counters.dropped,
                ..before.counters
            }) && (after.counters.dropped - before.counters.dropped - 1) % 0x1_0000_0000_0000_0000
                == 0
        }),
{
    lemma_peers_are_together(hub, id, k);
}

/// A control datagram is counted once: as failed where there are keys and it did
/// not decrypt, as too early where a secure leg has none, and else as accepted.
pub proof fn lemma_control_is_counted(leg: Leg, keyed: bool, ok: bool)
    ensures
        ({
            let (c, d) = (leg.counters, leg.rtcp_counted(keyed, ok).counters);
            let failed = keyed && !ok;
            let early = !keyed && leg.secure;
            &&& leg.rtcp_counted(keyed, ok) == (Leg { counters: d, ..leg })
            &&& d == (RelayCounters {
                decrypt_failed: d.decrypt_failed,
                prekey_dropped: d.prekey_dropped,
                rtcp_in: d.rtcp_in,
                ..c
            })
            &&& d.decrypt_failed == if failed {
                c.decrypt_failed.wrapping_add(1)
            } else {
                c.decrypt_failed
            }
            &&& d.prekey_dropped == if early {
                c.prekey_dropped.wrapping_add(1)
            } else {
                c.prekey_dropped
            }
            &&& d.rtcp_in == if failed || early {
                c.rtcp_in
            } else {
                c.rtcp_in.wrapping_add(1)
            }
        }),
{
}

/// A keyframe that is asked for, and that was not requested in the last 300 ms, is
/// requested before anything else; else NACKs go before media, and the frames go
/// in the order in which they came. Only with none of these there is nothing to
/// do.
pub proof fn lemma_step_order(leg: Leg, limiter: PliLimiter, now: u64)
    requires
        limiter.inv(),
        limiter.last matches Some(t) ==> t <= now,
    ensures
        ({
            let next = leg_step(leg, limiter, now).2;
            let quiet = limiter.last matches Some(t) ==> now - t >= 300_000_000;
            let wanted = leg.pli || limiter.deadline is Some;
            &&& wanted && quiet ==> next is Pli
            &&& !(wanted && quiet) && leg.nack_wake ==> next == Next::Nacks(leg.nacks)
            &&& !(wanted && quiet) && !leg.nack_wake && leg.queue.len() > 0 ==> next == Next::Frame(
                leg.queue[0],
            )
            &&& !(wanted && quiet) && !leg.nack_wake && leg.queue.len() == 0 ==> next == Next::Wait
        }),
{
}

/// Some route of a leg is of this SSRC and this source.
pub open spec fn sends_of(routes: Seq<OutRoute>, ssrc: u32, src: u64) -> bool {
    exists|i: int|
        0 <= i < routes.len() && (#[trigger] routes[i]).ssrc == ssrc && routes[i].src == src
}

/// No two routes share an SSRC.
pub open spec fn are_distinct(routes: Seq<OutRoute>) -> bool {
    forall|i: int, j: int|
        0 <= i < routes.len() && 0 <= j < routes.len() && (#[trigger] routes[i]).ssrc == (
        #[trigger] routes[j]).ssrc ==> i == j
}

proof fn lemma_route_found(routes: Seq<OutRoute>, ssrc: u32, at: int)
    requires
        0 <= at,
    ensures
        match first_route(routes, ssrc, at) {
            Some(r) => exists|i: int|
                at <= i < routes.len() && #[trigger] routes[i] == r && r.ssrc == ssrc,
            None => forall|i: int| at <= i < routes.len() ==> (#[trigger] routes[i]).ssrc != ssrc,
        },
    decreases routes.len() - at,
{
    if at < routes.len() && routes[at].ssrc != ssrc {
        lemma_route_found(routes, ssrc, at + 1);
    }
}

/// A route is found by its SSRC exactly where the leg sends one of that source.
proof fn lemma_sends_of(routes: Seq<OutRoute>, ssrc: u32, src: u64)
    requires
        are_distinct(routes),
    ensures
        sends_of(routes, ssrc, src) == (route_of(routes, ssrc) matches Some(r) && r.src == src),
{
    lemma_route_found(routes, ssrc, 0);
    if let Some(r) = route_of(routes, ssrc) {
        let i = choose|i: int| 0 <= i < routes.len() && #[trigger] routes[i] == r;
        assert(routes[i].ssrc == ssrc);
        if sends_of(routes, ssrc, src) {
            let j = choose|j: int|
                0 <= j < routes.len() && (#[trigger] routes[j]).ssrc == ssrc && routes[j].src
                    == src;
            assert(routes[i].ssrc == routes[j].ssrc);
        }
    }
}

/// A keyframe request of the remote of a leg, PLI or FIR, reaches exactly the legs
/// of the group that send one of the SSRCs which it names; where it names none that
/// any leg of the group sends, every leg of the group. Nothing else changes.
pub proof fn lemma_keyframe_request_reaches(hub: Hub, id: u64, ssrcs: Seq<u32>, k: u64)
    requires
        hub.inv(),
        hub.legs.contains_key(id),
        hub.legs.contains_key(k),
        are_distinct(hub.legs[id].routes),
    ensures
        ({
            let routes = hub.legs[id].routes;
            let named = exists|i: int|
                0 <= i < ssrcs.len() && sends_of(routes, #[trigger] ssrcs[i], k);
            let others = exists|i: int, j: u64|
                0 <= i < ssrcs.len() && j != id && together(hub, id, j) && sends_of(
                    routes,
                    #[trigger] ssrcs[i],
                    j,
                ) && #[trigger] hub.legs.contains_key(j);
            let asked = k != id && together(hub, id, k) && (named || !others);
            let after = hub.keyframe_asked(id, ssrcs);
            &&& after.legs[k] == (Leg { pli: hub.legs[k].pli || asked, ..hub.legs[k] })
            &&& after.groups == hub.groups
        }),
{
    let routes = hub.legs[id].routes;
    lemma_peers_are_together(hub, id, k);
    lemma_members_are_legs(hub, id);
    let named = exists|i: int| 0 <= i < ssrcs.len() && sends_of(routes, #[trigger] ssrcs[i], k);
    let others = exists|i: int, j: u64|
        0 <= i < ssrcs.len() && j != id && together(hub, id, j) && sends_of(
            routes,
            #[trigger] ssrcs[i],
            j,
        ) && #[trigger] hub.legs.contains_key(j);
    assert(named == names_source(routes, ssrcs, k)) by {
        if named {
            let i = choose|i: int|
                0 <= i < ssrcs.len() && sends_of(routes, #[trigger] ssrcs[i], k);
            lemma_sends_of(routes, ssrcs[i], k);
        }
        if names_source(routes, ssrcs, k) {
            let i = choose|i: int|
                0 <= i < ssrcs.len() && (route_of(routes, #[trigger] ssrcs[i]) matches Some(r)
                    && r.src == k);
            lemma_sends_of(routes, ssrcs[i], k);
        }
    }
    assert(others == !hub.names_no_peer(id, ssrcs)) by {
        if others {
            let (i, j) = choose|i: int, j: u64|
                0 <= i < ssrcs.len() && j != id && together(hub, id, j) && sends_of(
                    routes,
                    #[trigger] ssrcs[i],
                    j,
                ) && #[trigger] hub.legs.contains_key(j);
            lemma_sends_of(routes, ssrcs[i], j);
            lemma_peers_are_together(hub, id, j);
            assert(route_of(routes, ssrcs[i]) matches Some(r) && hub.peers(id, r.src));
        }
        if !hub.names_no_peer(id, ssrcs) {
            let i = choose|i: int|
                0 <= i < ssrcs.len() && (route_of(routes, #[trigger] ssrcs[i]) matches Some(r)
                    && hub.peers(id, r.src));
            let j = route_of(routes, ssrcs[i])->0.src;
            lemma_sends_of(routes, ssrcs[i], j);
            lemma_peers_are_together(hub, id, j);
            assert(hub.legs.contains_key(j));
        }
    }
}

/// The streams that a leg reports are its routes whose sources are in its group, in
/// their order, each with its source's label, its SSRC, the source's SSRC and its
/// payload type; the others are left out.
pub proof fn lemma_reported_streams(hub: Hub, id: u64, routes: Seq<OutRoute>, r: OutRoute)
    requires
        hub.inv(),
    ensures
        hub.listed(id, Seq::empty()).len() == 0,
        r.src != id && together(hub, id, r.src) ==> {
            let (before, after) = (hub.listed(id, routes), hub.listed(id, routes.push(r)));
            &&& after.len() == before.len() + 1
            &&& before.is_prefix_of(after)
            &&& after.last().source == hub.legs[r.src].label
            &&& after.last().ssrc == r.ssrc
            &&& after.last().source_ssrc == r.src_ssrc
            &&& after.last().pt == r.pt
        },
        r.src == id || !together(hub, id, r.src) ==> hub.listed(id, routes.push(r)) == hub.listed(
            id,
            routes,
        ),
{
    lemma_peers_are_together(hub, id, r.src);
    assert(routes.push(r).drop_last() =~= routes);
}

/// The send task of a leg that is gone ends and changes nothing; that of any other
/// changes no leg but its own.
pub proof fn lemma_step_is_of_one_leg(
    hub: Hub,
    own: u64,
    limiter: PliLimiter,
    now: u64,
    k: u64,
)
    requires
        k != own,
    ensures
        ({
            let (after, l, next) = hub_step(hub, own, limiter, now);
            &&& !hub.legs.contains_key(own) ==> next is Gone && after == hub && l == limiter
            &&& hub.legs.contains_key(own) ==> !(next is Gone) && (after.legs[own], l, next)
                == leg_step(hub.legs[own], limiter, now)
            &&& after.groups == hub.groups
            &&& after.legs.contains_key(k) == hub.legs.contains_key(k)
            &&& hub.legs.contains_key(k) ==> after.legs[k] == hub.legs[k]
        }),
{
}

} // verus!
