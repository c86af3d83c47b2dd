//! What holds of the NACKs that a leg relays.
use vstd::prelude::*;

use crate::relay::hub::Hub;
use crate::relay::leg::{Leg, NACK_QUEUE_DEPTH};
use crate::relay::nack::{
    any_asks, asks, at_or_after, clipped, lemma_clip_exact, lemma_numbers_of_entry,
    lemma_passes_exactly, lemma_repacks_into_no_more, low_numbers, may_ask, nack_key, numbers,
    purged, Admission,
};
use crate::relay::outbound::OutRoute;
use crate::relay::routing::{
    at_most, first_route, lemma_nack_asks_for_the_same_packet, lemma_nack_budget, requested,
    requests, route_of, total_entries, translated, translated_entry, SourceReq, MAX_NACK_FCI,
};
use crate::relay::seq_map::{newer, Numbering};

verus! {

/// What of some requests is queued, in order, each with its leg: of a leg that
/// `p` picks, what its limiter lets pass, where there is room.
pub open spec fn queued(
    legs: Map<u64, Leg>,
    p: spec_fn(u64) -> bool,
    reqs: Seq<SourceReq>,
    now: u64,
) -> Seq<SourceReq>
    decreases reqs.len(),
{
    if reqs.len() == 0 {
        Seq::empty()
    } else {
        let before = queued(legs, p, reqs.drop_last(), now);
        let r = reqs.last();
        let leg = requested(legs, p, reqs.drop_last(), now)[r.src];
        let after = leg.nacked(r.ssrc, r.fci, now);
        if p(r.src) && after.nacks.len() > leg.nacks.len() {
            before.push(SourceReq { src: r.src, ssrc: r.ssrc, fci: after.nacks.last().1 })
        } else {
            before
        }
    }
}

/// The requests that are of one leg.
pub open spec fn of_leg(reqs: Seq<SourceReq>, k: u64) -> Seq<(u32, Seq<(u16, u16)>)>
    decreases reqs.len(),
{
    if reqs.len() == 0 {
        Seq::empty()
    } else {
        let before = of_leg(reqs.drop_last(), k);
        if reqs.last().src == k {
            before.push((reqs.last().ssrc, reqs.last().fci))
        } else {
            before
        }
    }
}

/// What is queued is all that changes in the queues, and it has no more entries
/// than the requests.
proof fn lemma_queued(
    legs: Map<u64, Leg>,
    p: spec_fn(u64) -> bool,
    reqs: Seq<SourceReq>,
    now: u64,
    k: u64,
)
    requires
        legs.contains_key(k),
        legs[k].nacks.len() <= NACK_QUEUE_DEPTH,
    ensures
        ({
            let after = requested(legs, p, reqs, now);
            let q = queued(legs, p, reqs, now);
            &&& after.contains_key(k)
            &&& after[k].nacks == legs[k].nacks + of_leg(q, k)
            &&& after[k].nacks.len() <= NACK_QUEUE_DEPTH
            &&& after[k].pli == legs[k].pli
            &&& after[k].queue == legs[k].queue
            &&& total_entries(q) <= total_entries(reqs)
        }),
    decreases reqs.len(),
{
    if reqs.len() > 0 {
        let front = reqs.drop_last();
        lemma_queued(legs, p, front, now, k);
        let before = requested(legs, p, front, now);
        let r = reqs.last();
        let leg = before[r.src];
        let after = leg.nacked(r.ssrc, r.fci, now);
        let q = queued(legs, p, reqs, now);
        let earlier = queued(legs, p, front, now);
        lemma_repacks_into_no_more(
            Admission { recent: purged(leg.recent, now), fci: Seq::empty() },
            r.ssrc,
            r.fci,
            now,
        );
        if q.len() > earlier.len() {
            assert(q.drop_last() =~= earlier);
            assert(after.nacks == leg.nacks.push(after.nacks.last()));
            if r.src == k {
                assert(after.nacks =~= legs[k].nacks + of_leg(q, k));
            }
        } else {
            assert(q =~= earlier);
            if p(r.src) && r.src == k {
                assert(after.nacks == leg.nacks);
            }
        }
    } else {
        assert(legs[k].nacks =~= legs[k].nacks + of_leg(Seq::empty(), k));
    }
}

/// Each thing that is queued is of a leg that `p` picks, and of a request.
proof fn lemma_queued_is_requested(
    legs: Map<u64, Leg>,
    p: spec_fn(u64) -> bool,
    reqs: Seq<SourceReq>,
    now: u64,
    m: int,
) -> (j: int)
    requires
        0 <= m < queued(legs, p, reqs, now).len(),
    ensures
        0 <= j < reqs.len(),
        p(queued(legs, p, reqs, now)[m].src),
        reqs[j].src == queued(legs, p, reqs, now)[m].src,
        reqs[j].ssrc == queued(legs, p, reqs, now)[m].ssrc,
    decreases reqs.len(),
{
    let front = reqs.drop_last();
    let earlier = queued(legs, p, front, now);
    if m < earlier.len() {
        let j = lemma_queued_is_requested(legs, p, front, now, m);
        assert(front[j] == reqs[j]);
        assert(queued(legs, p, reqs, now)[m] == earlier[m]);
        j
    } else {
        reqs.len() - 1
    }
}

/// Each request is of a route that an item names.
proof fn lemma_request_is_named(
    routes: Seq<OutRoute>,
    items: Seq<(u32, Seq<(u16, u16)>)>,
    j: int,
) -> (i: int)
    requires
        0 <= j < requests(routes, items).0.len(),
    ensures
        0 <= i < items.len(),
        route_of(routes, items[i].0) matches Some(r) && r.src == requests(routes, items).0[j].src
            && r.src_ssrc == requests(routes, items).0[j].ssrc,
    decreases items.len(),
{
    let front = items.drop_last();
    let before = requests(routes, front).0;
    if j < before.len() {
        let i = lemma_request_is_named(routes, front, j);
        assert(front[i] == items[i]);
        assert(requests(routes, items).0[j] == before[j]);
        i
    } else {
        items.len() - 1
    }
}

/// What one compound of NACKs has queued: `MAX_NACK_FCI` entries in all at most,
/// each request on a peer that is the source of a route which an item names, and
/// under the route's own source SSRC. Nothing else joins a queue, none outgrows
/// its bound, and no leg is asked for a keyframe.
pub proof fn lemma_relayed_nacks_are_bounded(
    hub: Hub,
    id: u64,
    items: Seq<(u32, Seq<(u16, u16)>)>,
    now: u64,
)
    requires
        hub.inv(),
        hub.legs.contains_key(id),
    ensures
        ({
            let routes = hub.legs[id].routes;
            let q = queued(
                hub.legs,
                |k: u64| hub.peers(id, k),
                requests(routes, items).0,
                now,
            );
            let after = hub.nacks_relayed(id, items, now).legs;
            &&& total_entries(q) <= MAX_NACK_FCI
            &&& forall|m: int|
                0 <= m < q.len() ==> hub.peers(id, (#[trigger] q[m]).src) && exists|i: int|
                    0 <= i < items.len() && (route_of(routes, (#[trigger] items[i]).0)
                        matches Some(r) && r.src == q[m].src && r.src_ssrc == q[m].ssrc)
            &&& forall|k: u64| #[trigger]
                hub.legs.contains_key(k) ==> {
                    &&& after.contains_key(k)
                    &&& after[k].nacks == hub.legs[k].nacks + of_leg(q, k)
                    &&& after[k].nacks.len() <= NACK_QUEUE_DEPTH
                    &&& after[k].pli == hub.legs[k].pli
                    &&& after[k].queue == hub.legs[k].queue
                }
        }),
{
    let routes = hub.legs[id].routes;
    let p = |k: u64| hub.peers(id, k);
    let reqs = requests(routes, items).0;
    let q = queued(hub.legs, p, reqs, now);
    lemma_nack_budget(routes, items);
    lemma_queued(hub.legs, p, reqs, now, id);
    assert forall|m: int| 0 <= m < q.len() implies hub.peers(id, (#[trigger] q[m]).src) && exists|
        i: int,
    |
        0 <= i < items.len() && (route_of(routes, (#[trigger] items[i]).0) matches Some(r) && r.src
            == q[m].src && r.src_ssrc == q[m].ssrc) by {
        let j = lemma_queued_is_requested(hub.legs, p, reqs, now, m);
        assert(p(q[m].src));
        let i = lemma_request_is_named(routes, items, j);
        assert(route_of(routes, items[i].0) is Some);
    }
    assert forall|k: u64| #[trigger] hub.legs.contains_key(k) implies ({
        let after = hub.nacks_relayed(id, items, now).legs;
        &&& after.contains_key(k)
        &&& after[k].nacks == hub.legs[k].nacks + of_leg(q, k)
        &&& after[k].nacks.len() <= NACK_QUEUE_DEPTH
        &&& after[k].pli == hub.legs[k].pli
        &&& after[k].queue == hub.legs[k].queue
    }) by {
        lemma_queued(hub.legs, p, reqs, now, k);
    }
}

/// A NACK that names an SSRC without a route comes to nothing: the others are
/// relayed as if it were not there.
pub proof fn lemma_unknown_ssrc_is_skipped(
    routes: Seq<OutRoute>,
    items: Seq<(u32, Seq<(u16, u16)>)>,
    i: int,
)
    requires
        0 <= i < items.len(),
        route_of(routes, items[i].0) is None,
    ensures
        requests(routes, items) == requests(routes, items.remove(i)),
    decreases items.len(),
{
    let front = items.drop_last();
    let rest = items.remove(i);
    if i == items.len() - 1 {
        assert(rest =~= front);
    } else {
        lemma_unknown_ssrc_is_skipped(routes, front, i);
        assert(rest.drop_last() =~= front.remove(i));
        assert(rest.last() == items.last());
    }
}

/// Sequence numbers wrap: one is newer than another when it is up to half a cycle
/// ahead of it.
pub proof fn lemma_newer_is_ahead(b: u16, d: u16)
    ensures
        newer(b.wrapping_add(d), b) == (1 <= d < 0x8000),
        at_or_after(b.wrapping_add(d), b) == (d <= 0x8000),
{
}

/// An entry asks for its identifier, and for each of its sixteen bits that is set
/// for the packet that many and one behind it: for no other.
pub proof fn lemma_entry_asks(pid: u16, blp: u16, s: u16)
    ensures
        asks(pid, blp, pid),
        forall|i: u16|
            0 <= i < 16 ==> #[trigger] asks(pid, blp, pid.wrapping_add((i + 1) as u16)) == ((blp
                >> i) & 1 == 1),
        s.wrapping_sub(pid) > 16 ==> !asks(pid, blp, s),
{
}

/// How many entries these NACKs have.
pub open spec fn entries_in(items: Seq<(u32, Seq<(u16, u16)>)>) -> int
    decreases items.len(),
{
    if items.len() == 0 {
        0
    } else {
        entries_in(items.drop_last()) + items.last().1.len()
    }
}

/// A route is that of an outbound SSRC, and of no other route is it.
pub open spec fn only_route(routes: Seq<OutRoute>, ssrc: u32, r: OutRoute) -> bool {
    &&& r.ssrc == ssrc
    &&& routes.contains(r)
    &&& forall|m: int|
        0 <= m < routes.len() && (#[trigger] routes[m]).ssrc == ssrc ==> routes[m] == r
}

pub(crate) proof fn lemma_only_route(routes: Seq<OutRoute>, ssrc: u32, r: OutRoute, at: int)
    requires
        only_route(routes, ssrc, r),
        0 <= at,
        exists|m: int| at <= m < routes.len() && #[trigger] routes[m] == r,
    ensures
        first_route(routes, ssrc, at) == Some(r),
    decreases routes.len() - at,
{
    if routes[at].ssrc != ssrc {
        let m = choose|m: int| at <= m < routes.len() && #[trigger] routes[m] == r;
        assert(m != at);
        lemma_only_route(routes, ssrc, r, at + 1);
    }
}

pub(crate) proof fn lemma_route_is(routes: Seq<OutRoute>, ssrc: u32, r: OutRoute)
    requires
        only_route(routes, ssrc, r),
    ensures
        route_of(routes, ssrc) == Some(r),
{
    let m = choose|m: int| 0 <= m < routes.len() && routes[m] == r;
    assert(routes[m] == r);
    lemma_only_route(routes, ssrc, r, 0);
}

/// An entry in the terms of the source asks for what the entry asks for, by the
/// source's numbers.
proof fn lemma_entry_in_terms(r: OutRoute, pid: u16, blp: u16, out: u16)
    ensures
        ({
            let x = out.wrapping_sub(r.offset);
            let recent = match r.base {
                Some(b) => at_or_after(out, b),
                None => true,
            };
            match translated_entry(r, pid, blp) {
                Some((p, m)) => {
                    &&& asks(p, m, x) ==> asks(pid, blp, out) && (recent || at_or_after(
                        pid,
                        r.base->0,
                    ))
                    &&& asks(pid, blp, out) && recent ==> asks(p, m, x)
                },
                None => !(asks(pid, blp, out) && recent),
            }
        }),
{
    let x = out.wrapping_sub(r.offset);
    let n = Numbering { started: true, offset: r.offset, highest: None, base: None };
    assert(n.outbound(x) == out);
    lemma_nack_asks_for_the_same_packet(r, n, x, pid, blp);
    if let Some(b) = r.base {
        if !at_or_after(pid, b) {
            lemma_clip_exact(pid, blp, b);
            if let Some((f, m)) = clipped(pid, blp, b) {
                assert(asks(f, m, out) == (asks(pid, blp, out) && at_or_after(out, b)));
                assert(out.wrapping_sub(f) == x.wrapping_sub(f.wrapping_sub(r.offset)));
            }
        }
    }
}

proof fn lemma_translated_len(r: OutRoute, fci: Seq<(u16, u16)>)
    ensures
        translated(r, fci).len() <= fci.len(),
    decreases fci.len(),
{
    if fci.len() > 0 {
        lemma_translated_len(r, fci.drop_last());
    }
}

proof fn lemma_translated_at(r: OutRoute, fci: Seq<(u16, u16)>, e: int) -> (m: int)
    requires
        0 <= e < fci.len(),
        translated_entry(r, fci[e].0, fci[e].1) is Some,
    ensures
        0 <= m <= e,
        m < translated(r, fci).len(),
        translated(r, fci)[m] == translated_entry(r, fci[e].0, fci[e].1)->0,
    decreases fci.len(),
{
    let front = fci.drop_last();
    lemma_translated_len(r, front);
    if e < front.len() {
        assert(front[e] == fci[e]);
        let m = lemma_translated_at(r, front, e);
        assert(translated(r, fci)[m] == translated(r, front)[m]);
        m
    } else {
        translated(r, front).len() as int
    }
}

proof fn lemma_translated_from(r: OutRoute, fci: Seq<(u16, u16)>, m: int) -> (e: int)
    requires
        0 <= m < translated(r, fci).len(),
    ensures
        0 <= e < fci.len(),
        translated_entry(r, fci[e].0, fci[e].1) == Some(translated(r, fci)[m]),
    decreases fci.len(),
{
    let front = fci.drop_last();
    if m < translated(r, front).len() {
        let e = lemma_translated_from(r, front, m);
        assert(front[e] == fci[e]);
        assert(translated(r, fci)[m] == translated(r, front)[m]);
        e
    } else {
        fci.len() - 1
    }
}

proof fn lemma_budget_left(routes: Seq<OutRoute>, items: Seq<(u32, Seq<(u16, u16)>)>)
    ensures
        requests(routes, items).1 >= MAX_NACK_FCI - entries_in(items),
        requests(routes, items).1 >= 0,
    decreases items.len(),
{
    lemma_nack_budget(routes, items);
    if items.len() > 0 {
        lemma_budget_left(routes, items.drop_last());
        if let Some(r) = route_of(routes, items.last().0) {
            lemma_translated_len(r, items.last().1);
        }
    }
}

proof fn lemma_planned(
    routes: Seq<OutRoute>,
    items: Seq<(u32, Seq<(u16, u16)>)>,
    i: int,
    e: int,
    r: OutRoute,
    out: u16,
) -> (j: int)
    requires
        0 <= i < items.len(),
        0 <= e < items[i].1.len(),
        route_of(routes, items[i].0) == Some(r),
        asks(items[i].1[e].0, items[i].1[e].1, out),
        r.base matches Some(b) ==> at_or_after(out, b),
        entries_in(items.take(i)) + e < MAX_NACK_FCI || requests(routes, items).1 > 0,
    ensures
        0 <= j < requests(routes, items).0.len(),
        requests(routes, items).0[j].src == r.src,
        requests(routes, items).0[j].ssrc == r.src_ssrc,
        any_asks(requests(routes, items).0[j].fci, out.wrapping_sub(r.offset)),
    decreases items.len(),
{
    let front = items.drop_last();
    lemma_budget_left(routes, front);
    lemma_budget_left(routes, items);
    let (before, budget) = requests(routes, front);
    if i < front.len() {
        assert(front[i] == items[i]);
        assert(front.take(i) =~= items.take(i));
        let j = lemma_planned(routes, front, i, e, r, out);
        assert(requests(routes, items).0[j] == before[j]);
        j
    } else {
        assert(items.take(i) =~= front);
        let fci = items[i].1;
        lemma_entry_in_terms(r, fci[e].0, fci[e].1, out);
        let m = lemma_translated_at(r, fci, e);
        let all = translated(r, fci);
        let kept = at_most(all, budget);
        assert(kept[m] == all[m]);
        assert(asks(kept[m].0, kept[m].1, out.wrapping_sub(r.offset)));
        before.len() as int
    }
}

/// Every packet that a NACK on a routed SSRC asks for, at or after the stream's
/// base, is asked of the source under its own SSRC and number: where fewer than
/// 32 entries stand before the one that asks for it, and also wherever fewer than
/// 32 entries are relayed in all.
pub proof fn lemma_no_lost_packet_is_left_out(
    routes: Seq<OutRoute>,
    items: Seq<(u32, Seq<(u16, u16)>)>,
    i: int,
    e: int,
    r: OutRoute,
    out: u16,
)
    requires
        0 <= i < items.len(),
        0 <= e < items[i].1.len(),
        only_route(routes, items[i].0, r),
        asks(items[i].1[e].0, items[i].1[e].1, out),
        r.base matches Some(b) ==> at_or_after(out, b),
        entries_in(items.take(i)) + e < 32 || total_entries(requests(routes, items).0) < 32,
    ensures
        exists|j: int|
            0 <= j < requests(routes, items).0.len() && (
            #[trigger] requests(routes, items).0[j]).src == r.src && requests(
                routes,
                items,
            ).0[j].ssrc == r.src_ssrc && any_asks(
                requests(routes, items).0[j].fci,
                out.wrapping_sub(r.offset),
            ),
{
    lemma_route_is(routes, items[i].0, r);
    lemma_nack_budget(routes, items);
    let j = lemma_planned(routes, items, i, e, r, out);
    assert(requests(routes, items).0[j].src == r.src);
}

/// What is asked of a source was asked for: by an entry of a NACK on an SSRC that
/// is routed to the source, under the number that the packet went out with, which
/// is not one before the stream's base unless the entry begins at or after it.
pub proof fn lemma_only_lost_packets_are_asked(
    routes: Seq<OutRoute>,
    items: Seq<(u32, Seq<(u16, u16)>)>,
    j: int,
    x: u16,
) -> (c: (int, int, OutRoute))
    requires
        0 <= j < requests(routes, items).0.len(),
        any_asks(requests(routes, items).0[j].fci, x),
    ensures
        ({
            let (i, e, r) = c;
            let out = x.wrapping_add(r.offset);
            &&& 0 <= i < items.len()
            &&& 0 <= e < items[i].1.len()
            &&& route_of(routes, items[i].0) == Some(r)
            &&& r.src == requests(routes, items).0[j].src
            &&& r.src_ssrc == requests(routes, items).0[j].ssrc
            &&& asks(items[i].1[e].0, items[i].1[e].1, out)
            &&& r.base matches Some(b) ==> at_or_after(out, b) || at_or_after(items[i].1[e].0, b)
        }),
    decreases items.len(),
{
    let front = items.drop_last();
    let (before, budget) = requests(routes, front);
    lemma_budget_left(routes, front);
    if j < before.len() {
        assert(requests(routes, items).0[j] == before[j]);
        let (i, e, r) = lemma_only_lost_packets_are_asked(routes, front, j, x);
        assert(front[i] == items[i]);
        (i, e, r)
    } else {
        let i = items.len() - 1;
        let r = route_of(routes, items[i].0)->0;
        let fci = items[i].1;
        let kept = at_most(translated(r, fci), budget);
        let m = choose|m: int| 0 <= m < kept.len() && #[trigger] asks(kept[m].0, kept[m].1, x);
        assert(kept[m] == translated(r, fci)[m]);
        let e = lemma_translated_from(r, fci, m);
        let out = x.wrapping_add(r.offset);
        assert(out.wrapping_sub(r.offset) == x);
        lemma_entry_in_terms(r, fci[e].0, fci[e].1, out);
        (i, e, r)
    }
}

/// A leg's remote is going to be asked for a packet: a NACK for it waits.
pub open spec fn will_ask(leg: Leg, ssrc: u32, x: u16) -> bool {
    exists|m: int|
        0 <= m < leg.nacks.len() && (#[trigger] leg.nacks[m]).0 == ssrc && any_asks(
            leg.nacks[m].1,
            x,
        )
}

proof fn lemma_numbers_asked(fci: Seq<(u16, u16)>, x: u16)
    ensures
        numbers(fci).contains(x) == any_asks(fci, x),
    decreases fci.len(),
{
    if fci.len() > 0 {
        let front = fci.drop_last();
        let last = low_numbers(fci.last().0, fci.last().1, 16);
        lemma_numbers_asked(front, x);
        lemma_numbers_of_entry(fci.last().0, fci.last().1, x);
        let all = numbers(front) + last;
        if any_asks(fci, x) {
            let i = choose|i: int| 0 <= i < fci.len() && #[trigger] asks(fci[i].0, fci[i].1, x);
            if i < front.len() {
                assert(front[i] == fci[i]);
                assert(asks(front[i].0, front[i].1, x));
                let m = choose|m: int| 0 <= m < numbers(front).len() && numbers(front)[m] == x;
                assert(all[m] == x);
            } else {
                let m = choose|m: int| 0 <= m < last.len() && last[m] == x;
                assert(all[numbers(front).len() + m] == x);
            }
        }
        if all.contains(x) {
            let m = choose|m: int| 0 <= m < all.len() && all[m] == x;
            if m < numbers(front).len() {
                assert(numbers(front)[m] == x);
                let i = choose|i: int|
                    0 <= i < front.len() && #[trigger] asks(front[i].0, front[i].1, x);
                assert(asks(fci[i].0, fci[i].1, x));
            } else {
                assert(last[m - numbers(front).len()] == x);
                let i = fci.len() - 1;
                assert(asks(fci[i].0, fci[i].1, x));
            }
        }
    }
}

proof fn lemma_other_ssrc_kept(
    ad: Admission,
    ssrc: u32,
    nums: Seq<u16>,
    now: u64,
    other: u32,
    x: u16,
)
    requires
        other != ssrc,
    ensures
        ({
            let after = ad.with_all(ssrc, nums, now).recent;
            let key = nack_key(other, x);
            after.contains_key(key) == ad.recent.contains_key(key) && after[key] == ad.recent[key]
        }),
    decreases nums.len(),
{
    if nums.len() > 0 {
        lemma_other_ssrc_kept(ad, ssrc, nums.drop_last(), now, other, x);
        assert(nack_key(other, x) != nack_key(ssrc, nums.last()));
    }
}

/// One request of a leg: a packet that may be asked for is going to be, or the
/// queue is full; one that it does not ask for may be asked for as before.
proof fn lemma_nacked(leg: Leg, ssrc: u32, fci: Seq<(u16, u16)>, now: u64, other: u32, x: u16)
    ensures
        ({
            let after = leg.nacked(ssrc, fci, now);
            &&& will_ask(leg, other, x) ==> will_ask(after, other, x)
            &&& leg.nacks.len() <= after.nacks.len()
            &&& may_ask(leg.recent, other, x, now) ==> (if other == ssrc && any_asks(fci, x) {
                will_ask(after, other, x) || after.nacks.len() >= 64
            } else {
                may_ask(after.recent, other, x, now)
            })
            &&& may_ask(leg.recent, other, x, now) && other == ssrc && any_asks(fci, x)
                && leg.nacks.len() < 64 ==> after.nack_wake
        }),
{
    let after = leg.nacked(ssrc, fci, now);
    let recent = purged(leg.recent, now);
    let start = Admission { recent, fci: Seq::empty() };
    let st = start.with_all(ssrc, numbers(fci), now);
    if will_ask(leg, other, x) {
        let m = choose|m: int|
            0 <= m < leg.nacks.len() && (#[trigger] leg.nacks[m]).0 == other && any_asks(
                leg.nacks[m].1,
                x,
            );
        assert(after.nacks[m] == leg.nacks[m]);
    }
    lemma_numbers_asked(fci, x);
    if may_ask(leg.recent, other, x, now) {
        assert(may_ask(recent, other, x, now));
        if other == ssrc {
            lemma_passes_exactly(recent, ssrc, numbers(fci), now, x);
            if any_asks(fci, x) {
                let i = choose|i: int|
                    0 <= i < st.fci.len() && #[trigger] asks(st.fci[i].0, st.fci[i].1, x);
                assert(st.fci.len() > 0);
                if leg.nacks.len() < NACK_QUEUE_DEPTH {
                    let m = leg.nacks.len() as int;
                    assert(after.nacks[m] == (ssrc, st.fci));
                    assert(will_ask(after, other, x));
                }
            }
        } else {
            lemma_other_ssrc_kept(start, ssrc, numbers(fci), now, other, x);
        }
    }
}

proof fn lemma_requested_is_asked(
    legs: Map<u64, Leg>,
    p: spec_fn(u64) -> bool,
    reqs: Seq<SourceReq>,
    now: u64,
    k: u64,
    ssrc: u32,
    x: u16,
)
    requires
        p(k),
        legs.contains_key(k),
        may_ask(legs[k].recent, ssrc, x, now),
    ensures
        ({
            let after = requested(legs, p, reqs, now);
            let asked = exists|j: int|
                0 <= j < reqs.len() && (#[trigger] reqs[j]).src == k && reqs[j].ssrc == ssrc
                    && any_asks(reqs[j].fci, x);
            &&& after.contains_key(k)
            &&& asked ==> will_ask(after[k], ssrc, x) || after[k].nacks.len() >= 64
            &&& !asked ==> may_ask(after[k].recent, ssrc, x, now)
        }),
    decreases reqs.len(),
{
    if reqs.len() > 0 {
        let front = reqs.drop_last();
        lemma_requested_is_asked(legs, p, front, now, k, ssrc, x);
        let before = requested(legs, p, front, now);
        let r = reqs.last();
        let earlier = exists|j: int|
            0 <= j < front.len() && (#[trigger] front[j]).src == k && front[j].ssrc == ssrc
                && any_asks(front[j].fci, x);
        let asked = exists|j: int|
            0 <= j < reqs.len() && (#[trigger] reqs[j]).src == k && reqs[j].ssrc == ssrc
                && any_asks(reqs[j].fci, x);
        let here = r.src == k && r.ssrc == ssrc && any_asks(r.fci, x);
        assert(asked == (earlier || here)) by {
            if earlier {
                let j = choose|j: int|
                    0 <= j < front.len() && (#[trigger] front[j]).src == k && front[j].ssrc == ssrc
                        && any_asks(front[j].fci, x);
                assert(reqs[j] == front[j]);
            }
            if here {
                assert(reqs[reqs.len() - 1] == r);
            }
            if asked {
                let j = choose|j: int|
                    0 <= j < reqs.len() && (#[trigger] reqs[j]).src == k && reqs[j].ssrc == ssrc
                        && any_asks(reqs[j].fci, x);
                if j < front.len() {
                    assert(front[j] == reqs[j]);
                }
            }
        }
        if p(r.src) && r.src == k {
            lemma_nacked(before[k], r.ssrc, r.fci, now, ssrc, x);
        }
    }
}

/// A packet that a receiver lost is asked of where it came from: after a compound
/// of NACKs, a NACK for it waits at the source leg, under the source's SSRC and
/// number, unless the source was asked for it within the last tenth of a second
/// or its queue of NACKs is full. The packet is asked for by an entry that fewer
/// than 32 stand before, on an SSRC that is routed to a peer, and it is not from
/// before the stream's base.
pub proof fn lemma_lost_packet_is_asked_of_its_source(
    hub: Hub,
    id: u64,
    items: Seq<(u32, Seq<(u16, u16)>)>,
    now: u64,
    i: int,
    e: int,
    r: OutRoute,
    out: u16,
)
    requires
        hub.legs.contains_key(id),
        hub.legs.contains_key(r.src),
        0 <= i < items.len(),
        0 <= e < items[i].1.len(),
        entries_in(items.take(i)) + e < 32,
        only_route(hub.legs[id].routes, items[i].0, r),
        hub.peers(id, r.src),
        asks(items[i].1[e].0, items[i].1[e].1, out),
        r.base matches Some(b) ==> at_or_after(out, b),
        ({
            let key = nack_key(r.src_ssrc, out.wrapping_sub(r.offset));
            let recent = hub.legs[r.src].recent;
            recent.contains_key(key) ==> recent[key] + 100_000_000 <= now
        }),
    ensures
        ({
            let after = hub.nacks_relayed(id, items, now).legs[r.src];
            will_ask(after, r.src_ssrc, out.wrapping_sub(r.offset)) || after.nacks.len() >= 64
        }),
{
    let routes = hub.legs[id].routes;
    let reqs = requests(routes, items).0;
    let x = out.wrapping_sub(r.offset);
    lemma_no_lost_packet_is_left_out(routes, items, i, e, r, out);
    let j = choose|j: int|
        0 <= j < reqs.len() && (#[trigger] reqs[j]).src == r.src && reqs[j].ssrc == r.src_ssrc
            && any_asks(reqs[j].fci, x);
    assert(reqs[j].src == r.src);
    lemma_requested_is_asked(
        hub.legs,
        |k: u64| hub.peers(id, k),
        reqs,
        now,
        r.src,
        r.src_ssrc,
        x,
    );
}

/// Every request that joins a leg's queue wakes its send task.
pub proof fn lemma_queued_nack_wakes(leg: Leg, ssrc: u32, fci: Seq<(u16, u16)>, now: u64)
    ensures
        ({
            let after = leg.nacked(ssrc, fci, now);
            &&& after.nacks != leg.nacks ==> after.nack_wake
            &&& leg.nack_wake ==> after.nack_wake
            &&& after.nacks.len() <= leg.nacks.len() + 1
            &&& after == (Leg {
                nacks: after.nacks,
                nack_wake: after.nack_wake,
                recent: after.recent,
                ..leg
            })
        }),
{
}

/// A source is not asked twice within a tenth of a second: a packet that a
/// request had queued is in no request that is queued in that time, whoever asks
/// for it, while no more than 4096 requests are remembered.
pub proof fn lemma_source_is_asked_once(
    leg: Leg,
    ssrc: u32,
    first: Seq<(u16, u16)>,
    now: u64,
    second: Seq<(u16, u16)>,
    later: u64,
    x: u16,
)
    requires
        now <= later < now + 100_000_000,
        leg.nacked(ssrc, first, now).recent.len() <= 4096,
        leg.nacks.len() < leg.nacked(ssrc, first, now).nacks.len(),
        any_asks(leg.nacked(ssrc, first, now).nacks.last().1, x),
    ensures
        ({
            let once = leg.nacked(ssrc, first, now);
            let twice = once.nacked(ssrc, second, later);
            twice.nacks.len() > once.nacks.len() ==> !any_asks(twice.nacks.last().1, x)
        }),
{
    let once = leg.nacked(ssrc, first, now);
    lemma_passes_exactly(purged(leg.recent, now), ssrc, numbers(first), now, x);
    lemma_passes_exactly(once.recent, ssrc, numbers(second), later, x);
}

} // verus!
