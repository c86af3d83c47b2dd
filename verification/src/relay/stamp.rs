//! The outbound identity of a forwarded packet.
use vstd::prelude::*;

use crate::relay::hub::Hub;
use crate::relay::hub::RelayHub;
use crate::relay::leg::Leg;
use crate::relay::leg::{has_id, RelayShared};
use crate::relay::outbound::{routes_of, Out};
use crate::relay::outbound::{Outbound, MAX_SOURCES};
use crate::relay::outbound_laws::{lemma_stamp_keeps_inv, lemma_with_source, lemma_without_all};

verus! {

/// A leg's outbound state, the leg, and the SSRC and sequence number that a
/// packet goes out under.
pub struct Stamped {
    pub out: Out,
    pub leg: Leg,
    pub stamp: Option<(u32, u16)>,
}

/// The leg publishes how its outbound streams map back.
pub open spec fn published(leg: Leg, out: Out) -> Leg {
    Leg { routes: routes_of(out.sources), ..leg }
}

/// Retired sources are looked for: when there are new ones, or the source has
/// no state.
pub open spec fn reaps(out: Out, leg: Leg, src: u64) -> bool {
    leg.retire_pending || out.index_of(src) is None
}

/// After retired sources were looked for. What is published follows, where it
/// changed and the source itself is there.
pub open spec fn reaped(out: Out, leg: Leg, src: u64) -> (Out, Leg) {
    if reaps(out, leg, src) {
        let after = out.without_all(leg.retired);
        let quiet = Leg { retired: Seq::empty(), retire_pending: false, ..leg };
        (
            after,
            if after.sources.len() != out.sources.len() && after.index_of(src) is Some {
                published(quiet, after)
            } else {
                quiet
            },
        )
    } else {
        (out, leg)
    }
}

/// The outbound identity of a packet of source `src` (a member of the group or
/// not) under `src_ssrc`, that goes out under payload type `pt`. Sources that
/// left are reaped first. A source without state gets some only as a member
/// that did not just leave. What is published follows every change of it.
pub open spec fn stamped(
    out: Out,
    leg: Leg,
    member: bool,
    src: u64,
    src_ssrc: u32,
    src_seq: u16,
    pt: u8,
    now: u64,
) -> Stamped {
    let (o1, l1) = reaped(out, leg, src);
    if o1.index_of(src) is None && (!member || (reaps(out, leg, src) && leg.retired.contains(
        src,
    ))) {
        Stamped { out: o1, leg: published(l1, o1), stamp: None }
    } else {
        let (o2, i) = match o1.index_of(src) {
            Some(i) => (o1, i),
            None => (
                o1.with_source(src),
                crate::relay::outbound::rank(o1.sources, src),
            ),
        };
        let (o3, at, fresh) = o2.streamed(i, src_ssrc, now);
        let t = o3.sources[i].streams[at];
        let m = t.seq.mapped(src_seq);
        let o4 = o3.forwarded(i, at, src_seq, pt, now);
        Stamped {
            out: o4,
            leg: if fresh || t.pt != Some(pt) || m.offset != t.seq.offset || m.base != t.seq.base {
                published(l1, o4)
            } else {
                l1
            },
            stamp: Some((t.ssrc, t.seq.outbound(src_seq))),
        }
    }
}

impl Outbound {
    /// Outbound SSRC and sequence number for a packet from `src` under its
    /// `src_ssrc`, going out under payload type `pt` at `now`; `None` to drop
    /// it (a straggler from a source leg that has left). `member` says whether
    /// the source is in the group. The leg is told the stream map whenever it
    /// changes.
    pub fn stamp_leg(
        &mut self,
        shared: &mut RelayShared,
        member: bool,
        src: u64,
        src_ssrc: u32,
        src_seq: u16,
        pt: u8,
        now: u64,
    ) -> (r: Option<(u32, u16)>)
        requires
            old(self)@.inv(),
            old(self)@.sources.len() < MAX_SOURCES,
        ensures
            ({
                let s = stamped(
                    old(self)@,
                    old(shared)@,
                    member,
                    src,
                    src_ssrc,
                    src_seq,
                    pt,
                    now,
                );
                &&& final(self)@ == s.out
                &&& final(shared)@ == s.leg
                &&& r == s.stamp
            }),
            final(self)@.inv(),
            final(self)@.sources.len() <= old(self)@.sources.len() + 1,
    {
        let ghost out = self@;
        let ghost leg = shared@;
        proof {
            lemma_stamp_keeps_inv(out, leg, member, src, src_ssrc, src_seq, pt, now);
            lemma_without_all(out, leg.retired);
        }
        let mut gone = false;
        let pending = shared.take_retire_pending();
        if pending || !self.knows(src) {
            let retired = shared.take_retired();
            gone = has_id(&retired, src);
            let changed = self.reap(&retired);
            if changed && self.knows(src) {
                shared.set_out_routes(self.routes());
            }
        }
        assert((self@, shared@) == reaped(out, leg, src));
        let i: usize = match self.find_source(src) {
            Some(i) => i,
            None => {
                // Only a current member may be given outbound state: of a
                // straggler, the source may be reaped already.
                if gone || !member {
                    shared.set_out_routes(self.routes());
                    return None;
                }
                proof {
                    lemma_with_source(self@, src);
                }
                self.add_source(src)
            },
        };
        let (at, fresh) = self.stream_for(i, src_ssrc, now);
        let (stamp, changed) = self.forward_on(i, at, src_seq, pt, now);
        if fresh || changed {
            shared.set_out_routes(self.routes());
        }
        Some(stamp)
    }

    /// `stamp_leg` for a leg of a hub.
    pub fn stamp(
        &mut self,
        hub: &mut RelayHub,
        id: u64,
        src: u64,
        src_ssrc: u32,
        src_seq: u16,
        pt: u8,
        now: u64,
    ) -> (r: Option<(u32, u16)>)
        requires
            old(self)@.inv(),
            old(self)@.sources.len() < MAX_SOURCES,
            old(hub)@.inv(),
            old(hub)@.legs.contains_key(id),
        ensures
            ({
                let s = stamped(
                    old(self)@,
                    old(hub)@.legs[id],
                    old(hub)@.members_of(id).contains(src),
                    src,
                    src_ssrc,
                    src_seq,
                    pt,
                    now,
                );
                &&& final(self)@ == s.out
                &&& final(hub)@ == (Hub { legs: old(hub)@.legs.insert(id, s.leg), ..old(hub)@ })
                &&& r == s.stamp
            }),
            final(self)@.inv(),
            final(self)@.sources.len() <= old(self)@.sources.len() + 1,
            final(hub)@.inv(),
    {
        let member = hub.has_member(id, src);
        match hub.take(id) {
            Some(mut leg) => {
                let r = self.stamp_leg(&mut leg, member, src, src_ssrc, src_seq, pt, now);
                let ghost after = leg@;
                hub.put(id, leg);
                assert(hub@.legs =~= old(hub)@.legs.insert(id, after));
                r
            },
            None => None,
        }
    }
}

} // verus!
