//! One leg of a hub at a time: what its send task takes from it, and what the
//! signalling of its channel sets.
use vstd::prelude::*;

use crate::relay::hub::{lemma_left_is_ungrouped, Hub};
use crate::relay::hub::RelayHub;
use crate::relay::leg::{req_views, Leg};
use crate::relay::leg::RelayFrame;
use crate::relay::nack::NackReq;
use crate::relay::outbound::OutRoute;
use crate::relay::pt_map::PtMap;

verus! {

impl Hub {
    /// A leg is this.
    pub open spec fn with_leg(self, id: u64, leg: Leg) -> Hub {
        Hub { legs: self.legs.insert(id, leg), ..self }
    }
}

impl RelayHub {
    /// Takes the next frame for the send task of a leg.
    pub fn take_frame(&mut self, id: u64) -> (r: Option<RelayFrame>)
        requires
            old(self)@.inv(),
            old(self)@.legs.contains_key(id),
        ensures
            ({
                let leg = old(self)@.legs[id];
                match r {
                    Some(f) => {
                        &&& leg.queue.len() > 0
                        &&& f@ == leg.queue[0]
                        &&& f.pkt.inv()
                        &&& final(self)@ == old(self)@.with_leg(
                            id,
                            Leg { queue: leg.queue.drop_first(), ..leg },
                        )
                    },
                    None => leg.queue.len() == 0 && final(self)@ == old(self)@,
                }
            }),
            final(self)@.inv(),
    {
        match self.take(id) {
            Some(mut leg) => {
                let r = leg.take_frame();
                let ghost after = leg@;
                self.put(id, leg);
                assert(self@.legs =~= old(self)@.legs.insert(id, after));
                assert(r is None ==> self@.legs =~= old(self)@.legs);
                r
            },
            None => None,
        }
    }

    /// Takes the request for a keyframe of a leg's remote.
    pub fn take_pli(&mut self, id: u64) -> (r: bool)
        requires
            old(self)@.inv(),
            old(self)@.legs.contains_key(id),
        ensures
            r == old(self)@.legs[id].pli,
            final(self)@ == old(self)@.with_leg(id, Leg { pli: false, ..old(self)@.legs[id] }),
            final(self)@.inv(),
    {
        match self.take(id) {
            Some(mut leg) => {
                let r = leg.take_pli();
                let ghost after = leg@;
                self.put(id, leg);
                assert(self@.legs =~= old(self)@.legs.insert(id, after));
                r
            },
            None => false,
        }
    }

    /// Takes the NACKs for a leg's remote.
    pub fn take_nacks(&mut self, id: u64) -> (r: Vec<NackReq>)
        requires
            old(self)@.inv(),
            old(self)@.legs.contains_key(id),
        ensures
            req_views(r@) == old(self)@.legs[id].nacks,
            final(self)@ == old(self)@.with_leg(
                id,
                Leg { nacks: Seq::empty(), nack_wake: false, ..old(self)@.legs[id] },
            ),
            final(self)@.inv(),
    {
        match self.take(id) {
            Some(mut leg) => {
                let r = leg.take_nacks();
                let ghost after = leg@;
                self.put(id, leg);
                assert(self@.legs =~= old(self)@.legs.insert(id, after));
                r
            },
            None => Vec::new(),
        }
    }

    /// Sets the payload types of a leg.
    pub fn set_pts(&mut self, id: u64, pts: PtMap)
        requires
            old(self)@.inv(),
            old(self)@.legs.contains_key(id),
        ensures
            final(self)@ == old(self)@.with_leg(id, Leg { pts: pts@, ..old(self)@.legs[id] }),
            final(self)@.inv(),
    {
        if let Some(mut leg) = self.take(id) {
            leg.set_pts(pts);
            let ghost after = leg@;
            self.put(id, leg);
            assert(self@.legs =~= old(self)@.legs.insert(id, after));
        }
    }

    /// Sets whether a leg negotiated DTLS-SRTP.
    pub fn set_secure(&mut self, id: u64, secure: bool)
        requires
            old(self)@.inv(),
            old(self)@.legs.contains_key(id),
        ensures
            final(self)@ == old(self)@.with_leg(id, Leg { secure, ..old(self)@.legs[id] }),
            final(self)@.inv(),
    {
        if let Some(mut leg) = self.take(id) {
            leg.set_secure(secure);
            let ghost after = leg@;
            self.put(id, leg);
            assert(self@.legs =~= old(self)@.legs.insert(id, after));
        }
    }

    /// Sets how the outbound streams of a leg map back.
    pub fn set_out_routes(&mut self, id: u64, routes: Vec<OutRoute>)
        requires
            old(self)@.inv(),
            old(self)@.legs.contains_key(id),
        ensures
            final(self)@ == old(self)@.with_leg(
                id,
                Leg { routes: routes@, ..old(self)@.legs[id] },
            ),
            final(self)@.inv(),
    {
        if let Some(mut leg) = self.take(id) {
            leg.set_out_routes(routes);
            let ghost after = leg@;
            self.put(id, leg);
            assert(self@.legs =~= old(self)@.legs.insert(id, after));
        }
    }

    /// Closes a leg: it leaves its group, and is gone.
    pub fn close_leg(&mut self, id: u64)
        requires
            old(self)@.inv(),
        ensures
            final(self)@.groups == old(self)@.left(id).groups,
            final(self)@.legs == old(self)@.left(id).legs.remove(id),
            final(self)@.inv(),
    {
        let ghost before = self@;
        self.leave_group(id);
        let ghost left = self@;
        let _ = self.take(id);
        proof {
            lemma_left_is_ungrouped(before, id);
            assert(self@.legs =~= left.legs.remove(id));
            assert forall|g: int, i: int|
                0 <= g < self@.groups.len() && 0 <= i
                    < self@.groups[g].len() implies self@.legs.contains_key(
                #[trigger] self@.groups[g][i],
            ) by {
                assert(left.legs.contains_key(left.groups[g][i]));
                assert(left.groups[g].contains(left.groups[g][i]));
            }
        }
    }
}

} // verus!
