//! What the send task of a leg does next.
use vstd::prelude::*;

use crate::relay::hub::Hub;
use crate::relay::hub::RelayHub;
use crate::relay::leg::{req_views, Frame, Leg};
use crate::relay::leg::RelayFrame;
use crate::relay::nack::NackReq;
use crate::relay::pli::PliLimiter;

verus! {

/// What the send task of a leg does next.
pub enum Step {
    /// The leg is gone: the task ends.
    Gone,
    /// Ask the remote for a keyframe.
    Pli,
    /// Ask the remote for packets again.
    Nacks(Vec<NackReq>),
    /// Forward a frame.
    Frame(RelayFrame),
    /// There is nothing to do.
    Wait,
}

/// A `Step` by what it holds.
pub enum Next {
    Gone,
    Pli,
    Nacks(Seq<(u32, Seq<(u16, u16)>)>),
    Frame(Frame),
    Wait,
}

impl View for Step {
    type V = Next;

    open spec fn view(&self) -> Next {
        match *self {
            Step::Gone => Next::Gone,
            Step::Pli => Next::Pli,
            Step::Nacks(reqs) => Next::Nacks(req_views(reqs@)),
            Step::Frame(f) => Next::Frame(f@),
            Step::Wait => Next::Wait,
        }
    }
}

/// The next step of a leg at `now`, and the leg and its limiter then. Keyframe
/// requests go before NACKs, and both before media. A keyframe that is asked
/// for is taken, whether it is requested at once or put off; the NACKs are
/// taken all at once, and the frames one by one.
pub open spec fn leg_step(leg: Leg, limiter: PliLimiter, now: u64) -> (Leg, PliLimiter, Next) {
    let l1 = Leg { pli: false, ..leg };
    let (asked, at_once) = limiter.asked(now);
    let p1 = if leg.pli {
        asked
    } else {
        limiter
    };
    let (p2, put_off) = p1.reached(now);
    if leg.pli && at_once {
        (l1, p1, Next::Pli)
    } else if put_off {
        (l1, p2, Next::Pli)
    } else if leg.nack_wake {
        (Leg { nacks: Seq::empty(), nack_wake: false, ..l1 }, p2, Next::Nacks(leg.nacks))
    } else if leg.queue.len() > 0 {
        (Leg { queue: leg.queue.drop_first(), ..l1 }, p2, Next::Frame(leg.queue[0]))
    } else {
        (l1, p2, Next::Wait)
    }
}

/// `leg_step` of a leg of a hub.
pub open spec fn hub_step(hub: Hub, own: u64, limiter: PliLimiter, now: u64) -> (
    Hub,
    PliLimiter,
    Next,
) {
    if hub.legs.contains_key(own) {
        let (leg, l, next) = leg_step(hub.legs[own], limiter, now);
        (hub.with_leg(own, leg), l, next)
    } else {
        (hub, limiter, Next::Gone)
    }
}

/// The next step of the send task of a leg.
pub fn next_step(hub: &mut RelayHub, own: u64, limiter: &mut PliLimiter, now: u64) -> (r: Step)
    requires
        old(hub)@.inv(),
    ensures
        (final(hub)@, *final(limiter), r@) == hub_step(old(hub)@, own, *old(limiter), now),
        r matches Step::Frame(f) ==> f.pkt.inv(),
        old(limiter).inv() ==> final(limiter).inv(),
        final(hub)@.inv(),
{
    let ghost before = hub@;
    if hub.leg(own).is_none() {
        return Step::Gone;
    }
    let ghost leg = before.legs[own];
    let asked = hub.take_pli(own);
    let ghost calm = Leg { pli: false, ..leg };
    if asked && limiter.on_request(now) {
        return Step::Pli;
    }
    if limiter.on_deadline(now) {
        return Step::Pli;
    }
    let pending = match hub.leg(own) {
        Some(l) => l.nack_pending(),
        None => false,
    };
    if pending {
        let reqs = hub.take_nacks(own);
        assert(hub@.legs =~= before.legs.insert(
            own,
            Leg { nacks: Seq::empty(), nack_wake: false, ..calm },
        ));
        return Step::Nacks(reqs);
    }
    match hub.take_frame(own) {
        Some(f) => {
            assert(hub@.legs =~= before.legs.insert(
                own,
                Leg { queue: leg.queue.drop_first(), ..calm },
            ));
            Step::Frame(f)
        },
        None => Step::Wait,
    }
}

/// A keyframe that is asked for is requested now or put off, never dropped, and
/// no NACK or frame is lost by a step: what is not handed out stays.
pub proof fn lemma_step_loses_nothing(leg: Leg, limiter: PliLimiter, now: u64)
    ensures
        ({
            let (after, l, next) = leg_step(leg, limiter, now);
            &&& leg.pli ==> next is Pli || l.deadline is Some
            &&& limiter.deadline is Some ==> next is Pli || l.deadline is Some
            &&& match next {
                Next::Nacks(reqs) => reqs == leg.nacks && after.queue == leg.queue,
                Next::Frame(f) => leg.queue == seq![f] + after.queue && after.nacks == leg.nacks,
                _ => after.nacks == leg.nacks && after.queue == leg.queue,
            }
        }),
{
    if leg.queue.len() > 0 {
        assert(leg.queue =~= seq![leg.queue[0]] + leg.queue.drop_first());
    }
}

} // verus!
