//! When a leg asks its remote for a keyframe.
use vstd::prelude::*;

verus! {

/// The least time, in nanoseconds, between keyframe requests to a remote.
pub const PLI_MIN_INTERVAL: u64 = 300_000_000;

/// Spaces out the keyframe requests to a remote. A request inside the interval
/// is put off to its end, not dropped, and only a request that was sent starts
/// an interval. What is sent serves all that was put off.
pub struct PliLimiter {
    /// When a request was last sent.
    pub last: Option<u64>,
    /// When a request that was put off is due.
    pub deadline: Option<u64>,
}

impl Default for PliLimiter {
    /// Nothing was sent, nothing put off.
    fn default() -> (r: Self)
        ensures
            r.last is None,
            r.deadline is None,
            r.inv(),
    {
        PliLimiter { last: None, deadline: None }
    }
}

impl PliLimiter {
    /// What holds of every limiter: what is put off is due at the end of the
    /// interval.
    pub open spec fn inv(self) -> bool {
        self.deadline matches Some(d) ==> self.last is Some && d == self.interval_end()
    }

    /// A request at `now` falls inside the interval of the last one that was
    /// sent.
    pub open spec fn too_soon(self, now: u64) -> bool {
        self.last matches Some(t) && now - t < PLI_MIN_INTERVAL
    }

    /// The end of the interval.
    pub open spec fn interval_end(self) -> u64 {
        if self.last->0 + PLI_MIN_INTERVAL <= u64::MAX {
            (self.last->0 + PLI_MIN_INTERVAL) as u64
        } else {
            u64::MAX
        }
    }

    /// A keyframe is asked for at `now`: the limiter then, and whether the
    /// request is sent at once. One that is not is put off.
    pub open spec fn asked(self, now: u64) -> (PliLimiter, bool) {
        if !self.too_soon(now) {
            (self, true)
        } else if self.deadline is Some {
            (self, false)
        } else {
            (PliLimiter { deadline: Some(self.interval_end()), ..self }, false)
        }
    }

    /// The time is `now`: the limiter then, and whether a request that was put
    /// off is sent.
    pub open spec fn reached(self, now: u64) -> (PliLimiter, bool) {
        if self.deadline matches Some(d) && now >= d && !self.too_soon(now) {
            (PliLimiter { deadline: None, ..self }, true)
        } else {
            (self, false)
        }
    }

    /// A request was sent at `now`: it serves what was put off.
    pub open spec fn sent(self, now: u64) -> PliLimiter {
        PliLimiter { last: Some(now), deadline: None }
    }

    /// A keyframe is asked for at `now`: is the request to be sent at once?
    pub fn on_request(&mut self, now: u64) -> (send: bool)
        ensures
            (*final(self), send) == old(self).asked(now),
            send == !old(self).too_soon(now),
            old(self).inv() ==> final(self).inv(),
    {
        if let Some(t) = self.last {
            if now < t || now - t < PLI_MIN_INTERVAL {
                if self.deadline.is_none() {
                    self.deadline = Some(t.saturating_add(PLI_MIN_INTERVAL));
                }
                return false;
            }
        }
        true
    }

    /// Is a request that was put off to be sent at `now`?
    pub fn on_deadline(&mut self, now: u64) -> (send: bool)
        ensures
            (*final(self), send) == old(self).reached(now),
            send ==> !old(self).too_soon(now),
            old(self).inv() ==> final(self).inv(),
    {
        let due = match self.deadline {
            Some(d) => now >= d,
            None => false,
        };
        let soon = match self.last {
            Some(t) => now < t || now - t < PLI_MIN_INTERVAL,
            None => false,
        };
        if due && !soon {
            self.deadline = None;
            return true;
        }
        false
    }

    /// A request was sent at `now`.
    pub fn on_sent(&mut self, now: u64)
        ensures
            *final(self) == old(self).sent(now),
            final(self).deadline is None,
            final(self).inv(),
    {
        self.last = Some(now);
        self.deadline = None;
    }
}

/// What a limiter meets, at a time.
pub enum PliEvent {
    /// A keyframe is asked for.
    Asked(u64),
    /// It is looked whether a request that was put off is due.
    Reached(u64),
}

impl PliEvent {
    /// When it happens.
    pub open spec fn at(self) -> u64 {
        match self {
            PliEvent::Asked(t) => t,
            PliEvent::Reached(t) => t,
        }
    }
}

/// The limiter after an event, and whether a request was sent.
pub open spec fn met(l: PliLimiter, e: PliEvent) -> (PliLimiter, bool) {
    let (next, send) = match e {
        PliEvent::Asked(t) => l.asked(t),
        PliEvent::Reached(t) => l.reached(t),
    };
    if send {
        (next.sent(e.at()), true)
    } else {
        (next, false)
    }
}

/// The limiter after a schedule, where all that is to be sent is, and the times
/// of the requests that were sent.
pub open spec fn scheduled(l: PliLimiter, events: Seq<PliEvent>) -> (PliLimiter, Seq<u64>)
    decreases events.len(),
{
    if events.len() == 0 {
        (l, Seq::empty())
    } else {
        let (before, times) = scheduled(l, events.drop_last());
        let (after, sent) = met(before, events.last());
        (
            after,
            if sent {
                times.push(events.last().at())
            } else {
                times
            },
        )
    }
}

/// The events come in the order of their times, none before what was sent, and
/// none within an interval of the end of time.
pub open spec fn in_order(l: PliLimiter, events: Seq<PliEvent>) -> bool {
    &&& forall|i: int, j: int|
        0 <= i <= j < events.len() ==> (#[trigger] events[i]).at() <= (#[trigger] events[j]).at()
    &&& forall|i: int|
        0 <= i < events.len() ==> (#[trigger] events[i]).at() <= u64::MAX - PLI_MIN_INTERVAL
    &&& l.last matches Some(t) ==> forall|i: int|
        0 <= i < events.len() ==> t <= (#[trigger] events[i]).at()
}

proof fn lemma_front_in_order(l: PliLimiter, events: Seq<PliEvent>)
    requires
        in_order(l, events),
        events.len() > 0,
    ensures
        in_order(l, events.drop_last()),
{
    let front = events.drop_last();
    assert forall|i: int| 0 <= i < front.len() implies #[trigger] front[i] == events[i] by {}
}

/// The last request that was sent is the one that starts the interval.
proof fn lemma_last_sent(l: PliLimiter, events: Seq<PliEvent>)
    requires
        l.inv(),
        in_order(l, events),
        l.last matches Some(t) ==> t <= u64::MAX - PLI_MIN_INTERVAL,
    ensures
        ({
            let (after, times) = scheduled(l, events);
            &&& after.inv()
            &&& after.last == if times.len() > 0 {
                Some(times.last())
            } else {
                l.last
            }
            &&& after.last matches Some(t) ==> t <= u64::MAX - PLI_MIN_INTERVAL
            &&& events.len() > 0 ==> (after.last matches Some(t) ==> t <= events.last().at())
        }),
    decreases events.len(),
{
    if events.len() > 0 {
        lemma_front_in_order(l, events);
        lemma_last_sent(l, events.drop_last());
        let n = events.len() - 1;
        assert(events.last() == events[n]);
        if n > 0 {
            assert(events.drop_last().last() == events[n - 1]);
            assert(events[n - 1].at() <= events[n].at());
        }
    }
}

/// Keyframe requests are spaced: over any schedule, each one that is sent comes
/// at least an interval after the one before it.
pub proof fn lemma_requests_are_spaced(l: PliLimiter, events: Seq<PliEvent>)
    requires
        l.inv(),
        in_order(l, events),
        l.last matches Some(t) ==> t <= u64::MAX - PLI_MIN_INTERVAL,
    ensures
        ({
            let times = scheduled(l, events).1;
            &&& forall|k: int|
                0 < k < times.len() ==> times[k - 1] + PLI_MIN_INTERVAL <= #[trigger] times[k]
            &&& l.last is Some && times.len() > 0 ==> l.last->0 + PLI_MIN_INTERVAL <= times[0]
        }),
    decreases events.len(),
{
    if events.len() > 0 {
        let front = events.drop_last();
        lemma_front_in_order(l, events);
        lemma_requests_are_spaced(l, front);
        lemma_last_sent(l, front);
        let (before, earlier) = scheduled(l, front);
        let times = scheduled(l, events).1;
        assert(met(before, events.last()).1 ==> !before.too_soon(events.last().at()));
        assert forall|k: int| 0 < k < times.len() implies times[k - 1] + PLI_MIN_INTERVAL
            <= #[trigger] times[k] by {
            if k < earlier.len() {
                assert(times[k] == earlier[k]);
            }
        }
    }
}

/// No request is lost: over any schedule, each is served by one that is sent at
/// its time or later, or is put off to a time that comes within an interval.
pub proof fn lemma_no_request_is_lost(l: PliLimiter, events: Seq<PliEvent>, i: int)
    requires
        l.inv(),
        in_order(l, events),
        l.last matches Some(t) ==> t <= u64::MAX - PLI_MIN_INTERVAL,
        0 <= i < events.len(),
        events[i] is Asked,
    ensures
        ({
            let (after, times) = scheduled(l, events);
            ||| exists|k: int| 0 <= k < times.len() && #[trigger] times[k] >= events[i].at()
            ||| after.deadline matches Some(d) && d <= events[i].at() + PLI_MIN_INTERVAL
        }),
    decreases events.len(),
{
    let front = events.drop_last();
    let n = events.len() - 1;
    lemma_front_in_order(l, events);
    lemma_last_sent(l, front);
    let (before, earlier) = scheduled(l, front);
    let times = scheduled(l, events).1;
    assert(events.last() == events[n]);
    assert(events[i].at() <= events[n].at());
    if met(before, events.last()).1 {
        assert(times[times.len() - 1] >= events[i].at());
    } else if i < n {
        lemma_no_request_is_lost(l, front, i);
        assert(front[i] == events[i]);
        if exists|k: int| 0 <= k < earlier.len() && #[trigger] earlier[k] >= events[i].at() {
            let k = choose|k: int|
                0 <= k < earlier.len() && #[trigger] earlier[k] >= events[i].at();
            assert(times[k] >= events[i].at());
        }
    } else if n > 0 {
        assert(front.last() == events[n - 1]);
        assert(events[n - 1].at() <= events[n].at());
    }
}

/// What was put off is sent as soon as it is looked for at its time or later.
pub proof fn lemma_put_off_is_sent(l: PliLimiter, now: u64)
    requires
        l.inv(),
        l.last matches Some(t) ==> t <= u64::MAX - PLI_MIN_INTERVAL,
        l.deadline matches Some(d) && now >= d,
    ensures
        l.reached(now).1,
{
}

} // verus!
