//! The relay legs and their groups.
//!
//! Groups follow the audio mix: `join` puts two legs in one group, a later
//! `join` extends it, legs of different groups are not joined, and
//! `leave_group` takes a leg out, so that nobody forwards to or from it.
use vstd::prelude::*;
use std::collections::HashMap;

use crate::relay::leg::{Frame, Leg};
use crate::relay::leg::{has_id, RelayCounters, RelayFrame, RelayShared};
use crate::rtp::{copy_packet, RtpPacket};

verus! {

broadcast use vstd::std_specs::hash::group_hash_axioms;

/// All relay legs, and the groups that they are in.
pub struct RelayHub {
    legs: HashMap<u64, RelayShared>,
    groups: Vec<Vec<u64>>,
}

/// The state of a `RelayHub`.
pub struct Hub {
    /// The legs by their ids.
    pub legs: Map<u64, Leg>,
    /// The members of each group, in the order in which they joined.
    pub groups: Seq<Seq<u64>>,
}

/// Groups by their members.
pub open spec fn group_views(v: Seq<Vec<u64>>) -> Seq<Seq<u64>> {
    v.map_values(|g: Vec<u64>| g@)
}

impl View for RelayHub {
    type V = Hub;

    closed spec fn view(&self) -> Hub {
        Hub {
            legs: self.legs@.map_values(|l: RelayShared| l@),
            groups: group_views(self.groups@),
        }
    }
}

/// Legs of which those that `p` picks are changed by `f`.
pub open spec fn changed(
    legs: Map<u64, Leg>,
    p: spec_fn(u64) -> bool,
    f: spec_fn(Leg) -> Leg,
) -> Map<u64, Leg> {
    Map::new(
        |k: u64| legs.contains_key(k),
        |k: u64|
            if p(k) {
                f(legs[k])
            } else {
                legs[k]
            },
    )
}

/// The first group from `at` on that a leg is in.
pub open spec fn first_group(groups: Seq<Seq<u64>>, id: u64, at: int) -> Option<int>
    decreases groups.len() - at,
{
    if at >= groups.len() {
        None
    } else if groups[at].contains(id) {
        Some(at)
    } else {
        first_group(groups, id, at + 1)
    }
}

/// The position of an id in a list, from `at` on.
pub open spec fn first_id(ids: Seq<u64>, id: u64, at: int) -> int
    decreases ids.len() - at,
{
    if at >= ids.len() || ids[at] == id {
        at
    } else {
        first_id(ids, id, at + 1)
    }
}

/// A list without an id that stands in it once.
pub open spec fn without_id(ids: Seq<u64>, id: u64) -> Seq<u64> {
    ids.remove(first_id(ids, id, 0))
}

impl Hub {
    /// What holds of every hub: a leg is under its own id; groups have members,
    /// which are legs, and no leg is in two groups or twice in one.
    pub open spec fn inv(self) -> bool {
        &&& forall|id: u64| #[trigger]
            self.legs.contains_key(id) ==> self.legs[id].id == id && self.legs[id].inv()
        &&& forall|g: int| 0 <= g < self.groups.len() ==> (#[trigger] self.groups[g]).len() > 0
        &&& forall|g: int, i: int|
            0 <= g < self.groups.len() && 0 <= i < self.groups[g].len() ==> self.legs.contains_key(
                #[trigger] self.groups[g][i],
            )
        &&& forall|g: int, i: int, h: int, j: int|
            0 <= g < self.groups.len() && 0 <= i < self.groups[g].len() && 0 <= h
                < self.groups.len() && 0 <= j < self.groups[h].len() && #[trigger] self.groups[g][i]
                == #[trigger] self.groups[h][j] ==> g == h && i == j
    }

    /// The counters of a leg are these.
    pub open spec fn with_counters(self, id: u64, counters: RelayCounters) -> Hub {
        Hub { legs: self.legs.insert(id, Leg { counters, ..self.legs[id] }), ..self }
    }

    /// A leg counts a muxed RTCP datagram.
    pub open spec fn rtcp_counted(self, id: u64, keyed: bool, ok: bool) -> Hub {
        Hub { legs: self.legs.insert(id, self.legs[id].rtcp_counted(keyed, ok)), ..self }
    }

    /// The group that a leg is in.
    pub open spec fn group_of(self, id: u64) -> Option<int> {
        first_group(self.groups, id, 0)
    }

    /// The members of a leg's group, or none.
    pub open spec fn members_of(self, id: u64) -> Seq<u64> {
        match self.group_of(id) {
            Some(g) => self.groups[g],
            None => Seq::empty(),
        }
    }

    /// Another leg is in the same group.
    pub open spec fn peers(self, id: u64, other: u64) -> bool {
        other != id && self.members_of(id).contains(other)
    }

    /// A packet of a leg is handed to its peers.
    pub open spec fn fanned(self, id: u64, pkt: Seq<u8>) -> Hub {
        Hub {
            legs: changed(
                self.legs,
                |k: u64| self.peers(id, k),
                |l: Leg| l.delivered(Frame { src: id, pts: self.legs[id].pts, pkt }),
            ),
            ..self
        }
    }

    /// A leg leaves its group: the others hear that it is gone, and it hears
    /// that they are.
    pub open spec fn left(self, id: u64) -> Hub {
        match self.group_of(id) {
            Some(g) => {
                let rest = without_id(self.groups[g], id);
                Hub {
                    groups: if rest.len() == 0 {
                        self.groups.remove(g)
                    } else {
                        self.groups.update(g, rest)
                    },
                    legs: changed(
                        changed(
                            self.legs,
                            |k: u64| rest.contains(k),
                            |l: Leg| l.retiring(seq![id]),
                        ),
                        |k: u64| k == id,
                        |l: Leg| l.retiring(rest),
                    ),
                }
            },
            None => self,
        }
    }

    /// Two legs are in one group: what the groups are then, and which of them
    /// it is; `None` when the legs are in different groups.
    pub open spec fn grouped(self, lo: u64, hi: u64) -> Option<(Seq<Seq<u64>>, int)> {
        match (self.group_of(lo), self.group_of(hi)) {
            (None, None) => Some((self.groups.push(seq![lo, hi]), self.groups.len() as int)),
            (Some(g), None) => Some((self.groups.update(g, self.groups[g].push(hi)), g)),
            (None, Some(g)) => Some((self.groups.update(g, self.groups[g].push(lo)), g)),
            (Some(x), Some(y)) => if x == y {
                Some((self.groups, x))
            } else {
                None
            },
        }
    }

    /// Two legs are joined. Where they can be, every member of their group is
    /// asked for a keyframe, and none is retired there any more.
    pub open spec fn joined(self, a: u64, b: u64) -> (Hub, bool) {
        if a == b {
            (self, true)
        } else if !self.legs.contains_key(a) || !self.legs.contains_key(b) {
            (self, false)
        } else {
            match self.grouped(
                if a < b {
                    a
                } else {
                    b
                },
                if a < b {
                    b
                } else {
                    a
                },
            ) {
                Some((groups, g)) => (
                    Hub {
                        groups,
                        legs: changed(
                            self.legs,
                            |k: u64| groups[g].contains(k),
                            |l: Leg| l.welcoming(groups[g]),
                        ),
                    },
                    true,
                ),
                None => (self, false),
            }
        }
    }
}

pub(crate) proof fn lemma_first_group(groups: Seq<Seq<u64>>, id: u64, at: int)
    requires
        0 <= at,
    ensures
        match first_group(groups, id, at) {
            Some(g) => at <= g < groups.len() && groups[g].contains(id),
            None => forall|g: int| at <= g < groups.len() ==> !(#[trigger] groups[g]).contains(id),
        },
    decreases groups.len() - at,
{
    if at < groups.len() && !groups[at].contains(id) {
        lemma_first_group(groups, id, at + 1);
    }
}

/// A leg is in one group at most.
pub proof fn lemma_group_of(hub: Hub, g: int, id: u64)
    requires
        hub.inv(),
        0 <= g < hub.groups.len(),
        hub.groups[g].contains(id),
    ensures
        hub.group_of(id) == Some(g),
{
    lemma_first_group(hub.groups, id, 0);
    match hub.group_of(id) {
        Some(h) => {
            let i = choose|i: int| 0 <= i < hub.groups[g].len() && hub.groups[g][i] == id;
            let j = choose|j: int| 0 <= j < hub.groups[h].len() && hub.groups[h][j] == id;
            assert(hub.groups[g][i] == hub.groups[h][j]);
        },
        None => {
            assert(!hub.groups[g].contains(id));
        },
    }
}

/// Changing one more leg.
proof fn lemma_changed_step(
    legs: Map<u64, Leg>,
    p: spec_fn(u64) -> bool,
    q: spec_fn(u64) -> bool,
    f: spec_fn(Leg) -> Leg,
    x: u64,
)
    requires
        legs.contains_key(x),
        forall|k: u64| #[trigger] q(k) == (p(k) || k == x),
    ensures
        changed(legs, q, f) == changed(legs, p, f).insert(x, f(legs[x])),
{
    assert(changed(legs, q, f) =~= changed(legs, p, f).insert(x, f(legs[x])));
}

/// Changing no leg.
proof fn lemma_changed_same(
    legs: Map<u64, Leg>,
    p: spec_fn(u64) -> bool,
    q: spec_fn(u64) -> bool,
    f: spec_fn(Leg) -> Leg,
)
    requires
        forall|k: u64| legs.contains_key(k) ==> #[trigger] q(k) == p(k),
    ensures
        changed(legs, q, f) == changed(legs, p, f),
{
    assert(changed(legs, q, f) =~= changed(legs, p, f));
}

proof fn lemma_changed_none(legs: Map<u64, Leg>, p: spec_fn(u64) -> bool, f: spec_fn(Leg) -> Leg)
    requires
        forall|k: u64| legs.contains_key(k) ==> !(#[trigger] p(k)),
    ensures
        changed(legs, p, f) == legs,
{
    assert(changed(legs, p, f) =~= legs);
}

impl RelayHub {
    /// A hub without legs.
    pub fn new() -> (r: Self)
        ensures
            r@.legs == Map::<u64, Leg>::empty(),
            r@.groups == Seq::<Seq<u64>>::empty(),
            r@.inv(),
    {
        let r = RelayHub { legs: HashMap::new(), groups: Vec::new() };
        assert(r@.legs =~= Map::<u64, Leg>::empty());
        assert(r@.groups =~= Seq::<Seq<u64>>::empty());
        r
    }

    /// The leg of an id.
    pub fn leg(&self, id: u64) -> (r: Option<&RelayShared>)
        ensures
            match r {
                Some(l) => self@.legs.contains_key(id) && l@ == self@.legs[id],
                None => !self@.legs.contains_key(id),
            },
    {
        self.legs.get(&id)
    }

    /// Takes a leg out of the table, to be put back.
    pub(crate) fn take(&mut self, id: u64) -> (r: Option<RelayShared>)
        ensures
            final(self)@.groups == old(self)@.groups,
            match r {
                Some(l) => {
                    &&& old(self)@.legs.contains_key(id)
                    &&& l@ == old(self)@.legs[id]
                    &&& final(self)@.legs == old(self)@.legs.remove(id)
                },
                None => !old(self)@.legs.contains_key(id) && final(self)@.legs == old(self)@.legs,
            },
    {
        let r = self.legs.remove(&id);
        assert(r is Some ==> self@.legs =~= old(self)@.legs.remove(id));
        assert(r is None ==> self@.legs =~= old(self)@.legs);
        r
    }

    /// Puts a leg into the table under an id.
    pub(crate) fn put(&mut self, id: u64, leg: RelayShared)
        ensures
            final(self)@.groups == old(self)@.groups,
            final(self)@.legs == old(self)@.legs.insert(id, leg@),
    {
        self.legs.insert(id, leg);
        assert(self@.legs =~= old(self)@.legs.insert(id, leg@));
    }

    /// Adds a leg, in no group, or replaces the leg of its id.
    pub fn add_leg(&mut self, leg: RelayShared)
        requires
            old(self)@.inv(),
            leg@.inv(),
        ensures
            final(self)@.groups == old(self)@.groups,
            final(self)@.legs == old(self)@.legs.insert(leg@.id, leg@),
            final(self)@.inv(),
    {
        let id: u64 = leg.id();
        self.put(id, leg);
    }

    /// The group that a leg is in.
    pub fn find_group(&self, id: u64) -> (r: Option<usize>)
        ensures
            match r {
                Some(g) => g < self@.groups.len() && self@.group_of(id) == Some(g as int)
                    && self@.groups[g as int].contains(id),
                None => self@.group_of(id) is None,
            },
    {
        let mut g: usize = 0;
        while g < self.groups.len()
            invariant
                g <= self.groups@.len(),
                self@.group_of(id) == first_group(self@.groups, id, g as int),
            decreases self.groups@.len() - g,
        {
            assert(self@.groups[g as int] == self.groups@[g as int]@);
            if has_id(&self.groups[g], id) {
                return Some(g);
            }
            g += 1;
        }
        None
    }

    /// Replaces the counters of a leg.
    pub(crate) fn set_counters(&mut self, id: u64, counters: RelayCounters)
        requires
            old(self)@.inv(),
            old(self)@.legs.contains_key(id),
        ensures
            final(self)@ == old(self)@.with_counters(id, counters),
            final(self)@.inv(),
    {
        if let Some(mut leg) = self.take(id) {
            leg.set_counters(counters);
            let ghost after = leg@;
            self.put(id, leg);
            assert(self@.legs =~= old(self)@.legs.insert(id, after));
        }
    }

    /// Counts one inbound muxed RTCP datagram of a leg.
    pub fn count_rtcp(&mut self, id: u64, keyed: bool, ok: bool)
        requires
            old(self)@.inv(),
            old(self)@.legs.contains_key(id),
        ensures
            final(self)@ == old(self)@.rtcp_counted(id, keyed, ok),
            final(self)@.inv(),
    {
        if let Some(mut leg) = self.take(id) {
            leg.count_rtcp(keyed, ok);
            let ghost after = leg@;
            self.put(id, leg);
            assert(self@.legs =~= old(self)@.legs.insert(id, after));
        }
    }

    /// The members of a leg's group, itself among them.
    pub fn members(&self, id: u64) -> (r: Vec<u64>)
        ensures
            r@ == self@.members_of(id),
    {
        match self.find_group(id) {
            Some(g) => self.groups[g].clone(),
            None => Vec::new(),
        }
    }

    /// Is `src` a member of a leg's group?
    pub fn has_member(&self, id: u64, src: u64) -> (r: bool)
        ensures
            r == self@.members_of(id).contains(src),
    {
        match self.find_group(id) {
            Some(g) => {
                assert(self@.groups[g as int] == self.groups@[g as int]@);
                has_id(&self.groups[g], src)
            },
            None => false,
        }
    }
}

impl RelayHub {
    /// Hands one accepted packet of a leg to every other member of its group.
    /// Never blocks: a full queue is a counted drop on that receiving leg.
    pub fn fan_out(&mut self, id: u64, pkt: RtpPacket)
        requires
            old(self)@.inv(),
            pkt.inv(),
        ensures
            final(self)@ == old(self)@.fanned(id, pkt@),
            final(self)@.inv(),
    {
        match self.find_group(id) {
            Some(g) => self.fan_out_to(g, id, pkt),
            None => {
                proof {
                    lemma_changed_none(
                        self@.legs,
                        |k: u64| self@.peers(id, k),
                        |l: Leg|
                            l.delivered(Frame { src: id, pts: self@.legs[id].pts, pkt: pkt@ }),
                    );
                }
            },
        }
    }

    /// `fan_out` into a group that was looked up before: a leg that is not in
    /// it (any more) forwards nothing.
    pub fn fan_out_to(&mut self, group: usize, id: u64, pkt: RtpPacket)
        requires
            old(self)@.inv(),
            pkt.inv(),
        ensures
            final(self)@ == if group < old(self)@.groups.len() && old(
                self,
            )@.groups[group as int].contains(id) {
                old(self)@.fanned(id, pkt@)
            } else {
                old(self)@
            },
            final(self)@.inv(),
    {
        if group >= self.groups.len() {
            return ;
        }
        assert(self@.groups[group as int] == self.groups@[group as int]@);
        if !has_id(&self.groups[group], id) {
            return ;
        }
        let ghost before = self@;
        proof {
            lemma_group_of(before, group as int, id);
        }
        let members: Vec<u64> = self.groups[group].clone();
        let ghost m = members@;
        assert(m == before.members_of(id));
        assert(exists|i: int| 0 <= i < m.len() && m[i] == id);
        let src_pts = match self.leg(id) {
            Some(l) => l.pts().copy(),
            None => {
                assert(false);
                return ;
            },
        };
        let ghost frame = Frame { src: id, pts: src_pts@, pkt: pkt@ };
        let ghost deliver = |l: Leg| l.delivered(frame);
        proof {
            lemma_changed_none(before.legs, |k: u64| k != id && m.take(0).contains(k), deliver);
        }
        let mut i: usize = 0;
        while i < members.len()
            invariant
                i <= members@.len(),
                m == members@,
                before.inv(),
                m == before.members_of(id),
                0 <= group < before.groups.len(),
                before.groups[group as int] == m,
                pkt.inv(),
                self@.groups == before.groups,
                frame == (Frame { src: id, pts: src_pts@, pkt: pkt@ }),
                deliver == (|l: Leg| l.delivered(frame)),
                self@.legs == changed(
                    before.legs,
                    |k: u64| k != id && m.take(i as int).contains(k),
                    deliver,
                ),
            decreases members@.len() - i,
        {
            let peer: u64 = members[i];
            let ghost p = |k: u64| k != id && m.take(i as int).contains(k);
            let ghost q = |k: u64| k != id && m.take(i + 1).contains(k);
            assert(m.take(i + 1) =~= m.take(i as int).push(peer));
            assert forall|k: u64| #[trigger]
                m.take(i + 1).contains(k) == (m.take(i as int).contains(k) || k == peer) by {
                lemma_push_contains(m.take(i as int), peer, k);
            }
            assert(before.legs.contains_key(before.groups[group as int][i as int]));
            if peer != id {
                assert(!m.take(i as int).contains(peer)) by {
                    if m.take(i as int).contains(peer) {
                        let j = choose|j: int| 0 <= j < i && m[j] == peer;
                        let g = before.groups[group as int];
                        assert(g[j] == g[i as int]);
                    }
                }
                assert(self@.legs[peer] == before.legs[peer]);
                if let Some(mut leg) = self.take(peer) {
                    let copy = copy_packet(&pkt);
                    let frame_out = RelayFrame { src: id, src_pts: src_pts.copy(), pkt: copy };
                    leg.deliver(frame_out);
                    self.put(peer, leg);
                }
                proof {
                    lemma_changed_step(before.legs, p, q, deliver, peer);
                    assert(self@.legs =~= changed(before.legs, q, deliver));
                }
            } else {
                proof {
                    lemma_changed_same(before.legs, p, q, deliver);
                }
            }
            i += 1;
        }
        assert(m.take(i as int) =~= m);
        proof {
            lemma_changed_same(
                before.legs,
                |k: u64| k != id && m.take(i as int).contains(k),
                |k: u64| before.peers(id, k),
                deliver,
            );
            assert(deliver == (|l: Leg|
                l.delivered(Frame { src: id, pts: before.legs[id].pts, pkt: pkt@ })));
        }
    }
}

pub(crate) proof fn lemma_push_contains(s: Seq<u64>, x: u64, k: u64)
    ensures
        s.push(x).contains(k) == (s.contains(k) || k == x),
{
    if s.contains(k) {
        let i = choose|i: int| 0 <= i < s.len() && s[i] == k;
        assert(s.push(x)[i] == k);
    }
    assert(s.push(x)[s.len() as int] == x);
}

/// The members of a group but one, by their positions.
pub(crate) proof fn lemma_without_id(hub: Hub, g: int, id: u64, pos: int)
    requires
        hub.inv(),
        0 <= g < hub.groups.len(),
        0 <= pos < hub.groups[g].len(),
        hub.groups[g][pos] == id,
        first_id(hub.groups[g], id, 0) == pos,
    ensures
        ({
            let m = hub.groups[g];
            let rest = without_id(m, id);
            &&& rest == m.remove(pos)
            &&& forall|k: u64| #[trigger] rest.contains(k) == (m.contains(k) && k != id)
            &&& forall|i: int, j: int|
                0 <= i < rest.len() && 0 <= j < rest.len() && #[trigger] rest[i]
                    == #[trigger] rest[j] ==> i == j
        }),
{
    let m = hub.groups[g];
    let rest = m.remove(pos);
    assert forall|i: int, j: int|
        0 <= i < rest.len() && 0 <= j < rest.len() && #[trigger] rest[i]
            == #[trigger] rest[j] implies i == j by {
        let a = if i < pos {
            i
        } else {
            i + 1
        };
        let b = if j < pos {
            j
        } else {
            j + 1
        };
        assert(hub.groups[g][a] == hub.groups[g][b]);
    }
    assert forall|k: u64| #[trigger] rest.contains(k) == (m.contains(k) && k != id) by {
        if rest.contains(k) {
            let i = choose|i: int| 0 <= i < rest.len() && rest[i] == k;
            let a = if i < pos {
                i
            } else {
                i + 1
            };
            assert(m[a] == k);
            if k == id {
                assert(hub.groups[g][a] == hub.groups[g][pos]);
            }
        }
        if m.contains(k) && k != id {
            let a = choose|a: int| 0 <= a < m.len() && m[a] == k;
            let i = if a < pos {
                a
            } else {
                a - 1
            };
            assert(rest[i] == k);
        }
    }
}

/// A hub that a leg leaves stays one.
proof fn lemma_left_inv(hub: Hub, id: u64)
    requires
        hub.inv(),
    ensures
        hub.left(id).inv(),
        hub.group_of(id) is Some ==> hub.left(id).group_of(id) is None,
{
    lemma_first_group(hub.groups, id, 0);
    if let Some(g) = hub.group_of(id) {
        let m = hub.groups[g];
        lemma_first_id(m, id, 0);
        let pos = first_id(m, id, 0);
        lemma_without_id(hub, g, id, pos);
        let rest = without_id(m, id);
        let after = hub.left(id);
        let groups = after.groups;
        assert forall|h: int, i: int|
            0 <= h < groups.len() && 0 <= i < groups[h].len() implies after.legs.contains_key(
            #[trigger] groups[h][i],
        ) by {
            let (h2, i2) = lemma_left_place(hub, id, g, pos, h, i);
            assert(hub.legs.contains_key(hub.groups[h2][i2]));
        }
        assert forall|h: int, i: int, k: int, j: int|
            0 <= h < groups.len() && 0 <= i < groups[h].len() && 0 <= k < groups.len() && 0 <= j
                < groups[k].len() && #[trigger] groups[h][i]
                == #[trigger] groups[k][j] implies h == k && i == j by {
            let (h2, i2) = lemma_left_place(hub, id, g, pos, h, i);
            let (k2, j2) = lemma_left_place(hub, id, g, pos, k, j);
            assert(hub.groups[h2][i2] == hub.groups[k2][j2]);
        }
        assert forall|h: int| 0 <= h < groups.len() implies (#[trigger] groups[h]).len() > 0 by {
            if rest.len() == 0 {
                let h2 = if h < g {
                    h
                } else {
                    h + 1
                };
                assert(hub.groups[h2].len() > 0);
            } else if h != g {
                assert(hub.groups[h].len() > 0);
            }
        }
        assert forall|k: u64| #[trigger] after.legs.contains_key(k) implies after.legs[k].id == k
            && after.legs[k].inv() by {
            assert(hub.legs.contains_key(k));
        }
        lemma_first_group(groups, id, 0);
        if let Some(h) = first_group(groups, id, 0) {
            let i = choose|i: int| 0 <= i < groups[h].len() && groups[h][i] == id;
            let (h2, i2) = lemma_left_place(hub, id, g, pos, h, i);
            assert(hub.groups[h2][i2] == hub.groups[g][pos]);
        }
    }
}

/// Where a member that stays stood before a leg left.
proof fn lemma_left_place(hub: Hub, id: u64, g: int, pos: int, h: int, i: int) -> (r: (int, int))
    requires
        hub.inv(),
        hub.group_of(id) == Some(g),
        0 <= g < hub.groups.len(),
        0 <= pos < hub.groups[g].len(),
        hub.groups[g][pos] == id,
        first_id(hub.groups[g], id, 0) == pos,
        0 <= h < hub.left(id).groups.len(),
        0 <= i < hub.left(id).groups[h].len(),
    ensures
        0 <= r.0 < hub.groups.len(),
        0 <= r.1 < hub.groups[r.0].len(),
        hub.groups[r.0][r.1] == hub.left(id).groups[h][i],
        !(r.0 == g && r.1 == pos),
        r.0 == if without_id(hub.groups[g], id).len() == 0 && h >= g {
            h + 1
        } else {
            h
        },
        r.1 == if r.0 == g && i >= pos {
            i + 1
        } else {
            i
        },
{
    lemma_without_id(hub, g, id, pos);
    let rest = without_id(hub.groups[g], id);
    let h2 = if rest.len() == 0 && h >= g {
        h + 1
    } else {
        h
    };
    let i2 = if h2 == g && i >= pos {
        i + 1
    } else {
        i
    };
    (h2, i2)
}

pub(crate) proof fn lemma_first_id(ids: Seq<u64>, id: u64, at: int)
    requires
        0 <= at <= ids.len(),
        exists|i: int| at <= i < ids.len() && ids[i] == id,
    ensures
        at <= first_id(ids, id, at) < ids.len(),
        ids[first_id(ids, id, at)] == id,
    decreases ids.len() - at,
{
    if ids[at] != id {
        lemma_first_id(ids, id, at + 1);
    }
}

impl RelayHub {
    /// Tells each of some legs that a source is gone.
    fn retire_from(&mut self, ids: &Vec<u64>, src: u64)
        requires
            forall|i: int, j: int|
                0 <= i < ids@.len() && 0 <= j < ids@.len() && #[trigger] ids@[i]
                    == #[trigger] ids@[j] ==> i == j,
            forall|i: int|
                0 <= i < ids@.len() ==> old(self)@.legs.contains_key(#[trigger] ids@[i]),
        ensures
            final(self)@.groups == old(self)@.groups,
            final(self)@.legs == changed(
                old(self)@.legs,
                |k: u64| ids@.contains(k),
                |l: Leg| l.retiring(seq![src]),
            ),
    {
        let ghost before = self@.legs;
        let ghost m = ids@;
        let ghost f = |l: Leg| l.retiring(seq![src]);
        proof {
            lemma_changed_none(before, |k: u64| m.take(0).contains(k), f);
        }
        let mut i: usize = 0;
        while i < ids.len()
            invariant
                i <= ids@.len(),
                m == ids@,
                f == (|l: Leg| l.retiring(seq![src])),
                forall|i: int, j: int|
                    0 <= i < m.len() && 0 <= j < m.len() && #[trigger] m[i] == #[trigger] m[j]
                        ==> i == j,
                forall|i: int| 0 <= i < m.len() ==> before.contains_key(#[trigger] m[i]),
                self@.groups == old(self)@.groups,
                self@.legs == changed(before, |k: u64| m.take(i as int).contains(k), f),
            decreases ids@.len() - i,
        {
            let peer: u64 = ids[i];
            let ghost p = |k: u64| m.take(i as int).contains(k);
            let ghost q = |k: u64| m.take(i + 1).contains(k);
            assert(m.take(i + 1) =~= m.take(i as int).push(peer));
            assert forall|k: u64| #[trigger] q(k) == (p(k) || k == peer) by {
                lemma_push_contains(m.take(i as int), peer, k);
            }
            assert(before.contains_key(m[i as int]));
            assert(!m.take(i as int).contains(peer)) by {
                if m.take(i as int).contains(peer) {
                    let j = choose|j: int| 0 <= j < i && m[j] == peer;
                    assert(m[j] == m[i as int]);
                }
            }
            assert(self@.legs[peer] == before[peer]);
            if let Some(mut leg) = self.take(peer) {
                leg.retire(src);
                self.put(peer, leg);
            }
            proof {
                lemma_changed_step(before, p, q, f, peer);
                assert(self@.legs =~= changed(before, q, f));
            }
            i += 1;
        }
        assert(m.take(i as int) =~= m);
        proof {
            lemma_changed_same(
                before,
                |k: u64| m.take(i as int).contains(k),
                |k: u64| ids@.contains(k),
                f,
            );
        }
    }

    /// A leg leaves its group: nobody forwards to it, it forwards to nobody,
    /// and every remaining member is told that it is gone as a source.
    pub fn leave_group(&mut self, id: u64)
        requires
            old(self)@.inv(),
        ensures
            final(self)@ == old(self)@.left(id),
            final(self)@.inv(),
    {
        let ghost before = self@;
        proof {
            lemma_left_inv(before, id);
        }
        if let Some(g) = self.find_group(id) {
            assert(self@.groups[g as int] == self.groups@[g as int]@);
            let mut rest: Vec<u64> = self.groups[g].clone();
            let ghost m = rest@;
            assert(m == before.groups[g as int]);
            let mut pos: usize = 0;
            while pos < rest.len() && rest[pos] != id
                invariant
                    pos <= rest@.len(),
                    rest@ == m,
                    m.contains(id),
                    first_id(m, id, 0) == first_id(m, id, pos as int),
                    forall|j: int| 0 <= j < pos ==> m[j] != id,
                decreases rest@.len() - pos,
            {
                pos += 1;
            }
            assert(pos < m.len()) by {
                let i = choose|i: int| 0 <= i < m.len() && m[i] == id;
            }
            rest.remove(pos);
            proof {
                lemma_without_id(before, g as int, id, pos as int);
            }
            assert forall|i: int| 0 <= i < rest@.len() implies before.legs.contains_key(
                #[trigger] rest@[i],
            ) by {
                let a = if i < pos {
                    i
                } else {
                    i + 1
                };
                assert(before.legs.contains_key(before.groups[g as int][a]));
            }
            self.retire_from(&rest, id);
            let ghost middle = self@.legs;
            if let Some(mut leg) = self.take(id) {
                leg.retire_all(&rest);
                self.put(id, leg);
            }
            assert(before.legs.contains_key(before.groups[g as int][pos as int]));
            assert(self@.legs =~= changed(
                middle,
                |k: u64| k == id,
                |l: Leg| l.retiring(rest@),
            ));
            let ghost legs_now = self@.legs;
            let ghost stay = rest@;
            assert(stay == without_id(m, id));
            assert(legs_now =~= before.left(id).legs);
            if rest.len() == 0 {
                self.groups.remove(g);
                assert(self@.groups =~= before.groups.remove(g as int));
            } else {
                self.groups[g] = rest;
                assert(self@.groups =~= before.groups.update(g as int, stay));
            }
            assert(self@.legs == legs_now);
            assert(self@.groups == before.left(id).groups);
        }
    }
}

/// Groups into which two legs were put are groups again.
pub(crate) proof fn lemma_grouped_inv(hub: Hub, lo: u64, hi: u64)
    requires
        hub.inv(),
        lo != hi,
        hub.legs.contains_key(lo),
        hub.legs.contains_key(hi),
        hub.grouped(lo, hi) is Some,
    ensures
        ({
            let (groups, g) = hub.grouped(lo, hi).unwrap();
            &&& (Hub { groups, legs: hub.legs }).inv()
            &&& 0 <= g < groups.len()
            &&& groups[g].contains(lo)
            &&& groups[g].contains(hi)
        }),
{
    lemma_first_group(hub.groups, lo, 0);
    lemma_first_group(hub.groups, hi, 0);
    let (groups, g) = hub.grouped(lo, hi).unwrap();
    let after = Hub { groups, legs: hub.legs };
    match (hub.group_of(lo), hub.group_of(hi)) {
        (None, None) => {
            assert(groups[g][0] == lo);
            assert(groups[g][1] == hi);
            assert forall|h: int, i: int, k: int, j: int|
                0 <= h < groups.len() && 0 <= i < groups[h].len() && 0 <= k < groups.len() && 0 <= j
                    < groups[k].len() && #[trigger] groups[h][i]
                    == #[trigger] groups[k][j] implies h == k && i == j by {
                if h < g && k < g {
                    assert(hub.groups[h][i] == hub.groups[k][j]);
                } else if h < g {
                    assert(hub.groups[h].contains(groups[h][i]));
                } else if k < g {
                    assert(hub.groups[k].contains(groups[k][j]));
                }
            }
            assert forall|h: int, i: int|
                0 <= h < groups.len() && 0 <= i < groups[h].len() implies after.legs.contains_key(
                #[trigger] groups[h][i],
            ) by {
                if h < g {
                    assert(hub.legs.contains_key(hub.groups[h][i]));
                }
            }
            assert forall|h: int| 0 <= h < groups.len() implies (#[trigger] groups[h]).len()
                > 0 by {
                if h < g {
                    assert(hub.groups[h].len() > 0);
                }
            }
        },
        (Some(x), Some(y)) => {},
        _ => {
            let x = if hub.group_of(lo) is Some {
                hi
            } else {
                lo
            };
            lemma_push_contains(hub.groups[g], x, lo);
            lemma_push_contains(hub.groups[g], x, hi);
            assert forall|h: int, i: int, k: int, j: int|
                0 <= h < groups.len() && 0 <= i < groups[h].len() && 0 <= k < groups.len() && 0 <= j
                    < groups[k].len() && #[trigger] groups[h][i]
                    == #[trigger] groups[k][j] implies h == k && i == j by {
                let n = hub.groups[g].len();
                if !(h == g && i == n) && !(k == g && j == n) {
                    assert(hub.groups[h][i] == hub.groups[k][j]);
                } else if !(h == g && i == n) {
                    assert(hub.groups[h].contains(hub.groups[h][i]));
                } else if !(k == g && j == n) {
                    assert(hub.groups[k].contains(hub.groups[k][j]));
                }
            }
            assert forall|h: int, i: int|
                0 <= h < groups.len() && 0 <= i < groups[h].len() implies after.legs.contains_key(
                #[trigger] groups[h][i],
            ) by {
                if !(h == g && i == hub.groups[g].len()) {
                    assert(hub.legs.contains_key(hub.groups[h][i]));
                }
            }
            assert forall|h: int| 0 <= h < groups.len() implies (#[trigger] groups[h]).len()
                > 0 by {
                if h != g {
                    assert(hub.groups[h].len() > 0);
                }
            }
        },
    }
}

impl RelayHub {
    /// Has each member of a group forget that others of it were retired, and
    /// asks it for a keyframe.
    fn welcome_all(&mut self, ids: &Vec<u64>)
        requires
            forall|i: int, j: int|
                0 <= i < ids@.len() && 0 <= j < ids@.len() && #[trigger] ids@[i]
                    == #[trigger] ids@[j] ==> i == j,
            forall|i: int|
                0 <= i < ids@.len() ==> old(self)@.legs.contains_key(#[trigger] ids@[i]),
        ensures
            final(self)@.groups == old(self)@.groups,
            final(self)@.legs == changed(
                old(self)@.legs,
                |k: u64| ids@.contains(k),
                |l: Leg| l.welcoming(ids@),
            ),
    {
        let ghost before = self@.legs;
        let ghost m = ids@;
        let ghost f = |l: Leg| l.welcoming(m);
        proof {
            lemma_changed_none(before, |k: u64| m.take(0).contains(k), f);
        }
        let mut i: usize = 0;
        while i < ids.len()
            invariant
                i <= ids@.len(),
                m == ids@,
                f == (|l: Leg| l.welcoming(m)),
                forall|i: int, j: int|
                    0 <= i < m.len() && 0 <= j < m.len() && #[trigger] m[i] == #[trigger] m[j]
                        ==> i == j,
                forall|i: int| 0 <= i < m.len() ==> before.contains_key(#[trigger] m[i]),
                self@.groups == old(self)@.groups,
                self@.legs == changed(before, |k: u64| m.take(i as int).contains(k), f),
            decreases ids@.len() - i,
        {
            let peer: u64 = ids[i];
            let ghost p = |k: u64| m.take(i as int).contains(k);
            let ghost q = |k: u64| m.take(i + 1).contains(k);
            assert(m.take(i + 1) =~= m.take(i as int).push(peer));
            assert forall|k: u64| #[trigger] q(k) == (p(k) || k == peer) by {
                lemma_push_contains(m.take(i as int), peer, k);
            }
            assert(before.contains_key(m[i as int]));
            assert(!m.take(i as int).contains(peer)) by {
                if m.take(i as int).contains(peer) {
                    let j = choose|j: int| 0 <= j < i && m[j] == peer;
                    assert(m[j] == m[i as int]);
                }
            }
            assert(self@.legs[peer] == before[peer]);
            if let Some(mut leg) = self.take(peer) {
                leg.welcome(ids);
                self.put(peer, leg);
            }
            proof {
                lemma_changed_step(before, p, q, f, peer);
                assert(self@.legs =~= changed(before, q, f));
            }
            i += 1;
        }
        assert(m.take(i as int) =~= m);
        proof {
            lemma_changed_same(
                before,
                |k: u64| m.take(i as int).contains(k),
                |k: u64| ids@.contains(k),
                f,
            );
        }
    }

    /// Puts two legs in one group: both ungrouped make a new one, one grouped
    /// takes the other in, and legs of one group stay as they are. Legs of
    /// different groups, or that are not there, are refused. On success every
    /// member is asked for a keyframe, so that each gets a picture from each. A
    /// leg is joined with itself as it is.
    pub fn join(&mut self, a: u64, b: u64) -> (r: bool)
        requires
            old(self)@.inv(),
        ensures
            (final(self)@, r) == old(self)@.joined(a, b),
            final(self)@.inv(),
    {
        if a == b {
            return true;
        }
        if self.leg(a).is_none() || self.leg(b).is_none() {
            return false;
        }
        let ghost before = self@;
        let lo: u64 = if a < b {
            a
        } else {
            b
        };
        let hi: u64 = if a < b {
            b
        } else {
            a
        };
        let in_lo = self.find_group(lo);
        let in_hi = self.find_group(hi);
        let g: usize = match (in_lo, in_hi) {
            (None, None) => {
                let g: usize = self.groups.len();
                let mut group: Vec<u64> = Vec::new();
                group.push(lo);
                group.push(hi);
                assert(group@ =~= seq![lo, hi]);
                self.groups.push(group);
                assert(self@.groups =~= before.groups.push(seq![lo, hi]));
                g
            },
            (Some(g), None) => {
                self.groups[g].push(hi);
                assert(self@.groups =~= before.groups.update(
                    g as int,
                    before.groups[g as int].push(hi),
                ));
                g
            },
            (None, Some(g)) => {
                self.groups[g].push(lo);
                assert(self@.groups =~= before.groups.update(
                    g as int,
                    before.groups[g as int].push(lo),
                ));
                g
            },
            (Some(x), Some(y)) => {
                if x != y {
                    return false;
                }
                x
            },
        };
        assert(self@.legs == before.legs);
        assert(before.grouped(lo, hi) == Some((self@.groups, g as int)));
        proof {
            lemma_grouped_inv(before, lo, hi);
        }
        let ghost grouped = self@;
        assert(grouped.inv());
        assert(self@.groups[g as int] == self.groups@[g as int]@);
        let members: Vec<u64> = self.groups[g].clone();
        assert(members@ == grouped.groups[g as int]);
        assert forall|i: int, j: int|
            0 <= i < members@.len() && 0 <= j < members@.len() && #[trigger] members@[i]
                == #[trigger] members@[j] implies i == j by {
            assert(grouped.groups[g as int][i] == grouped.groups[g as int][j]);
        }
        assert forall|i: int| 0 <= i < members@.len() implies grouped.legs.contains_key(
            #[trigger] members@[i],
        ) by {
            assert(grouped.legs.contains_key(grouped.groups[g as int][i]));
        }
        self.welcome_all(&members);
        assert(self@.legs =~= before.joined(a, b).0.legs);
        true
    }
}

/// Joined legs are peers of each other, and so are legs that were peers before.
pub proof fn lemma_joined_are_peers(hub: Hub, a: u64, b: u64)
    requires
        hub.inv(),
        a != b,
        hub.joined(a, b).1,
    ensures
        hub.joined(a, b).0.peers(a, b),
        hub.joined(a, b).0.peers(b, a),
        forall|x: u64, y: u64|
            hub.peers(x, y) ==> #[trigger] hub.joined(a, b).0.peers(x, y),
{
    let lo = if a < b {
        a
    } else {
        b
    };
    let hi = if a < b {
        b
    } else {
        a
    };
    lemma_grouped_inv(hub, lo, hi);
    let after = hub.joined(a, b).0;
    let (groups, g) = hub.grouped(lo, hi).unwrap();
    let mid = Hub { groups, legs: hub.legs };
    lemma_group_of(mid, g, a);
    lemma_group_of(mid, g, b);
    assert forall|x: u64, y: u64| hub.peers(x, y) implies #[trigger] after.peers(x, y) by {
        lemma_first_group(hub.groups, x, 0);
        let h = hub.group_of(x).unwrap();
        lemma_push_contains(hub.groups[h], lo, x);
        lemma_push_contains(hub.groups[h], lo, y);
        lemma_push_contains(hub.groups[h], hi, x);
        lemma_push_contains(hub.groups[h], hi, y);
        lemma_first_group(hub.groups, lo, 0);
        lemma_first_group(hub.groups, hi, 0);
        assert(groups[h].contains(x) && groups[h].contains(y));
        lemma_group_of(mid, h, x);
    }
}

/// A leg that left its group has no peers, and is nobody's; the others of the
/// group are peers still.
pub proof fn lemma_left_has_no_peers(hub: Hub, id: u64, x: u64, y: u64)
    requires
        hub.inv(),
    ensures
        !hub.left(id).peers(id, x),
        !hub.left(id).peers(x, id),
        hub.peers(x, y) && x != id && y != id ==> hub.left(id).peers(x, y),
{
    lemma_left_inv(hub, id);
    let after = hub.left(id);
    lemma_first_group(hub.groups, id, 0);
    lemma_first_group(after.groups, id, 0);
    lemma_first_group(after.groups, x, 0);
    assert(after.group_of(id) is None);
    if let Some(h) = after.group_of(x) {
        assert(!after.groups[h].contains(id));
    }
    if hub.peers(x, y) && x != id && y != id {
        lemma_first_group(hub.groups, x, 0);
        let h = hub.group_of(x).unwrap();
        if let Some(g) = hub.group_of(id) {
            let m = hub.groups[g];
            lemma_first_id(m, id, 0);
            lemma_without_id(hub, g, id, first_id(m, id, 0));
            let rest = without_id(m, id);
            if h == g {
                assert(rest.contains(x) && rest.contains(y));
                lemma_group_of(after, g, x);
            } else {
                let h2 = if rest.len() == 0 && h > g {
                    h - 1
                } else {
                    h
                };
                assert(after.groups[h2] == hub.groups[h]);
                lemma_group_of(after, h2, x);
            }
        }
    }
}

/// Whoever are peers after a leg left were peers before.
pub(crate) proof fn lemma_left_adds_no_peers(hub: Hub, id: u64, x: u64, y: u64)
    requires
        hub.inv(),
        hub.left(id).peers(x, y),
    ensures
        hub.peers(x, y),
{
    let after = hub.left(id);
    lemma_first_group(hub.groups, id, 0);
    if let Some(g) = hub.group_of(id) {
        let m = hub.groups[g];
        lemma_first_id(m, id, 0);
        let pos = first_id(m, id, 0);
        lemma_first_group(after.groups, x, 0);
        let h = after.group_of(x).unwrap();
        let i = choose|i: int| 0 <= i < after.groups[h].len() && after.groups[h][i] == x;
        let j = choose|j: int| 0 <= j < after.groups[h].len() && after.groups[h][j] == y;
        let (h2, i2) = lemma_left_place(hub, id, g, pos, h, i);
        let (k2, j2) = lemma_left_place(hub, id, g, pos, h, j);
        assert(hub.groups[h2][i2] == x && hub.groups[h2][j2] == y);
        lemma_group_of(hub, h2, x);
    }
}

/// What leaving does to each leg: the one that leaves hears of all its peers,
/// and each of them of it.
pub(crate) proof fn lemma_left_legs(hub: Hub, id: u64, k: u64, x: u64)
    requires
        hub.inv(),
        hub.legs.contains_key(k),
    ensures
        ({
            let (before, after) = (hub.legs[k], hub.left(id).legs[k]);
            let told = if k == id {
                hub.peers(id, x)
            } else {
                hub.peers(k, id) && x == id
            };
            &&& after.retired.contains(x) == (before.retired.contains(x) || told)
            &&& after.retired.len() > before.retired.len() ==> after.retire_pending
            &&& before.retire_pending ==> after.retire_pending
        }),
{
    lemma_first_group(hub.groups, id, 0);
    lemma_first_group(hub.groups, k, 0);
    let (before, after) = (hub.legs[k], hub.left(id).legs[k]);
    if let Some(g) = hub.group_of(id) {
        let m = hub.groups[g];
        lemma_first_id(m, id, 0);
        lemma_without_id(hub, g, id, first_id(m, id, 0));
        let rest = without_id(m, id);
        assert(m.contains(id));
        assert(rest.contains(x) == hub.peers(id, x));
        assert(hub.peers(k, id) == (k != id && m.contains(k))) by {
            if m.contains(k) {
                lemma_group_of(hub, g, k);
            }
            if hub.peers(k, id) {
                lemma_peers_symmetric(hub, k, id);
            }
        }
        let added = if k == id {
            rest
        } else {
            seq![id]
        };
        if k == id || rest.contains(k) {
            assert(after.retired == before.retired + added);
            assert(after.retired.contains(x) == (before.retired.contains(x) || added.contains(x)))
                by {
                if before.retired.contains(x) {
                    let i = choose|i: int|
                        0 <= i < before.retired.len() && before.retired[i] == x;
                    assert(after.retired[i] == x);
                }
                if added.contains(x) {
                    let i = choose|i: int| 0 <= i < added.len() && added[i] == x;
                    assert(after.retired[before.retired.len() + i] == x);
                }
                if after.retired.contains(x) {
                    let i = choose|i: int| 0 <= i < after.retired.len() && after.retired[i] == x;
                    if i < before.retired.len() {
                        assert(before.retired[i] == x);
                    } else {
                        assert(added[i - before.retired.len()] == x);
                    }
                }
            }
            assert(k != id ==> added.contains(x) == (x == id)) by {
                assert(added[0] == added[0]);
                if k != id {
                    assert(seq![id][0] == id);
                }
            }
        }
    } else {
        if hub.peers(k, id) {
            lemma_peers_symmetric(hub, k, id);
        }
    }
}

/// What joining does to each leg: where it is in the group of the two it has all
/// the group's members as peers and none of them retired; else nothing.
pub(crate) proof fn lemma_joined_legs(hub: Hub, a: u64, b: u64, k: u64, x: u64)
    requires
        hub.inv(),
        hub.legs.contains_key(k),
        x != k,
    ensures
        ({
            let next = hub.joined(a, b).0;
            let (before, after) = (hub.legs[k], next.legs[k]);
            &&& hub.peers(k, x) ==> next.peers(k, x)
            &&& next.peers(k, x) ==> hub.peers(k, x) || !after.retired.contains(x)
            &&& after.retired.contains(x) ==> before.retired.contains(x)
            &&& before.retired.contains(x) && !next.peers(k, x) ==> after.retired.contains(x)
            &&& after.retired.len() <= before.retired.len()
            &&& after.retire_pending == before.retire_pending
        }),
{
    let next = hub.joined(a, b).0;
    let (before, after) = (hub.legs[k], next.legs[k]);
    if a != b && hub.joined(a, b).1 {
        let lo = if a < b {
            a
        } else {
            b
        };
        let hi = if a < b {
            b
        } else {
            a
        };
        lemma_joined_are_peers(hub, a, b);
        lemma_grouped_inv(hub, lo, hi);
        let (groups, g) = hub.grouped(lo, hi).unwrap();
        let mid = Hub { groups, legs: hub.legs };
        assert(next.groups == groups);
        if groups[g].contains(k) {
            lemma_group_of(mid, g, k);
            assert(next.members_of(k) == groups[g]);
            let keep = |id: u64| !groups[g].contains(id);
            before.retired.lemma_filter_len(keep);
            assert(after.retired == before.retired.filter(keep));
            if after.retired.contains(x) {
                let i = choose|i: int| 0 <= i < after.retired.len() && after.retired[i] == x;
                before.retired.lemma_filter_pred(keep, i);
                before.retired.lemma_filter_contains_rev(keep, x);
            }
            if before.retired.contains(x) && !groups[g].contains(x) {
                let i = choose|i: int| 0 <= i < before.retired.len() && before.retired[i] == x;
                before.retired.lemma_filter_contains(keep, i);
            }
        } else {
            assert(after == before);
            lemma_first_group(hub.groups, lo, 0);
            lemma_first_group(hub.groups, hi, 0);
            if next.peers(k, x) {
                lemma_first_group(groups, k, 0);
                let h = next.group_of(k).unwrap();
                assert(h != g);
                assert(groups[h] == hub.groups[h]);
                lemma_group_of(hub, h, k);
            }
        }
    }
}

/// A leg that left is in no group.
pub(crate) proof fn lemma_left_is_ungrouped(hub: Hub, id: u64)
    requires
        hub.inv(),
    ensures
        forall|g: int|
            0 <= g < hub.left(id).groups.len() ==> !(#[trigger] hub.left(id).groups[g]).contains(
                id,
            ),
{
    lemma_left_has_no_peers(hub, id, id, id);
    lemma_left_inv(hub, id);
    let after = hub.left(id);
    lemma_first_group(after.groups, id, 0);
    lemma_first_group(hub.groups, id, 0);
}

/// Being in one group goes both ways.
pub proof fn lemma_peers_symmetric(hub: Hub, x: u64, y: u64)
    requires
        hub.inv(),
        hub.peers(x, y),
    ensures
        hub.peers(y, x),
{
    lemma_first_group(hub.groups, x, 0);
    let g = hub.group_of(x).unwrap();
    lemma_group_of(hub, g, y);
}

/// Legs of different groups are not joined, and refusing changes nothing.
pub proof fn lemma_groups_do_not_merge(hub: Hub, a: u64, b: u64)
    requires
        hub.inv(),
        hub.group_of(a) is Some,
        hub.group_of(b) is Some,
        hub.group_of(a) != hub.group_of(b),
    ensures
        hub.joined(a, b) == (hub, false),
{
}

/// Members of a group are legs.
pub(crate) proof fn lemma_members_are_legs(hub: Hub, id: u64)
    requires
        hub.inv(),
    ensures
        forall|i: int|
            0 <= i < hub.members_of(id).len() ==> hub.legs.contains_key(
                #[trigger] hub.members_of(id)[i],
            ),
        forall|k: u64| #[trigger] hub.members_of(id).contains(k) ==> hub.legs.contains_key(k),
{
    lemma_first_group(hub.groups, id, 0);
    if let Some(g) = hub.group_of(id) {
        assert forall|i: int| 0 <= i < hub.members_of(id).len() implies hub.legs.contains_key(
            #[trigger] hub.members_of(id)[i],
        ) by {
            assert(hub.legs.contains_key(hub.groups[g][i]));
        }
    }
}

} // verus!
