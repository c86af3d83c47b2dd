//! Generic NACKs (RFC 4585 section 6.2.1): which packets an entry asks for, and
//! the limit on asking a source twice for one.
use vstd::prelude::*;
use std::collections::HashMap;

use crate::relay::seq_map::newer;
use crate::relay::seq_map::seq_newer;

verus! {

broadcast use vstd::std_specs::hash::group_hash_axioms;

/// A sequence number that a source was asked for within this many nanoseconds
/// is not asked for again.
pub const NACK_DEDUPE_WINDOW: u64 = 100_000_000;

/// Remembered requests past which stale ones are purged, and all of them where
/// that is not enough.
pub const NACK_LIMITER_MAX: usize = 4096;

/// A generic NACK addressed to a source: the media SSRC, and entries of a
/// packet identifier and a bit mask of packets behind it.
#[derive(Debug, Clone, PartialEq, Eq)]
pub struct NackReq {
    pub media_ssrc: u32,
    pub fci: Vec<(u16, u16)>,
}

/// Bit `i` of a mask.
pub open spec fn bit(mask: u16, i: int) -> bool {
    0 <= i < 16 && (mask >> (i as u16)) & 1 == 1
}

/// The entry `(pid, blp)` asks for packet `s`: it is `pid`, or the one `i + 1`
/// places behind it for a bit `i` of `blp`.
pub open spec fn asks(pid: u16, blp: u16, s: u16) -> bool {
    s == pid || bit(blp, s.wrapping_sub(pid) - 1)
}

/// Some entry asks for packet `s`.
pub open spec fn any_asks(fci: Seq<(u16, u16)>, s: u16) -> bool {
    exists|i: int| 0 <= i < fci.len() && #[trigger] asks(fci[i].0, fci[i].1, s)
}

/// `s` does not come before `base`.
pub open spec fn at_or_after(s: u16, base: u16) -> bool {
    !newer(base, s)
}

proof fn lemma_set_bit(mask: u16, k: u16, j: u16)
    by (bit_vector)
    requires
        k < 16,
        j < 16,
    ensures
        (((mask | (1u16 << k)) >> j) & 1 == 1) == ((mask >> j) & 1 == 1 || j == k),
{
}

proof fn lemma_no_bit(j: u16)
    by (bit_vector)
    ensures
        (0u16 >> j) & 1 == 0,
{
}

/// The mask with bit `k` set.
fn with_bit(mask: u16, k: u16) -> (r: u16)
    requires
        k < 16,
    ensures
        forall|i: int| #[trigger] bit(r, i) == (bit(mask, i) || i == k),
        r == mask | (1u16 << k),
{
    let r: u16 = mask | (1u16 << k);
    proof {
        assert forall|i: int| #[trigger] bit(r, i) == (bit(mask, i) || i == k) by {
            if 0 <= i < 16 {
                lemma_set_bit(mask, k, i as u16);
            }
        }
    }
    r
}

/// Is bit `i` of the mask set?
fn has_bit(mask: u16, i: u16) -> (r: bool)
    requires
        i < 16,
    ensures
        r == bit(mask, i as int),
{
    (mask >> i) & 1 == 1
}

/// The entry made of the packets at or after `base` that `(pid, blp)` asks for
/// by its lowest `n` bits: it is anchored on the first of them.
pub open spec fn clipped_bits(pid: u16, blp: u16, base: u16, n: int) -> Option<(u16, u16)>
    decreases n,
{
    if n <= 0 {
        None
    } else {
        let s = pid.wrapping_add(n as u16);
        let before = clipped_bits(pid, blp, base, n - 1);
        if bit(blp, n - 1) && at_or_after(s, base) {
            match before {
                Some((f, rest)) => Some(
                    (f, rest | (1u16 << ((s.wrapping_sub(f) - 1) as u16))),
                ),
                None => Some((s, 0u16)),
            }
        } else {
            before
        }
    }
}

/// An entry restricted to packets at or after `base`. One whose `pid` is stands
/// as it is; else it is anchored anew on the first packet it asks for that is.
/// `None` when there is none.
pub open spec fn clipped(pid: u16, blp: u16, base: u16) -> Option<(u16, u16)> {
    if at_or_after(pid, base) {
        Some((pid, blp))
    } else {
        clipped_bits(pid, blp, base, 16)
    }
}

/// Restricts an entry to packets at or after `base`.
pub fn clip_nack(pid: u16, blp: u16, base: u16) -> (r: Option<(u16, u16)>)
    ensures
        r == clipped(pid, blp, base),
{
    if !seq_newer(base, pid) {
        return Some((pid, blp));
    }
    let mut r: Option<(u16, u16)> = None;
    let mut i: u16 = 0;
    while i < 16
        invariant
            i <= 16,
            r == clipped_bits(pid, blp, base, i as int),
            r matches Some((f, _)) ==> 1 <= f.wrapping_sub(pid) <= i,
        decreases 16 - i,
    {
        let s: u16 = pid.wrapping_add(i + 1);
        if has_bit(blp, i) && !seq_newer(base, s) {
            r = match r {
                Some((f, rest)) => Some((f, with_bit(rest, s.wrapping_sub(f) - 1))),
                None => Some((s, 0)),
            };
        }
        i += 1;
    }
    r
}

proof fn lemma_clipped_bits(pid: u16, blp: u16, base: u16, n: int)
    requires
        0 <= n <= 16,
        !at_or_after(pid, base),
    ensures
        match clipped_bits(pid, blp, base, n) {
            Some((f, rest)) => {
                &&& 1 <= f.wrapping_sub(pid) <= n
                &&& forall|s: u16| #[trigger]
                    asks(f, rest, s) == (asks(pid, blp, s) && at_or_after(s, base)
                        && s.wrapping_sub(pid) <= n)
            },
            None => forall|s: u16| #[trigger]
                asks(pid, blp, s) && s.wrapping_sub(pid) <= n ==> !at_or_after(s, base),
        },
    decreases n,
{
    if n > 0 {
        lemma_clipped_bits(pid, blp, base, n - 1);
        let last = pid.wrapping_add(n as u16);
        let before = clipped_bits(pid, blp, base, n - 1);
        assert forall|s: u16| (s.wrapping_sub(pid) == n) == (#[trigger] s.wrapping_sub(last)
            == 0) by {}
        if bit(blp, n - 1) && at_or_after(last, base) {
            match before {
                Some((f, rest)) => {
                    let k = (last.wrapping_sub(f) - 1) as u16;
                    let mask = rest | (1u16 << k);
                    assert forall|s: u16| #[trigger]
                        asks(f, mask, s) == (asks(f, rest, s) || s == last) by {
                        let d = s.wrapping_sub(f) as int - 1;
                        if 0 <= d < 16 {
                            lemma_set_bit(rest, k, d as u16);
                        }
                    }
                    assert forall|s: u16| #[trigger]
                        asks(f, mask, s) == (asks(pid, blp, s) && at_or_after(s, base)
                            && s.wrapping_sub(pid) <= n) by {
                        assert(asks(f, rest, s) == (asks(pid, blp, s) && at_or_after(s, base)
                            && s.wrapping_sub(pid) <= n - 1));
                        assert((s.wrapping_sub(pid) == n) == (s == last));
                    }
                },
                None => {
                    assert forall|s: u16| #[trigger]
                        asks(last, 0, s) == (asks(pid, blp, s) && at_or_after(s, base)
                            && s.wrapping_sub(pid) <= n) by {
                        if 0 <= s.wrapping_sub(last) - 1 < 16 {
                            lemma_no_bit((s.wrapping_sub(last) - 1) as u16);
                        }
                        assert((s.wrapping_sub(pid) == n) == (s == last));
                        assert(asks(pid, blp, s) && s.wrapping_sub(pid) <= n - 1 ==> !at_or_after(
                            s,
                            base,
                        ));
                    }
                },
            }
        } else {
            assert forall|s: u16|
                s.wrapping_sub(pid) == n && #[trigger] asks(pid, blp, s) implies !at_or_after(
                s,
                base,
            ) by {
                assert(s == last);
            }
        }
    }
}

/// Clipping loses no packet at or after `base`, and keeps none before it: where
/// an entry's own `pid` is before `base`, what is left of the entry asks for
/// exactly those packets of it that are not, and nothing is left exactly when
/// there are none.
pub proof fn lemma_clip_exact(pid: u16, blp: u16, base: u16)
    requires
        !at_or_after(pid, base),
    ensures
        match clipped(pid, blp, base) {
            Some((p, b)) => forall|s: u16| #[trigger]
                asks(p, b, s) == (asks(pid, blp, s) && at_or_after(s, base)),
            None => forall|s: u16| #[trigger] asks(pid, blp, s) ==> !at_or_after(s, base),
        },
{
    lemma_clipped_bits(pid, blp, base, 16);
}

/// The packets that an entry asks for by its identifier and the lowest `n`
/// bits, in order.
pub open spec fn low_numbers(pid: u16, blp: u16, n: int) -> Seq<u16>
    decreases n,
{
    if n <= 0 {
        seq![pid]
    } else if bit(blp, n - 1) {
        low_numbers(pid, blp, n - 1).push(pid.wrapping_add(n as u16))
    } else {
        low_numbers(pid, blp, n - 1)
    }
}

/// The packets that some entries ask for, in order.
pub open spec fn numbers(fci: Seq<(u16, u16)>) -> Seq<u16>
    decreases fci.len(),
{
    if fci.len() == 0 {
        Seq::empty()
    } else {
        numbers(fci.drop_last()) + low_numbers(fci.last().0, fci.last().1, 16)
    }
}

/// One key for an SSRC and a sequence number under it.
pub open spec fn nack_key(ssrc: u32, seq: u16) -> u64 {
    (ssrc * 0x1_0000 + seq) as u64
}

/// Within the window of a request at `t`.
pub open spec fn in_window(t: u64, now: u64) -> bool {
    now < t + NACK_DEDUPE_WINDOW
}

/// A packet may be asked for: it was not, within the window.
pub open spec fn may_ask(recent: Map<u64, u64>, ssrc: u32, seq: u16, now: u64) -> bool {
    !(recent.contains_key(nack_key(ssrc, seq)) && in_window(recent[nack_key(ssrc, seq)], now))
}

/// Entries that ask for packet `s` too: in the last one, when it is not far
/// behind its identifier, else in one of its own.
pub open spec fn packed(fci: Seq<(u16, u16)>, s: u16) -> Seq<(u16, u16)> {
    if fci.len() > 0 && newer(s, fci.last().0) && s.wrapping_sub(fci.last().0) <= 16 {
        fci.update(
            fci.len() - 1,
            (fci.last().0, fci.last().1 | (1u16 << ((s.wrapping_sub(fci.last().0) - 1) as u16))),
        )
    } else {
        fci.push((s, 0u16))
    }
}

/// Requests remembered, and the entries that pass.
pub struct Admission {
    pub recent: Map<u64, u64>,
    pub fci: Seq<(u16, u16)>,
}

impl Admission {
    /// After packet `s` was considered.
    pub open spec fn with(self, ssrc: u32, s: u16, now: u64) -> Admission {
        if may_ask(self.recent, ssrc, s, now) {
            Admission {
                recent: self.recent.insert(nack_key(ssrc, s), now),
                fci: packed(self.fci, s),
            }
        } else {
            self
        }
    }

    /// After packets were considered, in order.
    pub open spec fn with_all(self, ssrc: u32, nums: Seq<u16>, now: u64) -> Admission
        decreases nums.len(),
    {
        if nums.len() == 0 {
            self
        } else {
            self.with_all(ssrc, nums.drop_last(), now).with(ssrc, nums.last(), now)
        }
    }
}

/// The requests of which the window is open.
pub open spec fn unexpired(recent: Map<u64, u64>, now: u64) -> Map<u64, u64> {
    recent.restrict(recent.dom().filter(|k: u64| in_window(recent[k], now)))
}

/// What is remembered when a request comes in: all, up to `NACK_LIMITER_MAX`;
/// past it those in their window; and nothing where those are too many.
pub open spec fn purged(recent: Map<u64, u64>, now: u64) -> Map<u64, u64> {
    if recent.len() <= NACK_LIMITER_MAX {
        recent
    } else if unexpired(recent, now).len() <= NACK_LIMITER_MAX {
        unexpired(recent, now)
    } else {
        Map::empty()
    }
}

/// Drops requests for packets that a source was asked for within the window,
/// per source SSRC. The source leg holds it, so that all receivers share it.
pub struct NackLimiter {
    recent: HashMap<u64, u64>,
}

impl View for NackLimiter {
    type V = Map<u64, u64>;

    closed spec fn view(&self) -> Map<u64, u64> {
        self.recent@
    }
}

impl Default for NackLimiter {
    fn default() -> (r: Self)
        ensures
            r@ == Map::<u64, u64>::empty(),
    {
        NackLimiter { recent: HashMap::new() }
    }
}

impl NackLimiter {
    /// Forgets requests whose window has passed.
    fn retain_unexpired(&mut self, now: u64)
        ensures
            final(self)@ == unexpired(old(self)@, now),
    {
        let mut kept: HashMap<u64, u64> = HashMap::new();
        let ghost m = self.recent@;
        for entry in it: self.recent.iter()
            invariant
                m == self.recent@,
                it.seq().len() == m.dom().len(),
                forall|i: int|
                    0 <= i < it.seq().len() ==> m.contains_key(*(#[trigger] it.seq()[i]).0)
                        && m[*it.seq()[i].0] == *it.seq()[i].1,
                forall|k: u64| #[trigger]
                    m.contains_key(k) ==> exists|i: int|
                        0 <= i < it.seq().len() && *(#[trigger] it.seq()[i]).0 == k,
                forall|k: u64| #[trigger]
                    kept@.contains_key(k) ==> m.contains_key(k) && kept@[k] == m[k] && in_window(
                        m[k],
                        now,
                    ),
                forall|i: int|
                    0 <= i < it.index() && in_window(*(#[trigger] it.seq()[i]).1, now)
                        ==> kept@.contains_key(*it.seq()[i].0),
        {
            let (key, at) = entry;
            if now < NACK_DEDUPE_WINDOW || now - NACK_DEDUPE_WINDOW < *at {
                kept.insert(*key, *at);
            }
        }
        assert(kept@ =~= unexpired(m, now));
        self.recent = kept;
    }

    /// Considers one packet.
    fn consider(&mut self, fci: &mut Vec<(u16, u16)>, ssrc: u32, s: u16, now: u64)
        ensures
            ({
                let st = (Admission { recent: old(self)@, fci: old(fci)@ }).with(ssrc, s, now);
                final(self)@ == st.recent && final(fci)@ == st.fci
            }),
    {
        let key: u64 = ssrc as u64 * 0x1_0000 + s as u64;
        if let Some(at) = self.recent.get(&key) {
            if now < NACK_DEDUPE_WINDOW || now - NACK_DEDUPE_WINDOW < *at {
                return ;
            }
        }
        self.recent.insert(key, now);
        if fci.len() > 0 {
            let (p, b) = fci[fci.len() - 1];
            if seq_newer(s, p) && s.wrapping_sub(p) <= 16 {
                let n: usize = fci.len() - 1;
                fci[n] = (p, with_bit(b, s.wrapping_sub(p) - 1));
                return ;
            }
        }
        fci.push((s, 0));
    }

    /// The part of `req` that was not requested within the window, packed into
    /// entries anew and remembered as requested now; `None` if nothing is left.
    pub fn admit_request(&mut self, req: &NackReq, now: u64) -> (r: Option<NackReq>)
        ensures
            ({
                let st = (Admission {
                    recent: purged(old(self)@, now),
                    fci: Seq::empty(),
                }).with_all(req.media_ssrc, numbers(req.fci@), now);
                &&& final(self)@ == st.recent
                &&& match r {
                    Some(q) => st.fci.len() > 0 && q.media_ssrc == req.media_ssrc && q.fci@
                        == st.fci,
                    None => st.fci.len() == 0,
                }
            }),
    {
        if self.recent.len() > NACK_LIMITER_MAX {
            self.retain_unexpired(now);
            if self.recent.len() > NACK_LIMITER_MAX {
                self.recent = HashMap::new();
            }
        }
        let ghost start = Admission { recent: self@, fci: Seq::empty() };
        let mut fci: Vec<(u16, u16)> = Vec::new();
        let mut e: usize = 0;
        while e < req.fci.len()
            invariant
                e <= req.fci@.len(),
                (Admission { recent: self@, fci: fci@ }) == start.with_all(
                    req.media_ssrc,
                    numbers(req.fci@.take(e as int)),
                    now,
                ),
            decreases req.fci@.len() - e,
        {
            let (pid, blp) = req.fci[e];
            let ghost before = numbers(req.fci@.take(e as int));
            self.consider(&mut fci, req.media_ssrc, pid, now);
            assert((before + seq![pid]).drop_last() =~= before);
            let mut i: u16 = 0;
            while i < 16
                invariant
                    i <= 16,
                    (Admission { recent: self@, fci: fci@ }) == start.with_all(
                        req.media_ssrc,
                        before + low_numbers(pid, blp, i as int),
                        now,
                    ),
                decreases 16 - i,
            {
                let ghost nums = before + low_numbers(pid, blp, i as int);
                if has_bit(blp, i) {
                    let s: u16 = pid.wrapping_add(i + 1);
                    self.consider(&mut fci, req.media_ssrc, s, now);
                    let ghost next = before + low_numbers(pid, blp, i + 1);
                    assert(next.drop_last() =~= nums);
                    assert(next.last() == s);
                }
                i += 1;
            }
            assert(req.fci@.take(e + 1).drop_last() =~= req.fci@.take(e as int));
            e += 1;
        }
        assert(req.fci@.take(e as int) =~= req.fci@);
        if fci.len() == 0 {
            None
        } else {
            Some(NackReq { media_ssrc: req.media_ssrc, fci })
        }
    }
}

/// An entry asks for the packets in its list and no others.
pub proof fn lemma_numbers_of_entry(pid: u16, blp: u16, s: u16)
    ensures
        low_numbers(pid, blp, 16).contains(s) == asks(pid, blp, s),
{
    lemma_low_numbers(pid, blp, 16, s);
}

proof fn lemma_low_numbers(pid: u16, blp: u16, n: int, s: u16)
    requires
        0 <= n <= 16,
    ensures
        low_numbers(pid, blp, n).contains(s) == (s == pid || (s.wrapping_sub(pid) <= n && bit(
            blp,
            s.wrapping_sub(pid) - 1,
        ))),
    decreases n,
{
    if n > 0 {
        lemma_low_numbers(pid, blp, n - 1, s);
        let before = low_numbers(pid, blp, n - 1);
        let last = pid.wrapping_add(n as u16);
        assert(before.push(last).contains(s) == (before.contains(s) || s == last)) by {
            if before.contains(s) {
                let i = choose|i: int| 0 <= i < before.len() && before[i] == s;
                assert(before.push(last)[i] == s);
            }
            if s == last {
                assert(before.push(last)[before.len() as int] == s);
            }
        }
        assert((s.wrapping_sub(pid) == n) == (s == last));
    } else {
        assert(seq![pid].contains(s) == (s == pid)) by {
            assert(seq![pid][0] == pid);
        }
    }
}

proof fn lemma_packed(fci: Seq<(u16, u16)>, s: u16, x: u16)
    ensures
        any_asks(packed(fci, s), x) == (any_asks(fci, x) || x == s),
{
    let after = packed(fci, s);
    let n = fci.len() as int;
    if n > 0 && newer(s, fci.last().0) && s.wrapping_sub(fci.last().0) <= 16 {
        let (p, b) = fci.last();
        let k = (s.wrapping_sub(p) - 1) as u16;
        let d = x.wrapping_sub(p) as int - 1;
        if 0 <= d < 16 {
            lemma_set_bit(b, k, d as u16);
        }
        assert(asks(after[n - 1].0, after[n - 1].1, x) == (asks(p, b, x) || x == s));
        if any_asks(fci, x) {
            let i = choose|i: int| 0 <= i < n && #[trigger] asks(fci[i].0, fci[i].1, x);
            assert(asks(after[i].0, after[i].1, x));
        }
        if any_asks(after, x) && x != s {
            let i = choose|i: int| 0 <= i < n && #[trigger] asks(after[i].0, after[i].1, x);
            assert(asks(fci[i].0, fci[i].1, x));
        }
    } else {
        if 0 <= x.wrapping_sub(s) - 1 < 16 {
            lemma_no_bit((x.wrapping_sub(s) - 1) as u16);
        }
        assert(asks(after[n].0, after[n].1, x) == (x == s));
        if any_asks(fci, x) {
            let i = choose|i: int| 0 <= i < n && #[trigger] asks(fci[i].0, fci[i].1, x);
            assert(asks(after[i].0, after[i].1, x));
        }
        if any_asks(after, x) && x != s {
            let i = choose|i: int| 0 <= i < after.len() && #[trigger] asks(
                after[i].0,
                after[i].1,
                x,
            );
            assert(asks(fci[i].0, fci[i].1, x));
        }
    }
}

/// What passes the limiter is exactly what was asked for and may be asked: no
/// packet is lost, and none is added. Each that passes is remembered as asked
/// for now, and what is remembered of others stays.
pub proof fn lemma_passes_exactly(
    recent: Map<u64, u64>,
    ssrc: u32,
    nums: Seq<u16>,
    now: u64,
    x: u16,
)
    ensures
        ({
            let after = (Admission { recent, fci: Seq::empty() }).with_all(ssrc, nums, now);
            let key = nack_key(ssrc, x);
            &&& any_asks(after.fci, x) == (nums.contains(x) && may_ask(recent, ssrc, x, now))
            &&& nums.contains(x) && may_ask(recent, ssrc, x, now) ==> after.recent.contains_key(key)
                && after.recent[key] == now
            &&& !(nums.contains(x) && may_ask(recent, ssrc, x, now)) ==> after.recent.contains_key(
                key,
            ) == recent.contains_key(key) && after.recent[key] == recent[key]
        }),
    decreases nums.len(),
{
    if nums.len() > 0 {
        let rest = nums.drop_last();
        let s = nums.last();
        lemma_passes_exactly(recent, ssrc, rest, now, x);
        lemma_passes_exactly(recent, ssrc, rest, now, s);
        let before = (Admission { recent, fci: Seq::empty() }).with_all(ssrc, rest, now);
        lemma_packed(before.fci, s, x);
        assert(nums.contains(x) == (rest.contains(x) || x == s)) by {
            if rest.contains(x) {
                let i = choose|i: int| 0 <= i < rest.len() && rest[i] == x;
                assert(nums[i] == x);
            }
            if nums.contains(x) && x != s {
                let i = choose|i: int| 0 <= i < nums.len() && nums[i] == x;
                assert(rest[i] == x);
            }
            assert(nums[nums.len() - 1] == s);
        }
        assert(x != s ==> nack_key(ssrc, x) != nack_key(ssrc, s));
    } else {
        assert(!nums.contains(x));
    }
}

/// A packet that passed does not pass again within the window, whoever asks.
pub proof fn lemma_no_repeat(
    recent: Map<u64, u64>,
    ssrc: u32,
    first: Seq<u16>,
    second: Seq<u16>,
    now: u64,
    later: u64,
    x: u16,
)
    requires
        now <= later < now + NACK_DEDUPE_WINDOW,
    ensures
        ({
            let a = (Admission { recent, fci: Seq::empty() }).with_all(ssrc, first, now);
            let b = (Admission { recent: a.recent, fci: Seq::empty() }).with_all(
                ssrc,
                second,
                later,
            );
            any_asks(a.fci, x) ==> !any_asks(b.fci, x)
        }),
{
    let a = (Admission { recent, fci: Seq::empty() }).with_all(ssrc, first, now);
    lemma_passes_exactly(recent, ssrc, first, now, x);
    lemma_passes_exactly(a.recent, ssrc, second, later, x);
}

/// A packet whose last request is out of its window passes again.
pub proof fn lemma_window_expires(
    recent: Map<u64, u64>,
    ssrc: u32,
    nums: Seq<u16>,
    now: u64,
    x: u16,
)
    requires
        nums.contains(x),
        recent.contains_key(nack_key(ssrc, x)),
        recent[nack_key(ssrc, x)] + NACK_DEDUPE_WINDOW <= now,
    ensures
        any_asks((Admission { recent, fci: Seq::empty() }).with_all(ssrc, nums, now).fci, x),
{
    lemma_passes_exactly(recent, ssrc, nums, now, x);
}

/// Purging forgets no request in its window, unless too many are.
pub proof fn lemma_purge_keeps_window(recent: Map<u64, u64>, now: u64, key: u64)
    requires
        recent.dom().finite(),
        unexpired(recent, now).len() <= NACK_LIMITER_MAX,
        recent.contains_key(key),
        in_window(recent[key], now),
    ensures
        purged(recent, now).contains_key(key),
        purged(recent, now)[key] == recent[key],
        purged(recent, now).len() <= NACK_LIMITER_MAX,
{
}

proof fn lemma_with_all_concat(ad: Admission, ssrc: u32, a: Seq<u16>, b: Seq<u16>, now: u64)
    ensures
        ad.with_all(ssrc, a + b, now) == ad.with_all(ssrc, a, now).with_all(ssrc, b, now),
    decreases b.len(),
{
    if b.len() > 0 {
        lemma_with_all_concat(ad, ssrc, a, b.drop_last(), now);
        assert((a + b).drop_last() =~= a + b.drop_last());
        assert((a + b).last() == b.last());
    } else {
        assert(a + b =~= a);
    }
}

/// What of one entry passes takes one entry at most.
proof fn lemma_entry_repacks_into_one(
    ad: Admission,
    ssrc: u32,
    pid: u16,
    blp: u16,
    n: int,
    now: u64,
)
    requires
        0 <= n <= 16,
    ensures
        ({
            let after = ad.with_all(ssrc, low_numbers(pid, blp, n), now).fci;
            &&& after.len() == ad.fci.len() || after.len() == ad.fci.len() + 1
            &&& after.len() > ad.fci.len() ==> after.last().0.wrapping_sub(pid) <= n
        }),
    decreases n,
{
    let nums = low_numbers(pid, blp, n);
    if n == 0 {
        let none = nums.drop_last();
        assert(none =~= Seq::<u16>::empty());
        assert(nums.last() == pid);
        assert(ad.with_all(ssrc, none, now) == ad);
        assert(ad.with_all(ssrc, nums, now) == ad.with(ssrc, pid, now));
    } else {
        lemma_entry_repacks_into_one(ad, ssrc, pid, blp, n - 1, now);
        let before = low_numbers(pid, blp, n - 1);
        let mid = ad.with_all(ssrc, before, now);
        if nums.len() > before.len() {
            let s = pid.wrapping_add(n as u16);
            assert(nums.drop_last() =~= before);
            assert(nums.last() == s);
            assert(ad.with_all(ssrc, nums, now) == mid.with(ssrc, s, now));
            if mid.fci.len() > ad.fci.len() {
                let q = mid.fci.last().0;
                assert(newer(s, q) && s.wrapping_sub(q) <= 16);
            }
        } else {
            assert(nums =~= before);
        }
    }
}

/// What of some entries passes takes no more entries than they are.
pub proof fn lemma_repacks_into_no_more(
    ad: Admission,
    ssrc: u32,
    fci: Seq<(u16, u16)>,
    now: u64,
)
    ensures
        ad.with_all(ssrc, numbers(fci), now).fci.len() <= ad.fci.len() + fci.len(),
    decreases fci.len(),
{
    if fci.len() > 0 {
        let front = fci.drop_last();
        let last = low_numbers(fci.last().0, fci.last().1, 16);
        lemma_repacks_into_no_more(ad, ssrc, front, now);
        lemma_with_all_concat(ad, ssrc, numbers(front), last, now);
        lemma_entry_repacks_into_one(
            ad.with_all(ssrc, numbers(front), now),
            ssrc,
            fci.last().0,
            fci.last().1,
            16,
            now,
        );
    }
}

} // verus!
