//! What holds of a leg's outbound state at all times.
use vstd::prelude::*;

use crate::relay::leg::Leg;
use crate::relay::outbound::{
    first_free, first_stream, least_recent, lowest, rank, routes_of, search, stream_routes,
};
use crate::relay::outbound::{lemma_first_source, Out, Source, Stream};
use crate::relay::outbound::{MAX_SOURCES, MAX_STREAMS_PER_SOURCE};
use crate::relay::stamp::{reaped, reaps, stamped};

verus! {

impl Out {
    /// The sources are in the order of their ids, each once.
    pub open spec fn sorted(self) -> bool {
        forall|i: int, j: int|
            0 <= i < j < self.sources.len() ==> (#[trigger] self.sources[i]).src < (
            #[trigger] self.sources[j]).src
    }

    /// No source has more streams than it may, or two for one SSRC of its own.
    pub open spec fn bounded(self) -> bool {
        &&& forall|i: int|
            0 <= i < self.sources.len() ==> (#[trigger] self.sources[i]).streams.len()
                <= MAX_STREAMS_PER_SOURCE
        &&& forall|i: int, j: int, k: int|
            0 <= i < self.sources.len() && 0 <= j < self.sources[i].streams.len() && 0 <= k
                < self.sources[i].streams.len() && (#[trigger] self.sources[i].streams[j]).src_ssrc
                == (#[trigger] self.sources[i].streams[k]).src_ssrc ==> j == k
    }

    /// No outbound SSRC is used or waiting twice.
    pub open spec fn distinct(self) -> bool {
        &&& forall|i: int, j: int, k: int, l: int|
            0 <= i < self.sources.len() && 0 <= j < self.sources[i].streams.len() && 0 <= k
                < self.sources.len() && 0 <= l < self.sources[k].streams.len() && (
            #[trigger] self.sources[i].streams[j]).ssrc == (
            #[trigger] self.sources[k].streams[l]).ssrc ==> i == k && j == l
        &&& forall|a: int, b: int|
            0 <= a < self.free.len() && 0 <= b < self.free.len() && (#[trigger] self.free[a]).0 == (
            #[trigger] self.free[b]).0 ==> a == b
        &&& forall|i: int, j: int, a: int|
            0 <= i < self.sources.len() && 0 <= j < self.sources[i].streams.len() && 0 <= a
                < self.free.len() ==> (#[trigger] self.sources[i].streams[j]).ssrc != (
            #[trigger] self.free[a]).0
    }

    /// What holds at all times.
    pub open spec fn inv(self) -> bool {
        self.sorted() && self.bounded() && self.distinct()
    }
}

/// Each source is where it is looked for.
pub(crate) proof fn lemma_at_index(o: Out, i: int)
    requires
        o.sorted(),
        0 <= i < o.sources.len(),
    ensures
        o.index_of(o.sources[i].src) == Some(i),
{
    let src = o.sources[i].src;
    lemma_first_source(o.sources, src, 0);
    match o.index_of(src) {
        Some(j) => {
            if j < i {
                assert(o.sources[j].src < o.sources[i].src);
            } else if j > i {
                assert(o.sources[i].src < o.sources[j].src);
            }
        },
        None => {
            assert(o.sources[i].src != src);
        },
    }
}

pub(crate) proof fn lemma_first_stream(streams: Seq<Stream>, src_ssrc: u32, at: int)
    requires
        0 <= at,
    ensures
        match first_stream(streams, src_ssrc, at) {
            Some(i) => at <= i < streams.len() && streams[i].src_ssrc == src_ssrc,
            None => forall|j: int|
                at <= j < streams.len() ==> (#[trigger] streams[j]).src_ssrc != src_ssrc,
        },
    decreases streams.len() - at,
{
    if at < streams.len() && streams[at].src_ssrc != src_ssrc {
        lemma_first_stream(streams, src_ssrc, at + 1);
    }
}

pub(crate) proof fn lemma_first_free(free: Seq<(u32, Option<u16>)>, ssrc: u32, at: int)
    requires
        0 <= at,
    ensures
        match first_free(free, ssrc, at) {
            Some(i) => at <= i < free.len() && free[i].0 == ssrc,
            None => forall|j: int| at <= j < free.len() ==> (#[trigger] free[j]).0 != ssrc,
        },
    decreases free.len() - at,
{
    if at < free.len() && free[at].0 != ssrc {
        lemma_first_free(free, ssrc, at + 1);
    }
}

/// The stream that gives up its place is not the main one, has been quiet for at
/// least as long as every other that is not, and is the first of those that have.
pub proof fn lemma_least_recent(streams: Seq<Stream>)
    requires
        streams.len() >= 2,
    ensures
        1 <= least_recent(streams, 1, 2) < streams.len(),
        forall|j: int|
            1 <= j < streams.len() ==> streams[least_recent(streams, 1, 2)].last <= (
            #[trigger] streams[j]).last,
        forall|j: int|
            1 <= j < least_recent(streams, 1, 2) ==> streams[least_recent(streams, 1, 2)].last < (
            #[trigger] streams[j]).last,
{
    lemma_least_recent_from(streams, 1, 2);
}

proof fn lemma_least_recent_from(streams: Seq<Stream>, best: int, at: int)
    requires
        1 <= best < at <= streams.len(),
        forall|j: int| 1 <= j < at ==> streams[best].last <= (#[trigger] streams[j]).last,
        forall|j: int| 1 <= j < best ==> streams[best].last < (#[trigger] streams[j]).last,
    ensures
        ({
            let r = least_recent(streams, best, at);
            &&& 1 <= r < streams.len()
            &&& forall|j: int|
                1 <= j < streams.len() ==> streams[r].last <= (#[trigger] streams[j]).last
            &&& forall|j: int| 1 <= j < r ==> streams[r].last < (#[trigger] streams[j]).last
        }),
    decreases streams.len() - at,
{
    if at < streams.len() {
        if streams[at].last < streams[best].last {
            lemma_least_recent_from(streams, at, at + 1);
        } else {
            lemma_least_recent_from(streams, best, at + 1);
        }
    }
}

pub(crate) proof fn lemma_rank(sources: Seq<Source>, src: u64)
    requires
        forall|i: int, j: int|
            0 <= i < j < sources.len() ==> (#[trigger] sources[i]).src < (
            #[trigger] sources[j]).src,
    ensures
        0 <= rank(sources, src) <= sources.len(),
        forall|i: int| 0 <= i < rank(sources, src) ==> (#[trigger] sources[i]).src < src,
        forall|i: int|
            rank(sources, src) <= i < sources.len() ==> (#[trigger] sources[i]).src >= src,
    decreases sources.len(),
{
    if sources.len() > 0 && sources[0].src < src {
        let rest = sources.drop_first();
        assert forall|i: int, j: int| 0 <= i < j < rest.len() implies (#[trigger] rest[i]).src < (
        #[trigger] rest[j]).src by {
            assert(sources[i + 1].src < sources[j + 1].src);
        }
        lemma_rank(rest, src);
        assert forall|i: int| 0 <= i < rank(sources, src) implies (#[trigger] sources[i]).src
            < src by {
            if i > 0 {
                assert(rest[i - 1] == sources[i]);
            }
        }
        assert forall|i: int| rank(sources, src) <= i < sources.len() implies (
        #[trigger] sources[i]).src >= src by {
            assert(rest[i - 1] == sources[i]);
        }
    } else if sources.len() > 0 {
        assert forall|i: int| 0 <= i < sources.len() implies (#[trigger] sources[i]).src
            >= src by {
            if i > 0 {
                assert(sources[0].src < sources[i].src);
            }
        }
    }
}

proof fn lemma_search(o: Out, rng: u32, fuel: nat)
    ensures
        search(o, rng, fuel).1 matches Some(c) ==> c != 0 && c != o.primary && !o.in_use(c),
    decreases fuel,
{
    let c = crate::relay::outbound::xorshift(rng);
    if c != 0 && !(c != o.primary && !o.in_use(c)) && fuel > 0 {
        lemma_search(o, c, (fuel - 1) as nat);
    }
}

/// The SSRCs of some sources' streams, as numbers.
spec fn ssrcs_of(sources: Seq<Source>) -> Seq<int>
    decreases sources.len(),
{
    if sources.len() == 0 {
        Seq::empty()
    } else {
        ssrcs_of(sources.drop_last()) + sources.last().streams.map_values(
            |t: Stream| t.ssrc as int,
        )
    }
}

proof fn lemma_ssrcs_of(sources: Seq<Source>)
    requires
        forall|i: int|
            0 <= i < sources.len() ==> (#[trigger] sources[i]).streams.len()
                <= MAX_STREAMS_PER_SOURCE,
    ensures
        ssrcs_of(sources).len() <= 8 * sources.len(),
        forall|i: int, j: int|
            0 <= i < sources.len() && 0 <= j < sources[i].streams.len() ==> ssrcs_of(
                sources,
            ).contains((#[trigger] sources[i].streams[j]).ssrc as int),
    decreases sources.len(),
{
    if sources.len() > 0 {
        let front = sources.drop_last();
        let last = sources.last().streams.map_values(|t: Stream| t.ssrc as int);
        assert forall|i: int| 0 <= i < front.len() implies (#[trigger] front[i]).streams.len()
            <= MAX_STREAMS_PER_SOURCE by {
            assert(front[i] == sources[i]);
        }
        lemma_ssrcs_of(front);
        assert(sources[sources.len() - 1].streams.len() <= MAX_STREAMS_PER_SOURCE);
        assert forall|i: int, j: int|
            0 <= i < sources.len() && 0 <= j < sources[i].streams.len() implies ssrcs_of(
            sources,
        ).contains((#[trigger] sources[i].streams[j]).ssrc as int) by {
            let c = sources[i].streams[j].ssrc as int;
            if i < front.len() {
                assert(front[i].streams[j].ssrc == c);
                let k = choose|k: int|
                    0 <= k < ssrcs_of(front).len() && ssrcs_of(front)[k] == c;
                assert(ssrcs_of(sources)[k] == c);
            } else {
                assert(last[j] == c);
                assert(ssrcs_of(sources)[ssrcs_of(front).len() + j] == c);
            }
        }
    }
}

/// The lowest number is one to take, unless there is none.
proof fn lemma_lowest(o: Out, c: u32)
    ensures
        ({
            let l = lowest(o, c);
            &&& l >= c
            &&& (l != o.primary && !o.in_use(l)) || forall|k: u32|
                c <= k ==> k == o.primary || #[trigger] o.in_use(k)
        }),
    decreases 0xFFFF_FFFF - c,
{
    if !(c == 0xFFFF_FFFF || (c != o.primary && !o.in_use(c))) {
        lemma_lowest(o, (c + 1) as u32);
    }
}

/// With an empty pool and no more sources than there may be, an SSRC is left.
proof fn lemma_lowest_is_unused(o: Out)
    requires
        o.bounded(),
        o.free.len() == 0,
        o.sources.len() <= MAX_SOURCES,
    ensures
        lowest(o, 1) != 0,
        lowest(o, 1) != o.primary,
        !o.in_use(lowest(o, 1)),
{
    lemma_lowest(o, 1);
    let l = lowest(o, 1);
    if l == o.primary || o.in_use(l) {
        lemma_ssrcs_of(o.sources);
        let used = ssrcs_of(o.sources).push(o.primary as int);
        let all = vstd::set_lib::set_int_range(1, 0x1_0000_0000);
        vstd::set_lib::lemma_int_range(1, 0x1_0000_0000);
        vstd::seq_lib::seq_to_set_is_finite(used);
        used.lemma_cardinality_of_set();
        assert(all.subset_of(used.to_set())) by {
            assert forall|n: int| #[trigger] all.contains(n) implies used.contains(n) by {
                let k = n as u32;
                if k == o.primary {
                    assert(used[used.len() - 1] == n);
                } else {
                    assert(o.in_use(k));
                    assert(!o.has_free(k));
                    let (i, j) = choose|i: int, j: int|
                        0 <= i < o.sources.len() && 0 <= j < o.sources[i].streams.len() && (
                        #[trigger] o.sources[i].streams[j]).ssrc == k;
                    assert(ssrcs_of(o.sources).contains(o.sources[i].streams[j].ssrc as int));
                    let m = choose|m: int|
                        0 <= m < ssrcs_of(o.sources).len() && ssrcs_of(o.sources)[m] == n;
                    assert(used[m] == n);
                }
            }
        }
        vstd::set_lib::lemma_len_subset(all, used.to_set());
    }
}

/// There is always an SSRC for a new stream, and it is no other stream's. It is
/// the leg's own where that is in the pool; else the last of the pool, with the
/// highest number used under it, where the pool is not empty; else one that is
/// not zero, not the leg's own and under which nothing was sent. The streams and
/// the rest of the pool stay, and all SSRCs stay distinct.
pub proof fn lemma_allocated(o: Out)
    requires
        o.inv(),
        o.sources.len() <= MAX_SOURCES,
    ensures
        ({
            let (after, (ssrc, highest)) = o.allocated();
            &&& after.sources == o.sources
            &&& after.primary == o.primary
            &&& after.inv()
            &&& !after.in_use(ssrc)
            &&& o.has_free(o.primary) ==> ssrc == o.primary
            &&& o.free.len() > 0 ==> o.free.contains((ssrc, highest)) && after.free.len()
                == o.free.len() - 1
            &&& o.free.len() > 0 && !o.has_free(o.primary) ==> (ssrc, highest) == o.free.last()
                && after.free == o.free.drop_last()
            &&& o.free.len() == 0 ==> highest is None && ssrc != 0 && ssrc != o.primary
                && after.free == o.free
            &&& forall|c: u32| c != ssrc ==> #[trigger] after.in_use(c) == o.in_use(c)
        }),
{
    let (after, (ssrc, highest)) = o.allocated();
    lemma_allocated_rest(o);
    lemma_first_free(o.free, o.primary, 0);
    if first_free(o.free, o.primary, 0) is None && o.free.len() == 0 {
        lemma_search(o, o.rng, 0xFFFF_FFFE);
        lemma_lowest_is_unused(o);
        assert(after.free =~= o.free);
    }
    assert forall|c: u32| c != ssrc implies #[trigger] after.in_use(c) == o.in_use(c) by {
        assert(after.sends(c) == o.sends(c));
        if o.free.len() > 0 {
            let taken = match first_free(o.free, o.primary, 0) {
                Some(i) => i,
                None => o.free.len() - 1,
            };
            if o.has_free(c) {
                let a = choose|a: int| 0 <= a < o.free.len() && (#[trigger] o.free[a]).0 == c;
                let b = if a == o.free.len() - 1 {
                    taken
                } else {
                    a
                };
                assert(after.free[b].0 == c);
            }
            if after.has_free(c) {
                let a = choose|a: int|
                    0 <= a < after.free.len() && (#[trigger] after.free[a]).0 == c;
                let b = if a == taken {
                    o.free.len() - 1
                } else {
                    a
                };
                assert(o.free[b].0 == c);
            }
        }
    }
    if o.free.len() > 0 {
        let taken = match first_free(o.free, o.primary, 0) {
            Some(i) => i,
            None => o.free.len() - 1,
        };
        assert(o.free[taken] == (ssrc, highest));
    }
}

/// What is allocated is not in use after, and the rest stays distinct.
proof fn lemma_allocated_rest(o: Out)
    requires
        o.inv(),
        o.sources.len() <= MAX_SOURCES,
    ensures
        ({
            let (after, (ssrc, _)) = o.allocated();
            &&& after.inv()
            &&& !after.in_use(ssrc)
        }),
{
    let (after, got) = o.allocated();
    lemma_first_free(o.free, o.primary, 0);
    match first_free(o.free, o.primary, 0) {
        Some(i) => {
            let n = o.free.len() - 1;
            assert forall|a: int| 0 <= a < after.free.len() implies #[trigger] after.free[a]
                == o.free[if a == i {
                n
            } else {
                a
            }] by {}
            let ssrc = o.free[i].0;
            assert(!after.has_free(ssrc)) by {
                if after.has_free(ssrc) {
                    let a = choose|a: int| 0 <= a < after.free.len() && (#[trigger] after.free[a]).0
                        == ssrc;
                    let b = if a == i {
                        n
                    } else {
                        a
                    };
                    assert(o.free[b].0 == o.free[i].0);
                }
            }
            assert forall|a: int, b: int|
                0 <= a < after.free.len() && 0 <= b < after.free.len() && (
                #[trigger] after.free[a]).0 == (#[trigger] after.free[b]).0 implies a == b by {
                let x = if a == i {
                    n
                } else {
                    a
                };
                let y = if b == i {
                    n
                } else {
                    b
                };
                assert(o.free[x].0 == o.free[y].0);
            }
            assert forall|s: int, j: int, a: int|
                0 <= s < after.sources.len() && 0 <= j < after.sources[s].streams.len() && 0 <= a
                    < after.free.len() implies (#[trigger] after.sources[s].streams[j]).ssrc != (
            #[trigger] after.free[a]).0 by {
                let x = if a == i {
                    n
                } else {
                    a
                };
                assert(o.sources[s].streams[j].ssrc != o.free[x].0);
            }
            assert(!after.sends(ssrc)) by {
                if after.sends(ssrc) {
                    let (s, j) = choose|s: int, j: int|
                        0 <= s < after.sources.len() && 0 <= j < after.sources[s].streams.len() && (
                        #[trigger] after.sources[s].streams[j]).ssrc == ssrc;
                    assert(o.sources[s].streams[j].ssrc != o.free[i].0);
                }
            }
        },
        None => {
            if o.free.len() > 0 {
                let n = o.free.len() - 1;
                let ssrc = o.free[n].0;
                assert forall|a: int| 0 <= a < after.free.len() implies #[trigger] after.free[a]
                    == o.free[a] by {}
                assert(!after.has_free(ssrc)) by {
                    if after.has_free(ssrc) {
                        let a = choose|a: int|
                            0 <= a < after.free.len() && (#[trigger] after.free[a]).0 == ssrc;
                        assert(o.free[a].0 == o.free[n].0);
                    }
                }
                assert(!after.sends(ssrc)) by {
                    if after.sends(ssrc) {
                        let (s, j) = choose|s: int, j: int|
                            0 <= s < after.sources.len() && 0 <= j < after.sources[s].streams.len()
                                && (#[trigger] after.sources[s].streams[j]).ssrc == ssrc;
                        assert(o.sources[s].streams[j].ssrc != o.free[n].0);
                    }
                }
            } else {
                lemma_search(o, o.rng, 0xFFFF_FFFE);
                lemma_lowest_is_unused(o);
                assert(o.in_use(got.0) == after.in_use(got.0));
            }
        },
    }
}

/// Streams of one source are replaced by others under the same SSRCs.
proof fn lemma_same_ssrcs(o: Out, i: int, streams: Seq<Stream>)
    requires
        o.inv(),
        0 <= i < o.sources.len(),
        streams.len() == o.sources[i].streams.len(),
        forall|j: int|
            0 <= j < streams.len() ==> (#[trigger] streams[j]).ssrc
                == o.sources[i].streams[j].ssrc,
        forall|j: int, k: int|
            0 <= j < streams.len() && 0 <= k < streams.len() && (#[trigger] streams[j]).src_ssrc
                == (#[trigger] streams[k]).src_ssrc ==> j == k,
    ensures
        o.with_streams(i, streams).inv(),
{
    let after = o.with_streams(i, streams);
    assert forall|s: int, j: int|
        0 <= s < after.sources.len() && 0 <= j < after.sources[s].streams.len() implies (
    #[trigger] after.sources[s].streams[j]).ssrc == o.sources[s].streams[j].ssrc by {
        if s == i {
            assert(streams[j].ssrc == o.sources[i].streams[j].ssrc);
        }
    }
    assert forall|s: int| 0 <= s < after.sources.len() implies (
    #[trigger] after.sources[s]).streams.len() == o.sources[s].streams.len()
        && after.sources[s].src == o.sources[s].src by {}
    assert(after.bounded()) by {
        assert forall|s: int| 0 <= s < after.sources.len() implies (
        #[trigger] after.sources[s]).streams.len() <= MAX_STREAMS_PER_SOURCE by {
            assert(o.sources[s].streams.len() <= MAX_STREAMS_PER_SOURCE);
        }
        assert forall|s: int, j: int, k: int|
            0 <= s < after.sources.len() && 0 <= j < after.sources[s].streams.len() && 0 <= k
                < after.sources[s].streams.len() && (
            #[trigger] after.sources[s].streams[j]).src_ssrc == (
            #[trigger] after.sources[s].streams[k]).src_ssrc implies j == k by {
            if s == i {
                assert(streams[j].src_ssrc == streams[k].src_ssrc);
            } else {
                assert(o.sources[s].streams[j].src_ssrc == o.sources[s].streams[k].src_ssrc);
            }
        }
    }
    assert(after.sorted()) by {
        assert forall|s: int, t: int| 0 <= s < t < after.sources.len() implies (
        #[trigger] after.sources[s]).src < (#[trigger] after.sources[t]).src by {
            assert(o.sources[s].src < o.sources[t].src);
        }
    }
    assert(after.distinct()) by {
        assert forall|s: int, j: int, k: int, l: int|
            0 <= s < after.sources.len() && 0 <= j < after.sources[s].streams.len() && 0 <= k
                < after.sources.len() && 0 <= l < after.sources[k].streams.len() && (
            #[trigger] after.sources[s].streams[j]).ssrc == (
            #[trigger] after.sources[k].streams[l]).ssrc implies s == k && j == l by {
            assert(o.sources[s].streams[j].ssrc == o.sources[k].streams[l].ssrc);
        }
        assert forall|s: int, j: int, a: int|
            0 <= s < after.sources.len() && 0 <= j < after.sources[s].streams.len() && 0 <= a
                < after.free.len() implies (#[trigger] after.sources[s].streams[j]).ssrc != (
        #[trigger] after.free[a]).0 by {
            assert(o.sources[s].streams[j].ssrc != o.free[a].0);
        }
    }
}

/// A stream ends.
pub(crate) proof fn lemma_without_stream(o: Out, i: int, k: int)
    requires
        o.inv(),
        0 <= i < o.sources.len(),
        0 <= k < o.sources[i].streams.len(),
    ensures
        o.without_stream(i, k).inv(),
{
    let after = o.without_stream(i, k);
    let n = o.free.len() as int;
    let ended = o.sources[i].streams[k];
    assert forall|s: int, j: int|
        0 <= s < after.sources.len() && 0 <= j
            < after.sources[s].streams.len() implies #[trigger] after.sources[s].streams[j]
        == o.sources[s].streams[if s == i && j >= k {
        j + 1
    } else {
        j
    }] by {}
    assert forall|s: int| 0 <= s < after.sources.len() implies (#[trigger] after.sources[s]).src
        == o.sources[s].src && after.sources[s].streams.len() <= o.sources[s].streams.len() by {}
    assert forall|a: int| 0 <= a < n implies #[trigger] after.free[a] == o.free[a] by {}
    assert(after.free[n].0 == ended.ssrc);
    assert(after.sorted()) by {
        assert forall|s: int, t: int| 0 <= s < t < after.sources.len() implies (
        #[trigger] after.sources[s]).src < (#[trigger] after.sources[t]).src by {
            assert(o.sources[s].src < o.sources[t].src);
        }
    }
    assert(after.bounded()) by {
        assert forall|s: int| 0 <= s < after.sources.len() implies (
        #[trigger] after.sources[s]).streams.len() <= MAX_STREAMS_PER_SOURCE by {
            assert(o.sources[s].streams.len() <= MAX_STREAMS_PER_SOURCE);
        }
        assert forall|s: int, j: int, l: int|
            0 <= s < after.sources.len() && 0 <= j < after.sources[s].streams.len() && 0 <= l
                < after.sources[s].streams.len() && (
            #[trigger] after.sources[s].streams[j]).src_ssrc == (
            #[trigger] after.sources[s].streams[l]).src_ssrc implies j == l by {
            let x = if s == i && j >= k {
                j + 1
            } else {
                j
            };
            let y = if s == i && l >= k {
                l + 1
            } else {
                l
            };
            assert(o.sources[s].streams[x].src_ssrc == o.sources[s].streams[y].src_ssrc);
        }
    }
    assert(after.distinct()) by {
        assert forall|s: int, j: int, t: int, l: int|
            0 <= s < after.sources.len() && 0 <= j < after.sources[s].streams.len() && 0 <= t
                < after.sources.len() && 0 <= l < after.sources[t].streams.len() && (
            #[trigger] after.sources[s].streams[j]).ssrc == (
            #[trigger] after.sources[t].streams[l]).ssrc implies s == t && j == l by {
            let x = if s == i && j >= k {
                j + 1
            } else {
                j
            };
            let y = if t == i && l >= k {
                l + 1
            } else {
                l
            };
            assert(o.sources[s].streams[x].ssrc == o.sources[t].streams[y].ssrc);
        }
        assert forall|a: int, b: int|
            0 <= a < after.free.len() && 0 <= b < after.free.len() && (#[trigger] after.free[a]).0
                == (#[trigger] after.free[b]).0 implies a == b by {
            if a < n && b < n {
                assert(o.free[a].0 == o.free[b].0);
            } else if a < n {
                assert(o.sources[i].streams[k].ssrc != o.free[a].0);
            } else if b < n {
                assert(o.sources[i].streams[k].ssrc != o.free[b].0);
            }
        }
        assert forall|s: int, j: int, a: int|
            0 <= s < after.sources.len() && 0 <= j < after.sources[s].streams.len() && 0 <= a
                < after.free.len() implies (#[trigger] after.sources[s].streams[j]).ssrc != (
        #[trigger] after.free[a]).0 by {
            let x = if s == i && j >= k {
                j + 1
            } else {
                j
            };
            if a < n {
                assert(o.sources[s].streams[x].ssrc != o.free[a].0);
            } else if o.sources[s].streams[x].ssrc == ended.ssrc {
                assert(o.sources[s].streams[x].ssrc == o.sources[i].streams[k].ssrc);
            }
        }
    }
}

/// A stream starts.
proof fn lemma_with_new_stream(o: Out, i: int, src_ssrc: u32, now: u64)
    requires
        o.inv(),
        o.sources.len() <= MAX_SOURCES,
        0 <= i < o.sources.len(),
        o.sources[i].streams.len() < MAX_STREAMS_PER_SOURCE,
        forall|j: int|
            0 <= j < o.sources[i].streams.len() ==> (#[trigger] o.sources[i].streams[j]).src_ssrc
                != src_ssrc,
    ensures
        o.with_new_stream(i, src_ssrc, now).0.inv(),
{
    lemma_allocated(o);
    let (mid, (ssrc, highest)) = o.allocated();
    let after = o.with_new_stream(i, src_ssrc, now).0;
    let n = o.sources[i].streams.len() as int;
    assert(after.free == mid.free);
    assert forall|s: int, j: int|
        0 <= s < after.sources.len() && 0 <= j < after.sources[s].streams.len() && !(s == i && j
            == n) implies #[trigger] after.sources[s].streams[j]
        == mid.sources[s].streams[j] by {}
    let new = after.sources[i].streams[n];
    assert(new.ssrc == ssrc && new.src_ssrc == src_ssrc);
    assert forall|s: int| 0 <= s < after.sources.len() implies (
    #[trigger] after.sources[s]).src == mid.sources[s].src by {}
    assert(after.sorted()) by {
        assert forall|s: int, t: int| 0 <= s < t < after.sources.len() implies (
        #[trigger] after.sources[s]).src < (#[trigger] after.sources[t]).src by {
            assert(mid.sources[s].src < mid.sources[t].src);
        }
    }
    assert(after.bounded()) by {
        assert forall|s: int| 0 <= s < after.sources.len() implies (
        #[trigger] after.sources[s]).streams.len() <= MAX_STREAMS_PER_SOURCE by {
            assert(mid.sources[s].streams.len() <= MAX_STREAMS_PER_SOURCE);
        }
        assert forall|s: int, j: int, k: int|
            0 <= s < after.sources.len() && 0 <= j < after.sources[s].streams.len() && 0 <= k
                < after.sources[s].streams.len() && (
            #[trigger] after.sources[s].streams[j]).src_ssrc == (
            #[trigger] after.sources[s].streams[k]).src_ssrc implies j == k by {
            if s == i && (j == n || k == n) {
                if j != n {
                    assert(o.sources[i].streams[j].src_ssrc != src_ssrc);
                }
                if k != n {
                    assert(o.sources[i].streams[k].src_ssrc != src_ssrc);
                }
            } else {
                assert(mid.sources[s].streams[j].src_ssrc
                    == mid.sources[s].streams[k].src_ssrc);
            }
        }
    }
    assert(after.distinct()) by {
        assert forall|s: int, j: int|
            0 <= s < after.sources.len() && 0 <= j < after.sources[s].streams.len() && !(s == i
                && j == n) implies (#[trigger] after.sources[s].streams[j]).ssrc != ssrc by {
            assert(mid.sources[s].streams[j].ssrc != ssrc);
        }
        assert forall|s: int, j: int, k: int, l: int|
            0 <= s < after.sources.len() && 0 <= j < after.sources[s].streams.len() && 0 <= k
                < after.sources.len() && 0 <= l < after.sources[k].streams.len() && (
            #[trigger] after.sources[s].streams[j]).ssrc == (
            #[trigger] after.sources[k].streams[l]).ssrc implies s == k && j == l by {
            if !(s == i && j == n) && !(k == i && l == n) {
                assert(mid.sources[s].streams[j].ssrc == mid.sources[k].streams[l].ssrc);
            }
        }
        assert forall|a: int, b: int|
            0 <= a < after.free.len() && 0 <= b < after.free.len() && (
            #[trigger] after.free[a]).0 == (#[trigger] after.free[b]).0 implies a == b by {
            assert(mid.free[a].0 == mid.free[b].0);
        }
        assert forall|s: int, j: int, a: int|
            0 <= s < after.sources.len() && 0 <= j < after.sources[s].streams.len() && 0 <= a
                < after.free.len() implies (#[trigger] after.sources[s].streams[j]).ssrc != (
        #[trigger] after.free[a]).0 by {
            if s == i && j == n {
                assert(mid.free[a].0 != ssrc);
            } else {
                assert(mid.sources[s].streams[j].ssrc != mid.free[a].0);
            }
        }
    }
}

/// A source leaves.
proof fn lemma_without(o: Out, src: u64)
    requires
        o.inv(),
    ensures
        o.without(src).inv(),
        o.without(src).index_of(src) is None,
        forall|id: u64| o.index_of(id) is None ==> #[trigger] o.without(src).index_of(id) is None,
        o.without(src).primary == o.primary,
        o.without(src).sources.len() <= o.sources.len(),
        o.without(src).sources.len() == o.sources.len() ==> o.without(src) == o,
{
    let after = o.without(src);
    lemma_first_source(o.sources, src, 0);
    lemma_first_source(after.sources, src, 0);
    if let Some(i) = o.index_of(src) {
        let n = o.free.len() as int;
        let s = o.sources[i];
        assert forall|a: int| 0 <= a < after.sources.len() implies #[trigger] after.sources[a]
            == o.sources[if a >= i {
            a + 1
        } else {
            a
        }] by {}
        assert forall|a: int| 0 <= a < after.free.len() implies (#[trigger] after.free[a]).0 == if a
            < n {
            o.free[a].0
        } else {
            s.streams[a - n].ssrc
        } by {}
        assert(after.sorted()) by {
            assert forall|a: int, b: int| 0 <= a < b < after.sources.len() implies (
            #[trigger] after.sources[a]).src < (#[trigger] after.sources[b]).src by {
                let x = if a >= i {
                    a + 1
                } else {
                    a
                };
                let y = if b >= i {
                    b + 1
                } else {
                    b
                };
                assert(o.sources[x].src < o.sources[y].src);
            }
        }
        assert(after.bounded()) by {
            assert forall|a: int| 0 <= a < after.sources.len() implies (
            #[trigger] after.sources[a]).streams.len() <= MAX_STREAMS_PER_SOURCE by {
                let x = if a >= i {
                    a + 1
                } else {
                    a
                };
                assert(o.sources[x].streams.len() <= MAX_STREAMS_PER_SOURCE);
            }
            assert forall|a: int, j: int, l: int|
                0 <= a < after.sources.len() && 0 <= j < after.sources[a].streams.len() && 0 <= l
                    < after.sources[a].streams.len() && (
                #[trigger] after.sources[a].streams[j]).src_ssrc == (
                #[trigger] after.sources[a].streams[l]).src_ssrc implies j == l by {
                let x = if a >= i {
                    a + 1
                } else {
                    a
                };
                assert(o.sources[x].streams[j].src_ssrc == o.sources[x].streams[l].src_ssrc);
            }
        }
        assert(after.distinct()) by {
            assert forall|a: int, j: int, b: int, l: int|
                0 <= a < after.sources.len() && 0 <= j < after.sources[a].streams.len() && 0 <= b
                    < after.sources.len() && 0 <= l < after.sources[b].streams.len() && (
                #[trigger] after.sources[a].streams[j]).ssrc == (
                #[trigger] after.sources[b].streams[l]).ssrc implies a == b && j == l by {
                let x = if a >= i {
                    a + 1
                } else {
                    a
                };
                let y = if b >= i {
                    b + 1
                } else {
                    b
                };
                assert(o.sources[x].streams[j].ssrc == o.sources[y].streams[l].ssrc);
            }
            assert forall|a: int, b: int|
                0 <= a < after.free.len() && 0 <= b < after.free.len() && (
                #[trigger] after.free[a]).0 == (#[trigger] after.free[b]).0 implies a == b by {
                if a < n && b < n {
                    assert(o.free[a].0 == o.free[b].0);
                } else if a < n {
                    assert(o.sources[i].streams[b - n].ssrc != o.free[a].0);
                } else if b < n {
                    assert(o.sources[i].streams[a - n].ssrc != o.free[b].0);
                } else {
                    assert(o.sources[i].streams[a - n].ssrc == o.sources[i].streams[b - n].ssrc);
                }
            }
            assert forall|a: int, j: int, f: int|
                0 <= a < after.sources.len() && 0 <= j < after.sources[a].streams.len() && 0 <= f
                    < after.free.len() implies (#[trigger] after.sources[a].streams[j]).ssrc != (
            #[trigger] after.free[f]).0 by {
                let x = if a >= i {
                    a + 1
                } else {
                    a
                };
                if f < n {
                    assert(o.sources[x].streams[j].ssrc != o.free[f].0);
                } else if o.sources[x].streams[j].ssrc == o.sources[i].streams[f - n].ssrc {
                    assert(x == i);
                }
            }
        }
        if let Some(j) = after.index_of(src) {
            let x = if j >= i {
                j + 1
            } else {
                j
            };
            assert(o.sources[x].src == src && x != i);
            if x < i {
                assert(o.sources[x].src < o.sources[i].src);
            } else {
                assert(o.sources[i].src < o.sources[x].src);
            }
        }
        assert forall|id: u64| o.index_of(id) is None implies #[trigger] after.index_of(
            id,
        ) is None by {
            lemma_first_source(o.sources, id, 0);
            lemma_first_source(after.sources, id, 0);
            if let Some(j) = after.index_of(id) {
                let x = if j >= i {
                    j + 1
                } else {
                    j
                };
                assert(o.sources[x].src != id);
            }
        }
    }
}

/// Sources leave.
pub(crate) proof fn lemma_without_all(o: Out, gone: Seq<u64>)
    requires
        o.inv(),
    ensures
        o.without_all(gone).inv(),
        o.without_all(gone).primary == o.primary,
        o.without_all(gone).sources.len() <= o.sources.len(),
        o.without_all(gone).sources.len() == o.sources.len() ==> o.without_all(gone) == o,
        forall|id: u64|
            gone.contains(id) || o.index_of(id) is None ==> #[trigger] o.without_all(gone).index_of(
                id,
            ) is None,
    decreases gone.len(),
{
    if gone.len() > 0 {
        let before = o.without_all(gone.drop_last());
        lemma_without_all(o, gone.drop_last());
        lemma_without(before, gone.last());
        assert forall|id: u64|
            gone.contains(id) || o.index_of(id) is None implies #[trigger] o.without_all(
            gone,
        ).index_of(id) is None by {
            if gone.contains(id) && id != gone.last() {
                let k = choose|k: int| 0 <= k < gone.len() && gone[k] == id;
                assert(gone.drop_last()[k] == id);
                assert(gone.drop_last().contains(id));
            }
            assert(id == gone.last() || before.index_of(id) is None);
        }
    }
}

/// A source is added.
pub(crate) proof fn lemma_with_source(o: Out, src: u64)
    requires
        o.inv(),
        o.index_of(src) is None,
    ensures
        o.with_source(src).inv(),
        o.with_source(src).sources.len() == o.sources.len() + 1,
        ({
            let i = rank(o.sources, src);
            &&& 0 <= i < o.with_source(src).sources.len()
            &&& o.with_source(src).sources[i] == (Source { src, streams: Seq::<Stream>::empty() })
            &&& o.with_source(src).index_of(src) == Some(i)
        }),
{
    let after = o.with_source(src);
    let i = rank(o.sources, src);
    lemma_rank(o.sources, src);
    lemma_first_source(o.sources, src, 0);
    assert forall|a: int| 0 <= a < after.sources.len() && a != i implies #[trigger] after.sources[a]
        == o.sources[if a > i {
        a - 1
    } else {
        a
    }] by {}
    assert(after.sources[i] == (Source { src, streams: Seq::<Stream>::empty() }));
    assert(after.sorted()) by {
        assert forall|a: int, b: int| 0 <= a < b < after.sources.len() implies (
        #[trigger] after.sources[a]).src < (#[trigger] after.sources[b]).src by {
            if a != i && b != i {
                let x = if a > i {
                    a - 1
                } else {
                    a
                };
                let y = if b > i {
                    b - 1
                } else {
                    b
                };
                assert(o.sources[x].src < o.sources[y].src);
            } else if a == i {
                assert(o.sources[b - 1].src >= src);
                assert(o.sources[b - 1].src != src);
            } else {
                assert(o.sources[a].src < src);
            }
        }
    }
    assert(after.bounded()) by {
        assert forall|a: int| 0 <= a < after.sources.len() implies (
        #[trigger] after.sources[a]).streams.len() <= MAX_STREAMS_PER_SOURCE by {
            if a != i {
                let x = if a > i {
                    a - 1
                } else {
                    a
                };
                assert(o.sources[x].streams.len() <= MAX_STREAMS_PER_SOURCE);
            }
        }
        assert forall|a: int, j: int, l: int|
            0 <= a < after.sources.len() && 0 <= j < after.sources[a].streams.len() && 0 <= l
                < after.sources[a].streams.len() && (
            #[trigger] after.sources[a].streams[j]).src_ssrc == (
            #[trigger] after.sources[a].streams[l]).src_ssrc implies j == l by {
            let x = if a > i {
                a - 1
            } else {
                a
            };
            assert(o.sources[x].streams[j].src_ssrc == o.sources[x].streams[l].src_ssrc);
        }
    }
    assert(after.distinct()) by {
        assert forall|a: int, j: int, b: int, l: int|
            0 <= a < after.sources.len() && 0 <= j < after.sources[a].streams.len() && 0 <= b
                < after.sources.len() && 0 <= l < after.sources[b].streams.len() && (
            #[trigger] after.sources[a].streams[j]).ssrc == (
            #[trigger] after.sources[b].streams[l]).ssrc implies a == b && j == l by {
            let x = if a > i {
                a - 1
            } else {
                a
            };
            let y = if b > i {
                b - 1
            } else {
                b
            };
            assert(o.sources[x].streams[j].ssrc == o.sources[y].streams[l].ssrc);
        }
        assert forall|a: int, j: int, f: int|
            0 <= a < after.sources.len() && 0 <= j < after.sources[a].streams.len() && 0 <= f
                < after.free.len() implies (#[trigger] after.sources[a].streams[j]).ssrc != (
        #[trigger] after.free[f]).0 by {
            let x = if a > i {
                a - 1
            } else {
                a
            };
            assert(o.sources[x].streams[j].ssrc != o.free[f].0);
        }
    }
    lemma_at_index(after, i);
}

/// A source SSRC always gets a stream, and it is the only one of it. The main
/// stream keeps its outbound SSRC, and a stream takes its place when it is idle.
/// The streams change exactly where it is said that they do.
pub proof fn lemma_streamed(o: Out, i: int, src_ssrc: u32, now: u64)
    requires
        o.inv(),
        o.sources.len() <= MAX_SOURCES,
        0 <= i < o.sources.len(),
    ensures
        ({
            let (after, at, fresh) = o.streamed(i, src_ssrc, now);
            &&& after.inv()
            &&& after.sources.len() == o.sources.len()
            &&& after.sources[i].src == o.sources[i].src
            &&& 0 <= at < after.sources[i].streams.len()
            &&& after.sources[i].streams[at].src_ssrc == src_ssrc
            &&& !fresh ==> after == o
            &&& fresh == (after.sources != o.sources)
            &&& o.sources[i].main_idle(now) ==> at == 0
            &&& o.sources[i].streams.len() > 0 ==> after.sources[i].streams[0].ssrc
                == o.sources[i].streams[0].ssrc
        }),
{
    lemma_streamed_inv(o, i, src_ssrc, now);
    let s = o.sources[i];
    let (after, at, fresh) = o.streamed(i, src_ssrc, now);
    lemma_first_stream(s.streams, src_ssrc, 0);
    if s.position(src_ssrc) is None {
        if s.main_idle(now) {
            assert(s.streams[0].src_ssrc != src_ssrc);
        } else {
            if s.streams.len() >= MAX_STREAMS_PER_SOURCE {
                lemma_least_recent(s.streams);
            }
            if after.sources == o.sources {
                assert(s.streams[at].src_ssrc == src_ssrc);
            }
        }
    } else if fresh {
        assert(after.sources[i].streams.len() == s.streams.len() - 1);
    }
}

/// A stream is found, made or promoted.
proof fn lemma_streamed_inv(o: Out, i: int, src_ssrc: u32, now: u64)
    requires
        o.inv(),
        o.sources.len() <= MAX_SOURCES,
        0 <= i < o.sources.len(),
    ensures
        ({
            let (after, at, fresh) = o.streamed(i, src_ssrc, now);
            &&& after.inv()
            &&& after.sources.len() == o.sources.len()
            &&& after.sources[i].src == o.sources[i].src
            &&& 0 <= at < after.sources[i].streams.len()
            &&& after.sources[i].streams[at].src_ssrc == src_ssrc
        }),
{
    let s = o.sources[i];
    lemma_first_stream(s.streams, src_ssrc, 0);
    match s.position(src_ssrc) {
        Some(k) => {
            if k > 0 && s.main_idle(now) {
                let mid = o.without_stream(i, k);
                lemma_without_stream(o, i, k);
                let streams = mid.sources[i].streams;
                assert(streams == s.streams.remove(k));
                let next = mid.with_main(i, src_ssrc).sources[i].streams;
                assert forall|j: int, l: int|
                    0 <= j < next.len() && 0 <= l < next.len() && (#[trigger] next[j]).src_ssrc == (
                    #[trigger] next[l]).src_ssrc implies j == l by {
                    if j > 0 && l > 0 {
                        assert(mid.sources[i].streams[j].src_ssrc
                            == mid.sources[i].streams[l].src_ssrc);
                    } else {
                        let m = if j > 0 {
                            j
                        } else {
                            l
                        };
                        if m > 0 {
                            let x = if m >= k {
                                m + 1
                            } else {
                                m
                            };
                            assert(next[m] == o.sources[i].streams[x]);
                            assert(o.sources[i].streams[x].src_ssrc
                                == o.sources[i].streams[k].src_ssrc);
                        }
                    }
                }
                lemma_same_ssrcs(mid, i, next);
                assert(mid.with_streams(i, next) =~= mid.with_main(i, src_ssrc));
            }
        },
        None => {
            if s.main_idle(now) {
                let next = o.with_main(i, src_ssrc).sources[i].streams;
                assert forall|j: int, l: int|
                    0 <= j < next.len() && 0 <= l < next.len() && (#[trigger] next[j]).src_ssrc == (
                    #[trigger] next[l]).src_ssrc implies j == l by {
                    if j > 0 && l > 0 {
                        assert(o.sources[i].streams[j].src_ssrc
                            == o.sources[i].streams[l].src_ssrc);
                    } else if j > 0 {
                        assert(s.streams[j].src_ssrc != src_ssrc);
                    } else if l > 0 {
                        assert(s.streams[l].src_ssrc != src_ssrc);
                    }
                }
                lemma_same_ssrcs(o, i, next);
                assert(o.with_streams(i, next) =~= o.with_main(i, src_ssrc));
            } else {
                let room = if s.streams.len() >= MAX_STREAMS_PER_SOURCE {
                    o.without_stream(i, least_recent(s.streams, 1, 2))
                } else {
                    o
                };
                if s.streams.len() >= MAX_STREAMS_PER_SOURCE {
                    let k = least_recent(s.streams, 1, 2);
                    lemma_least_recent(s.streams);
                    lemma_without_stream(o, i, k);
                    assert(o.sources[i].streams.len() <= MAX_STREAMS_PER_SOURCE);
                    assert forall|j: int| 0 <= j < room.sources[i].streams.len() implies (
                    #[trigger] room.sources[i].streams[j]).src_ssrc != src_ssrc by {
                        let x = if j >= k {
                            j + 1
                        } else {
                            j
                        };
                        assert(room.sources[i].streams[j] == s.streams[x]);
                    }
                }
                lemma_with_new_stream(room, i, src_ssrc, now);
            }
        },
    }
}

/// A packet is forwarded on a stream.
proof fn lemma_forwarded(o: Out, i: int, k: int, src_seq: u16, pt: u8, now: u64)
    requires
        o.inv(),
        0 <= i < o.sources.len(),
        0 <= k < o.sources[i].streams.len(),
    ensures
        o.forwarded(i, k, src_seq, pt, now).inv(),
{
    let next = o.forwarded(i, k, src_seq, pt, now).sources[i].streams;
    assert forall|j: int, l: int|
        0 <= j < next.len() && 0 <= l < next.len() && (#[trigger] next[j]).src_ssrc == (
        #[trigger] next[l]).src_ssrc implies j == l by {
        assert(o.sources[i].streams[j].src_ssrc == o.sources[i].streams[l].src_ssrc);
    }
    lemma_same_ssrcs(o, i, next);
    assert(o.with_streams(i, next) =~= o.forwarded(i, k, src_seq, pt, now));
}

/// No packet breaks the order of the sources, the bound on the streams of one,
/// or that no two streams share an outbound SSRC.
pub proof fn lemma_stamp_keeps_inv(
    out: Out,
    leg: Leg,
    member: bool,
    src: u64,
    src_ssrc: u32,
    src_seq: u16,
    pt: u8,
    now: u64,
)
    requires
        out.sources.len() < MAX_SOURCES,
        out.inv(),
    ensures
        stamped(out, leg, member, src, src_ssrc, src_seq, pt, now).out.inv(),
{
    lemma_without_all(out, leg.retired);
    let (o1, l1) = reaped(out, leg, src);
    lemma_first_source(o1.sources, src, 0);
    if !(o1.index_of(src) is None && (!member || (reaps(out, leg, src) && leg.retired.contains(
        src,
    )))) {
        if o1.index_of(src) is None {
            lemma_with_source(o1, src);
        }
        let (o2, i) = match o1.index_of(src) {
            Some(i) => (o1, i),
            None => (o1.with_source(src), rank(o1.sources, src)),
        };
        lemma_streamed(o2, i, src_ssrc, now);
        let (o3, at, fresh) = o2.streamed(i, src_ssrc, now);
        lemma_forwarded(o3, i, at, src_seq, pt, now);
    }
}

/// The first stream of a leg that has forwarded nothing goes out under the
/// leg's own SSRC, with the source's numbers.
pub proof fn lemma_first_source_has_own_ssrc(
    out: Out,
    leg: Leg,
    src: u64,
    src_ssrc: u32,
    src_seq: u16,
    pt: u8,
    now: u64,
)
    requires
        out.sources.len() < MAX_SOURCES,
        out.sources.len() == 0,
        out.free == seq![(out.primary, None::<u16>)],
        !leg.retired.contains(src),
    ensures
        stamped(out, leg, true, src, src_ssrc, src_seq, pt, now).stamp == Some(
            (out.primary, src_seq),
        ),
{
    lemma_without_all(out, leg.retired);
    let (o1, l1) = reaped(out, leg, src);
    assert(o1 == out);
    assert(o1.index_of(src) is None);
    lemma_with_source(o1, src);
    let o2 = o1.with_source(src);
    let i = rank(o1.sources, src);
    assert(o2.sources[i].streams.len() == 0);
    assert(o2.sources[i].position(src_ssrc) is None);
    assert(first_free(o2.free, o2.primary, 0) == Some(0int));
}

/// A second SSRC of a source leaves its main stream as it is, as long as the
/// main stream is not idle and no source is to be reaped.
pub proof fn lemma_main_stream_undisturbed(
    out: Out,
    leg: Leg,
    member: bool,
    i: int,
    src_ssrc: u32,
    src_seq: u16,
    pt: u8,
    now: u64,
)
    requires
        out.sources.len() < MAX_SOURCES,
        out.inv(),
        0 <= i < out.sources.len(),
        out.sources[i].streams.len() > 0,
        out.sources[i].streams[0].src_ssrc != src_ssrc,
        !out.sources[i].main_idle(now),
        !leg.retire_pending,
    ensures
        ({
            let s = stamped(out, leg, member, out.sources[i].src, src_ssrc, src_seq, pt, now);
            &&& s.out.sources[i].streams[0] == out.sources[i].streams[0]
            &&& s.stamp matches Some((ssrc, _)) ==> ssrc != out.sources[i].streams[0].ssrc
        }),
{
    let src = out.sources[i].src;
    lemma_at_index(out, i);
    let s = out.sources[i];
    lemma_first_stream(s.streams, src_ssrc, 0);
    lemma_streamed(out, i, src_ssrc, now);
    let (o3, at, fresh) = out.streamed(i, src_ssrc, now);
    if s.position(src_ssrc) is None && s.streams.len() >= MAX_STREAMS_PER_SOURCE {
        lemma_least_recent(s.streams);
    }
    if s.position(src_ssrc) is None {
        let room = if s.streams.len() >= MAX_STREAMS_PER_SOURCE {
            out.without_stream(i, least_recent(s.streams, 1, 2))
        } else {
            out
        };
        assert(room.sources[i].streams[0] == s.streams[0]);
        assert(o3.sources[i].streams[0] == s.streams[0]);
    }
    assert(o3.sources[i].streams[0] == s.streams[0]);
    assert(at != 0);
    if o3.sources[i].streams[at].ssrc == o3.sources[i].streams[0].ssrc {
        assert(at == 0);
    }
}

/// A source's SSRC that appears when its main stream is idle goes on under the
/// main stream's SSRC, right behind the highest number used under it.
pub proof fn lemma_takeover_continues(
    out: Out,
    leg: Leg,
    member: bool,
    i: int,
    src_ssrc: u32,
    src_seq: u16,
    pt: u8,
    now: u64,
)
    requires
        out.inv(),
        0 <= i < out.sources.len(),
        out.sources[i].main_idle(now),
        out.sources[i].streams[0].src_ssrc != src_ssrc,
        !leg.retire_pending,
    ensures
        ({
            let s = stamped(out, leg, member, out.sources[i].src, src_ssrc, src_seq, pt, now);
            let main = out.sources[i].streams[0];
            &&& s.stamp matches Some((ssrc, seq)) && ssrc == main.ssrc && (
            main.seq.highest matches Some(h) ==> seq == h.wrapping_add(1))
            &&& s.out.sources[i].streams[0].src_ssrc == src_ssrc
        }),
{
    let src = out.sources[i].src;
    lemma_at_index(out, i);
    let main = out.sources[i].streams[0];
    lemma_first_stream(out.sources[i].streams, src_ssrc, 0);
    if let Some(h) = main.seq.highest {
        crate::relay::seq_map::lemma_continues_behind(h, src_seq, src_seq);
    }
}

/// A straggler of a source that is no longer a member, and has no state left,
/// is dropped and gets none.
pub proof fn lemma_straggler_dropped(
    out: Out,
    leg: Leg,
    src: u64,
    src_ssrc: u32,
    src_seq: u16,
    pt: u8,
    now: u64,
)
    requires
        out.inv(),
        out.index_of(src) is None || (leg.retire_pending && leg.retired.contains(src)),
    ensures
        ({
            let s = stamped(out, leg, false, src, src_ssrc, src_seq, pt, now);
            &&& s.stamp is None
            &&& s.out.index_of(src) is None
        }),
{
    lemma_without_all(out, leg.retired);
    let (o1, l1) = reaped(out, leg, src);
    assert(o1 == out.without_all(leg.retired));
    assert(o1.index_of(src) is None);
}

/// The routes of the streams are those of others under the same numbers.
proof fn lemma_routes_kept(a: Seq<Source>, i: int, streams: Seq<Stream>)
    requires
        0 <= i < a.len(),
        stream_routes(Source { src: a[i].src, streams }) == stream_routes(a[i]),
    ensures
        routes_of(a.update(i, Source { src: a[i].src, streams })) == routes_of(a),
    decreases a.len(),
{
    let b = a.update(i, Source { src: a[i].src, streams });
    if i < a.len() - 1 {
        assert(b.drop_last() =~= a.drop_last().update(i, Source { src: a[i].src, streams }));
        assert(b.last() == a.last());
        lemma_routes_kept(a.drop_last(), i, streams);
    } else {
        assert(b.drop_last() =~= a.drop_last());
    }
}

/// What a leg publishes is how its streams map back, after every packet.
pub proof fn lemma_routes_published(
    out: Out,
    leg: Leg,
    member: bool,
    src: u64,
    src_ssrc: u32,
    src_seq: u16,
    pt: u8,
    now: u64,
)
    requires
        out.sources.len() < MAX_SOURCES,
        out.inv(),
        leg.routes == routes_of(out.sources),
    ensures
        ({
            let s = stamped(out, leg, member, src, src_ssrc, src_seq, pt, now);
            s.leg.routes == routes_of(s.out.sources)
        }),
{
    lemma_without_all(out, leg.retired);
    let (o1, l1) = reaped(out, leg, src);
    lemma_first_source(o1.sources, src, 0);
    if !(o1.index_of(src) is None && (!member || (reaps(out, leg, src) && leg.retired.contains(
        src,
    )))) {
        if o1.index_of(src) is None {
            lemma_with_source(o1, src);
        }
        let (o2, i) = match o1.index_of(src) {
            Some(i) => (o1, i),
            None => (o1.with_source(src), rank(o1.sources, src)),
        };
        lemma_streamed(o2, i, src_ssrc, now);
        lemma_first_stream(o2.sources[i].streams, src_ssrc, 0);
        let (o3, at, fresh) = o2.streamed(i, src_ssrc, now);
        let t = o3.sources[i].streams[at];
        let m = t.seq.mapped(src_seq);
        let o4 = o3.forwarded(i, at, src_seq, pt, now);
        if !(fresh || t.pt != Some(pt) || m.offset != t.seq.offset || m.base != t.seq.base) {
            assert(o1.index_of(src) is Some);
            let next = o4.sources[i].streams;
            let s3 = o3.sources[i];
            assert(stream_routes(Source { src: s3.src, streams: next }) =~= stream_routes(s3));
            lemma_routes_kept(o3.sources, i, next);
            assert(o4.sources =~= o3.sources.update(i, Source { src: s3.src, streams: next }));
            assert(l1.routes == routes_of(o1.sources));
        }
    }
}

/// A packet of a source's main stream at `t`, then one of another SSRC of the
/// source at `now`: a second or more later, the other goes on under the main
/// stream's SSRC, right behind the number of the first where that is the highest;
/// sooner, it goes out under another SSRC, and the main stream stays as it is.
pub proof fn lemma_takeover_after_a_second(
    out: Out,
    leg: Leg,
    member: bool,
    i: int,
    main_seq: u16,
    other_ssrc: u32,
    other_seq: u16,
    pt: u8,
    t: u64,
    now: u64,
)
    requires
        out.sources.len() < MAX_SOURCES,
        out.inv(),
        0 <= i < out.sources.len(),
        out.sources[i].streams.len() > 0,
        out.sources[i].streams[0].src_ssrc != other_ssrc,
        !leg.retire_pending,
        t <= now,
    ensures
        ({
            let src = out.sources[i].src;
            let main = out.sources[i].streams[0];
            let a = stamped(out, leg, member, src, main.src_ssrc, main_seq, pt, t);
            let b = stamped(a.out, a.leg, member, src, other_ssrc, other_seq, pt, now);
            &&& a.stamp matches Some((ssrc, _)) && ssrc == main.ssrc
            &&& now - t >= 1_000_000_000 ==> (b.stamp matches Some((ssrc, seq)) && ssrc == main.ssrc
                && (a.out.sources[i].streams[0].seq.highest matches Some(h) && seq
                == h.wrapping_add(1)))
            &&& now - t < 1_000_000_000 ==> b.out.sources[i].streams[0]
                == a.out.sources[i].streams[0] && (b.stamp matches Some((ssrc, _)) && ssrc
                != main.ssrc)
        }),
{
    let src = out.sources[i].src;
    let main = out.sources[i].streams[0];
    lemma_at_index(out, i);
    lemma_first_stream(out.sources[i].streams, main.src_ssrc, 0);
    let a = stamped(out, leg, member, src, main.src_ssrc, main_seq, pt, t);
    lemma_streamed(out, i, main.src_ssrc, t);
    assert(out.sources[i].position(main.src_ssrc) == Some(0int));
    lemma_forwarded(out, i, 0, main_seq, pt, t);
    assert(a.out == out.forwarded(i, 0, main_seq, pt, t));
    assert(a.out.sources[i].src == src);
    assert(a.out.sources[i].streams[0].last == t);
    lemma_at_index(a.out, i);
    if now - t >= 1_000_000_000 {
        lemma_takeover_continues(a.out, a.leg, member, i, other_ssrc, other_seq, pt, now);
    } else {
        lemma_main_stream_undisturbed(a.out, a.leg, member, i, other_ssrc, other_seq, pt, now);
        lemma_streamed(a.out, i, other_ssrc, now);
    }
}

/// A packet of a stream that is there, where it is its source's main stream or that
/// one is not idle, changes no other stream: this one has the packet's time and
/// payload type, and its SSRCs stay.
pub proof fn lemma_packet_refreshes_its_stream(
    out: Out,
    leg: Leg,
    member: bool,
    i: int,
    k: int,
    src_seq: u16,
    pt: u8,
    now: u64,
)
    requires
        out.inv(),
        0 <= i < out.sources.len(),
        0 <= k < out.sources[i].streams.len(),
        !leg.retire_pending,
        k == 0 || now < out.sources[i].streams[0].last + 1_000_000_000,
    ensures
        ({
            let t = out.sources[i].streams[k];
            let s = stamped(out, leg, member, out.sources[i].src, t.src_ssrc, src_seq, pt, now);
            let u = s.out.sources[i].streams[k];
            &&& s.stamp matches Some((ssrc, _)) && ssrc == t.ssrc
            &&& u.last == now && u.pt == Some(pt)
            &&& u.src_ssrc == t.src_ssrc && u.ssrc == t.ssrc
            &&& s.out.free == out.free && s.out.sources.len() == out.sources.len()
            &&& s.out.sources[i].streams.len() == out.sources[i].streams.len()
            &&& forall|x: int| x != i && 0 <= x < out.sources.len() ==> (
            #[trigger] s.out.sources[x]) == out.sources[x]
            &&& forall|j: int|
                j != k && 0 <= j < out.sources[i].streams.len() ==> (
                #[trigger] s.out.sources[i].streams[j]) == out.sources[i].streams[j]
        }),
{
    let t = out.sources[i].streams[k];
    lemma_at_index(out, i);
    lemma_first_stream(out.sources[i].streams, t.src_ssrc, 0);
    let p = out.sources[i].position(t.src_ssrc);
    assert(p == Some(k)) by {
        assert(out.sources[i].streams[k].src_ssrc == t.src_ssrc);
        if let Some(q) = p {
            assert(out.sources[i].streams[q].src_ssrc == out.sources[i].streams[k].src_ssrc);
        }
    }
}

/// A new SSRC of a source whose main stream is not idle gets a stream at the end.
/// With fewer than eight streams all others stay; with eight, the one that has been
/// quiet longest, but for the main one, ends, and all others stay.
pub proof fn lemma_ninth_stream(o: Out, i: int, src_ssrc: u32, now: u64)
    requires
        o.inv(),
        o.sources.len() <= MAX_SOURCES,
        0 <= i < o.sources.len(),
        o.sources[i].streams.len() > 0,
        now < o.sources[i].streams[0].last + 1_000_000_000,
        forall|j: int|
            0 <= j < o.sources[i].streams.len() ==> (#[trigger] o.sources[i].streams[j]).src_ssrc
                != src_ssrc,
    ensures
        ({
            let (after, at, fresh) = o.streamed(i, src_ssrc, now);
            let (old, new) = (o.sources[i].streams, after.sources[i].streams);
            &&& fresh && at == new.len() - 1
            &&& new.last().src_ssrc == src_ssrc && new.last().last == now
            &&& old.len() < 8 ==> new.len() == old.len() + 1 && new.drop_last() == old
            &&& old.len() == 8 ==> exists|k: int|
                1 <= k < 8 && #[trigger] new.drop_last() == old.remove(k) && forall|j: int|
                    1 <= j < 8 ==> old[k].last <= (#[trigger] old[j]).last
        }),
{
    let s = o.sources[i];
    lemma_first_stream(s.streams, src_ssrc, 0);
    assert(s.position(src_ssrc) is None);
    let (after, at, fresh) = o.streamed(i, src_ssrc, now);
    let new = after.sources[i].streams;
    if s.streams.len() >= 8 {
        lemma_least_recent(s.streams);
        let k = least_recent(s.streams, 1, 2);
        assert(new.drop_last() =~= s.streams.remove(k));
    } else {
        assert(new.drop_last() =~= s.streams);
    }
}

} // verus!
