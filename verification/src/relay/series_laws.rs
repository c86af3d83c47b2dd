//! What holds of the numbers used under an outbound SSRC, whichever streams it
//! serves one after the other.
use vstd::prelude::*;

use crate::relay::leg::Leg;
use crate::relay::outbound::{first_free, least_recent, rank};
use crate::relay::outbound::{lemma_first_source, Out, MAX_SOURCES, MAX_STREAMS_PER_SOURCE};
use crate::relay::outbound_laws::{
    lemma_first_free, lemma_first_stream, lemma_least_recent, lemma_rank, lemma_streamed,
    lemma_with_source, lemma_without_all,
};
use crate::relay::seq_map::newer;
use crate::relay::stamp::{reaped, reaps, stamped};

verus! {

impl Out {
    /// `highest` is the highest number used under `ssrc`, which serves a stream
    /// or waits to be reused.
    pub open spec fn recalls(self, ssrc: u32, highest: Option<u16>) -> bool {
        ||| exists|i: int, j: int|
            0 <= i < self.sources.len() && 0 <= j < self.sources[i].streams.len() && (
            #[trigger] self.sources[i].streams[j]).ssrc == ssrc
                && self.sources[i].streams[j].seq.highest == highest
        ||| exists|a: int| 0 <= a < self.free.len() && #[trigger] self.free[a] == (ssrc, highest)
    }

    /// The stream of a source's SSRC goes out under `ssrc`.
    pub open spec fn carries(self, src: u64, src_ssrc: u32, ssrc: u32) -> bool {
        exists|i: int, j: int|
            0 <= i < self.sources.len() && 0 <= j < self.sources[i].streams.len() && (
            #[trigger] self.sources[i].streams[j]).src_ssrc == src_ssrc
                && self.sources[i].streams[j].ssrc == ssrc && self.sources[i].src == src
    }
}

/// The source of a stream leaves: its SSRCs wait, with their numbers.
proof fn lemma_without_recalls(o: Out, src: u64, ssrc: u32, highest: Option<u16>)
    requires
        o.recalls(ssrc, highest),
    ensures
        o.without(src).recalls(ssrc, highest),
{
    let after = o.without(src);
    lemma_first_source(o.sources, src, 0);
    if let Some(at) = o.index_of(src) {
        if exists|a: int| 0 <= a < o.free.len() && #[trigger] o.free[a] == (ssrc, highest) {
            let a = choose|a: int| 0 <= a < o.free.len() && #[trigger] o.free[a] == (ssrc, highest);
            assert(after.free[a] == (ssrc, highest));
        } else {
            let (i, j) = choose|i: int, j: int|
                0 <= i < o.sources.len() && 0 <= j < o.sources[i].streams.len() && (
                #[trigger] o.sources[i].streams[j]).ssrc == ssrc
                    && o.sources[i].streams[j].seq.highest == highest;
            if i == at {
                assert(after.free[o.free.len() + j] == (ssrc, highest));
            } else {
                let x = if i > at {
                    i - 1
                } else {
                    i
                };
                assert(after.sources[x] == o.sources[i]);
                assert(after.sources[x].streams[j].ssrc == ssrc);
            }
        }
    }
}

proof fn lemma_without_all_recalls(o: Out, gone: Seq<u64>, ssrc: u32, highest: Option<u16>)
    requires
        o.recalls(ssrc, highest),
    ensures
        o.without_all(gone).recalls(ssrc, highest),
    decreases gone.len(),
{
    if gone.len() > 0 {
        lemma_without_all_recalls(o, gone.drop_last(), ssrc, highest);
        lemma_without_recalls(o.without_all(gone.drop_last()), gone.last(), ssrc, highest);
    }
}

/// What is carried after sources left was carried before.
proof fn lemma_without_all_carries(
    o: Out,
    gone: Seq<u64>,
    src: u64,
    src_ssrc: u32,
    ssrc: u32,
)
    requires
        o.without_all(gone).carries(src, src_ssrc, ssrc),
    ensures
        o.carries(src, src_ssrc, ssrc),
    decreases gone.len(),
{
    if gone.len() > 0 {
        let before = o.without_all(gone.drop_last());
        let after = o.without_all(gone);
        lemma_first_source(before.sources, gone.last(), 0);
        if let Some(at) = before.index_of(gone.last()) {
            let (i, j) = choose|i: int, j: int|
                0 <= i < after.sources.len() && 0 <= j < after.sources[i].streams.len() && (
                #[trigger] after.sources[i].streams[j]).src_ssrc == src_ssrc
                    && after.sources[i].streams[j].ssrc == ssrc && after.sources[i].src == src;
            let x = if i >= at {
                i + 1
            } else {
                i
            };
            assert(after.sources[i] == before.sources[x]);
            assert(before.sources[x].streams[j].src_ssrc == src_ssrc);
        }
        lemma_without_all_carries(o, gone.drop_last(), src, src_ssrc, ssrc);
    }
}

proof fn lemma_with_source_recalls(o: Out, src: u64, ssrc: u32, highest: Option<u16>)
    requires
        o.inv(),
        o.recalls(ssrc, highest),
    ensures
        o.with_source(src).recalls(ssrc, highest),
{
    let after = o.with_source(src);
    let at = rank(o.sources, src);
    lemma_rank(o.sources, src);
    if exists|a: int| 0 <= a < o.free.len() && #[trigger] o.free[a] == (ssrc, highest) {
        let a = choose|a: int| 0 <= a < o.free.len() && #[trigger] o.free[a] == (ssrc, highest);
        assert(after.free[a] == (ssrc, highest));
    } else {
        let (i, j) = choose|i: int, j: int|
            0 <= i < o.sources.len() && 0 <= j < o.sources[i].streams.len() && (
            #[trigger] o.sources[i].streams[j]).ssrc == ssrc
                && o.sources[i].streams[j].seq.highest == highest;
        let x = if i >= at {
            i + 1
        } else {
            i
        };
        assert(after.sources[x] == o.sources[i]);
        assert(after.sources[x].streams[j].ssrc == ssrc);
    }
}

/// A stream ends: its SSRC waits, with its numbers.
proof fn lemma_without_stream_recalls(o: Out, at: int, k: int, ssrc: u32, highest: Option<u16>)
    requires
        0 <= at < o.sources.len(),
        0 <= k < o.sources[at].streams.len(),
        o.recalls(ssrc, highest),
    ensures
        o.without_stream(at, k).recalls(ssrc, highest),
{
    let after = o.without_stream(at, k);
    if exists|a: int| 0 <= a < o.free.len() && #[trigger] o.free[a] == (ssrc, highest) {
        let a = choose|a: int| 0 <= a < o.free.len() && #[trigger] o.free[a] == (ssrc, highest);
        assert(after.free[a] == (ssrc, highest));
    } else {
        let (i, j) = choose|i: int, j: int|
            0 <= i < o.sources.len() && 0 <= j < o.sources[i].streams.len() && (
            #[trigger] o.sources[i].streams[j]).ssrc == ssrc
                && o.sources[i].streams[j].seq.highest == highest;
        if i == at && j == k {
            assert(after.free[o.free.len() as int] == (ssrc, highest));
        } else {
            let y = if i == at && j > k {
                j - 1
            } else {
                j
            };
            assert(after.sources[i].streams[y] == o.sources[i].streams[j]);
        }
    }
}

/// The main stream changes hands: its SSRC keeps its numbers.
proof fn lemma_with_main_recalls(o: Out, at: int, src_ssrc: u32, ssrc: u32, highest: Option<u16>)
    requires
        0 <= at < o.sources.len(),
        0 < o.sources[at].streams.len(),
        o.recalls(ssrc, highest),
    ensures
        o.with_main(at, src_ssrc).recalls(ssrc, highest),
{
    let after = o.with_main(at, src_ssrc);
    if exists|a: int| 0 <= a < o.free.len() && #[trigger] o.free[a] == (ssrc, highest) {
        let a = choose|a: int| 0 <= a < o.free.len() && #[trigger] o.free[a] == (ssrc, highest);
        assert(after.free[a] == (ssrc, highest));
    } else {
        let (i, j) = choose|i: int, j: int|
            0 <= i < o.sources.len() && 0 <= j < o.sources[i].streams.len() && (
            #[trigger] o.sources[i].streams[j]).ssrc == ssrc
                && o.sources[i].streams[j].seq.highest == highest;
        assert(after.sources[i].streams[j].ssrc == ssrc);
    }
}

/// A stream starts on an SSRC that waited: it keeps its numbers.
proof fn lemma_with_new_stream_recalls(
    o: Out,
    at: int,
    src_ssrc: u32,
    now: u64,
    ssrc: u32,
    highest: Option<u16>,
)
    requires
        0 <= at < o.sources.len(),
        o.recalls(ssrc, highest),
    ensures
        o.with_new_stream(at, src_ssrc, now).0.recalls(ssrc, highest),
{
    let after = o.with_new_stream(at, src_ssrc, now).0;
    let (mid, got) = o.allocated();
    let n = o.sources[at].streams.len() as int;
    lemma_first_free(o.free, o.primary, 0);
    if exists|a: int| 0 <= a < o.free.len() && #[trigger] o.free[a] == (ssrc, highest) {
        let a = choose|a: int| 0 <= a < o.free.len() && #[trigger] o.free[a] == (ssrc, highest);
        let taken = match first_free(o.free, o.primary, 0) {
            Some(i) => i,
            None => o.free.len() - 1,
        };
        if a == taken {
            assert(got == (ssrc, highest));
            assert(after.sources[at].streams[n].ssrc == ssrc);
        } else if a == o.free.len() - 1 {
            assert(after.free[taken] == (ssrc, highest));
        } else {
            assert(after.free[a] == (ssrc, highest));
        }
    } else {
        let (i, j) = choose|i: int, j: int|
            0 <= i < o.sources.len() && 0 <= j < o.sources[i].streams.len() && (
            #[trigger] o.sources[i].streams[j]).ssrc == ssrc
                && o.sources[i].streams[j].seq.highest == highest;
        assert(after.sources[i].streams[j] == o.sources[i].streams[j]);
    }
}

/// A stream is found, made or promoted: no SSRC loses its numbers. One that is
/// not merely found begins anew behind the highest number.
proof fn lemma_streamed_recalls(
    o: Out,
    at: int,
    src_ssrc: u32,
    now: u64,
    ssrc: u32,
    highest: Option<u16>,
)
    requires
        o.inv(),
        0 <= at < o.sources.len(),
        o.recalls(ssrc, highest),
    ensures
        ({
            let (after, k, fresh) = o.streamed(at, src_ssrc, now);
            &&& after.recalls(ssrc, highest)
            &&& fresh ==> !after.sources[at].streams[k].seq.started
        }),
{
    let s = o.sources[at];
    lemma_first_stream(s.streams, src_ssrc, 0);
    match s.position(src_ssrc) {
        Some(k) => {
            if k > 0 && s.main_idle(now) {
                lemma_without_stream_recalls(o, at, k, ssrc, highest);
                lemma_with_main_recalls(o.without_stream(at, k), at, src_ssrc, ssrc, highest);
            }
        },
        None => {
            if s.main_idle(now) {
                lemma_with_main_recalls(o, at, src_ssrc, ssrc, highest);
            } else if s.streams.len() >= MAX_STREAMS_PER_SOURCE {
                let k = least_recent(s.streams, 1, 2);
                lemma_least_recent(s.streams);
                lemma_without_stream_recalls(o, at, k, ssrc, highest);
                lemma_with_new_stream_recalls(
                    o.without_stream(at, k),
                    at,
                    src_ssrc,
                    now,
                    ssrc,
                    highest,
                );
            } else {
                lemma_with_new_stream_recalls(o, at, src_ssrc, now, ssrc, highest);
            }
        },
    }
}

/// A packet is forwarded on a stream: the numbers under its SSRC go on, and the
/// others stay.
proof fn lemma_forwarded_recalls(
    o: Out,
    at: int,
    k: int,
    src_seq: u16,
    pt: u8,
    now: u64,
    ssrc: u32,
    highest: Option<u16>,
)
    requires
        o.inv(),
        0 <= at < o.sources.len(),
        0 <= k < o.sources[at].streams.len(),
        o.recalls(ssrc, highest),
    ensures
        ({
            let t = o.sources[at].streams[k];
            let after = o.forwarded(at, k, src_seq, pt, now);
            if t.ssrc == ssrc {
                t.seq.highest == highest && after.recalls(
                    ssrc,
                    Some(t.seq.highest_after(src_seq)),
                )
            } else {
                after.recalls(ssrc, highest)
            }
        }),
{
    let t = o.sources[at].streams[k];
    let after = o.forwarded(at, k, src_seq, pt, now);
    if exists|a: int| 0 <= a < o.free.len() && #[trigger] o.free[a] == (ssrc, highest) {
        let a = choose|a: int| 0 <= a < o.free.len() && #[trigger] o.free[a] == (ssrc, highest);
        assert(o.sources[at].streams[k].ssrc != o.free[a].0);
        assert(after.free[a] == (ssrc, highest));
    } else {
        let (i, j) = choose|i: int, j: int|
            0 <= i < o.sources.len() && 0 <= j < o.sources[i].streams.len() && (
            #[trigger] o.sources[i].streams[j]).ssrc == ssrc
                && o.sources[i].streams[j].seq.highest == highest;
        if t.ssrc == ssrc {
            assert(o.sources[i].streams[j].ssrc == o.sources[at].streams[k].ssrc);
        }
        assert(after.sources[i].streams[j].ssrc == ssrc);
    }
}

/// The numbers under an outbound SSRC are one series, whichever streams it
/// serves: no packet makes a leg forget the highest number used under it; and a
/// packet of a stream that the SSRC did not serve before goes out under the
/// number right behind it.
pub proof fn lemma_series_go_on(
    out: Out,
    leg: Leg,
    member: bool,
    src: u64,
    src_ssrc: u32,
    src_seq: u16,
    pt: u8,
    now: u64,
    ssrc: u32,
    highest: Option<u16>,
)
    requires
        out.sources.len() < MAX_SOURCES,
        out.inv(),
        out.recalls(ssrc, highest),
    ensures
        ({
            let s = stamped(out, leg, member, src, src_ssrc, src_seq, pt, now);
            match (s.stamp, highest) {
                (Some((x, n)), Some(h)) if x == ssrc => {
                    &&& s.out.recalls(
                        ssrc,
                        Some(
                            if newer(n, h) {
                                n
                            } else {
                                h
                            },
                        ),
                    )
                    &&& out.carries(src, src_ssrc, ssrc) || n == h.wrapping_add(1)
                },
                (Some((x, n)), None) if x == ssrc => s.out.recalls(ssrc, Some(n)),
                _ => s.out.recalls(ssrc, highest),
            }
        }),
{
    lemma_without_all(out, leg.retired);
    lemma_without_all_recalls(out, leg.retired, ssrc, highest);
    let (o1, l1) = reaped(out, leg, src);
    lemma_first_source(o1.sources, src, 0);
    if !(o1.index_of(src) is None && (!member || (reaps(out, leg, src) && leg.retired.contains(
        src,
    )))) {
        if o1.index_of(src) is None {
            lemma_with_source(o1, src);
            lemma_with_source_recalls(o1, src, ssrc, highest);
        }
        let (o2, i) = match o1.index_of(src) {
            Some(i) => (o1, i),
            None => (o1.with_source(src), rank(o1.sources, src)),
        };
        lemma_first_stream(o2.sources[i].streams, src_ssrc, 0);
        lemma_streamed(o2, i, src_ssrc, now);
        lemma_streamed_recalls(o2, i, src_ssrc, now, ssrc, highest);
        let (o3, at, fresh) = o2.streamed(i, src_ssrc, now);
        let t = o3.sources[i].streams[at];
        lemma_forwarded_recalls(o3, i, at, src_seq, pt, now, ssrc, highest);
        if !fresh && t.ssrc == ssrc {
            assert(o1.index_of(src) is Some);
            assert(o1.sources[i].streams[at].src_ssrc == src_ssrc);
            assert(o1.carries(src, src_ssrc, ssrc));
            if reaps(out, leg, src) {
                lemma_without_all_carries(out, leg.retired, src, src_ssrc, ssrc);
            }
        }
    }
}

/// A leg whose sources have all left shows the next one under its own SSRC
/// again, right behind the highest number used under it.
pub proof fn lemma_repaired_goes_on_under_own_ssrc(
    out: Out,
    leg: Leg,
    src: u64,
    src_ssrc: u32,
    src_seq: u16,
    pt: u8,
    now: u64,
    h: u16,
)
    requires
        out.sources.len() < MAX_SOURCES,
        out.inv(),
        out.recalls(out.primary, Some(h)),
        forall|i: int|
            0 <= i < out.sources.len() ==> leg.retired.contains((#[trigger] out.sources[i]).src),
        out.index_of(src) is None,
        !leg.retired.contains(src),
    ensures
        stamped(out, leg, true, src, src_ssrc, src_seq, pt, now).stamp == Some(
            (out.primary, h.wrapping_add(1)),
        ),
{
    let highest = Some(h);
    lemma_without_all(out, leg.retired);
    lemma_without_all_recalls(out, leg.retired, out.primary, highest);
    let (o1, l1) = reaped(out, leg, src);
    assert(o1.sources.len() == 0) by {
        if o1.sources.len() > 0 {
            let id = o1.sources[0].src;
            lemma_first_source(o1.sources, id, 0);
            lemma_first_source(out.sources, id, 0);
            assert(o1.index_of(id) is Some);
            assert(out.index_of(id) is Some);
        }
    }
    lemma_with_source(o1, src);
    lemma_with_source_recalls(o1, src, out.primary, highest);
    let o2 = o1.with_source(src);
    let i = rank(o1.sources, src);
    assert(o2.sources.len() == 1 && i == 0);
    let a = choose|a: int|
        0 <= a < o2.free.len() && #[trigger] o2.free[a] == (out.primary, highest);
    lemma_first_free(o2.free, o2.primary, 0);
    let f = first_free(o2.free, o2.primary, 0);
    assert(f == Some(a)) by {
        if let Some(b) = f {
            assert(o2.free[b].0 == o2.free[a].0);
        }
    }
}

} // verus!
