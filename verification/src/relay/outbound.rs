//! A relay leg's outbound state for every source it forwards.
use vstd::prelude::*;

use crate::relay::outbound_laws::{lemma_allocated, lemma_streamed, lemma_without_stream};
use crate::relay::seq_map::Numbering;
use crate::relay::seq_map::SeqMap;

verus! {

/// Most source SSRCs tracked per source leg; past it the least recently used
/// stream other than the main one gives up its slot.
pub const MAX_STREAMS_PER_SOURCE: usize = 8;

/// How long, in nanoseconds, a source's main stream is silent before another
/// of its SSRCs takes over the main stream's outbound identity.
pub const MAIN_IDLE_TAKEOVER: u64 = 1_000_000_000;

/// Most sources that a leg has state for: with all their streams they leave
/// SSRCs to be had, in the 32 bits that an SSRC has.
pub const MAX_SOURCES: usize = 0x1000_0000;

/// How one outbound stream of a leg maps back to its source.
#[derive(Debug, Clone, Copy, PartialEq, Eq)]
pub struct OutRoute {
    /// The SSRC that this leg sends the stream under.
    pub ssrc: u32,
    /// The source leg's id.
    pub src: u64,
    /// The source's own SSRC for the stream.
    pub src_ssrc: u32,
    /// What is added to the source's sequence numbers.
    pub offset: u16,
    /// First outbound sequence number of a stream that continued an earlier
    /// series under `ssrc`; those before it belong to another stream.
    pub base: Option<u16>,
    /// The payload type that the stream last went out under.
    pub pt: Option<u8>,
}

/// A leg's outbound state for every source it forwards. Each source SSRC is a
/// stream with an outbound SSRC and a sequence numbering of its own. A source's
/// first stream is its main stream; the first source's has the leg's own SSRC.
/// The SSRC of a stream that ends goes back to a pool, with the highest number
/// used under it, and the leg's own is the first to be reused.
pub struct Outbound {
    primary: u32,
    sources: Vec<SourceOut>,
    free: Vec<(u32, Option<u16>)>,
    rng: u32,
}

/// One source leg's streams; the first is the main stream.
struct SourceOut {
    src: u64,
    streams: Vec<StreamOut>,
}

struct StreamOut {
    src_ssrc: u32,
    ssrc: u32,
    seq: SeqMap,
    pt: Option<u8>,
    last: u64,
}

/// One outbound stream.
pub struct Stream {
    /// The source's SSRC for it.
    pub src_ssrc: u32,
    /// The SSRC that it is forwarded under.
    pub ssrc: u32,
    /// Its sequence numbering.
    pub seq: Numbering,
    /// The payload type that it last went out under.
    pub pt: Option<u8>,
    /// When its last packet was forwarded.
    pub last: u64,
}

/// One source leg and its streams, the main stream first.
pub struct Source {
    pub src: u64,
    pub streams: Seq<Stream>,
}

/// The state of an `Outbound`.
pub struct Out {
    /// The leg's own SSRC.
    pub primary: u32,
    /// The sources, in the order of their ids.
    pub sources: Seq<Source>,
    /// SSRCs to be reused, with the highest number used under each.
    pub free: Seq<(u32, Option<u16>)>,
    /// The state of the generator of new SSRCs.
    pub rng: u32,
}

impl View for StreamOut {
    type V = Stream;

    closed spec fn view(&self) -> Stream {
        Stream {
            src_ssrc: self.src_ssrc,
            ssrc: self.ssrc,
            seq: self.seq@,
            pt: self.pt,
            last: self.last,
        }
    }
}

/// The streams in a list.
spec fn stream_views(v: Seq<StreamOut>) -> Seq<Stream> {
    v.map_values(|t: StreamOut| t@)
}

impl View for SourceOut {
    type V = Source;

    closed spec fn view(&self) -> Source {
        Source { src: self.src, streams: stream_views(self.streams@) }
    }
}

/// The sources in a list.
spec fn source_views(v: Seq<SourceOut>) -> Seq<Source> {
    v.map_values(|s: SourceOut| s@)
}

impl View for Outbound {
    type V = Out;

    closed spec fn view(&self) -> Out {
        Out {
            primary: self.primary,
            sources: source_views(self.sources@),
            free: self.free@,
            rng: self.rng,
        }
    }
}

/// The next state of the generator of new SSRCs (xorshift32).
pub open spec fn xorshift(x: u32) -> u32 {
    let a = x ^ (x << 13);
    let b = a ^ (a >> 17);
    b ^ (b << 5)
}

impl Source {
    /// The position of the stream of a source SSRC.
    pub open spec fn position(self, src_ssrc: u32) -> Option<int> {
        first_stream(self.streams, src_ssrc, 0)
    }

    /// The main stream has been silent for the time of a takeover.
    pub open spec fn main_idle(self, now: u64) -> bool {
        self.streams.len() > 0 && now >= self.streams[0].last + MAIN_IDLE_TAKEOVER
    }

    /// What a source leaves behind: the SSRCs of its streams.
    pub open spec fn leftovers(self) -> Seq<(u32, Option<u16>)> {
        self.streams.map_values(|t: Stream| (t.ssrc, t.seq.highest))
    }
}

/// The first stream of `src_ssrc` from `at` on.
pub open spec fn first_stream(streams: Seq<Stream>, src_ssrc: u32, at: int) -> Option<int>
    decreases streams.len() - at,
{
    if at >= streams.len() {
        None
    } else if streams[at].src_ssrc == src_ssrc {
        Some(at)
    } else {
        first_stream(streams, src_ssrc, at + 1)
    }
}

/// The first of the least recently used streams from `at` on, or `best`.
pub open spec fn least_recent(streams: Seq<Stream>, best: int, at: int) -> int
    decreases streams.len() - at,
{
    if at >= streams.len() {
        best
    } else if streams[at].last < streams[best].last {
        least_recent(streams, at, at + 1)
    } else {
        least_recent(streams, best, at + 1)
    }
}

/// The position of a free SSRC, from `at` on.
pub open spec fn first_free(free: Seq<(u32, Option<u16>)>, ssrc: u32, at: int) -> Option<int>
    decreases free.len() - at,
{
    if at >= free.len() {
        None
    } else if free[at].0 == ssrc {
        Some(at)
    } else {
        first_free(free, ssrc, at + 1)
    }
}

/// The position of a source, from `at` on.
pub open spec fn first_source(sources: Seq<Source>, src: u64, at: int) -> Option<int>
    decreases sources.len() - at,
{
    if at >= sources.len() {
        None
    } else if sources[at].src == src {
        Some(at)
    } else {
        first_source(sources, src, at + 1)
    }
}

/// How many sources at the front have ids below `src`.
pub open spec fn rank(sources: Seq<Source>, src: u64) -> int
    decreases sources.len(),
{
    if sources.len() == 0 || sources[0].src >= src {
        0
    } else {
        1 + rank(sources.drop_first(), src)
    }
}

/// The routes of one source's streams.
pub open spec fn stream_routes(s: Source) -> Seq<OutRoute> {
    s.streams.map_values(
        |t: Stream|
            OutRoute {
                ssrc: t.ssrc,
                src: s.src,
                src_ssrc: t.src_ssrc,
                offset: t.seq.offset,
                base: t.seq.base,
                pt: t.pt,
            },
    )
}

/// The routes of some sources' streams, in order.
pub open spec fn routes_of(sources: Seq<Source>) -> Seq<OutRoute>
    decreases sources.len(),
{
    if sources.len() == 0 {
        Seq::empty()
    } else {
        routes_of(sources.drop_last()) + stream_routes(sources.last())
    }
}

/// A new SSRC: the first number of the generator that is not zero, not the
/// primary, and not in use, within `fuel + 1` steps; and where the generator
/// is then. From zero it does not move, and gives none.
pub open spec fn search(o: Out, rng: u32, fuel: nat) -> (u32, Option<u32>)
    decreases fuel,
{
    let c = xorshift(rng);
    if c == 0 {
        (c, None)
    } else if c != o.primary && !o.in_use(c) {
        (c, Some(c))
    } else if fuel == 0 {
        (c, None)
    } else {
        search(o, c, (fuel - 1) as nat)
    }
}

/// The lowest number from `c` on that is not the primary and not in use, or the
/// highest of all.
pub open spec fn lowest(o: Out, c: u32) -> u32
    decreases 0xFFFF_FFFF - c,
{
    if c == 0xFFFF_FFFF || (c != o.primary && !o.in_use(c)) {
        c
    } else {
        lowest(o, (c + 1) as u32)
    }
}

impl Out {
    /// The position of a source.
    pub open spec fn index_of(self, src: u64) -> Option<int> {
        first_source(self.sources, src, 0)
    }

    /// Some stream is forwarded under `ssrc`.
    pub open spec fn sends(self, ssrc: u32) -> bool {
        exists|i: int, j: int|
            0 <= i < self.sources.len() && 0 <= j < self.sources[i].streams.len() && (
            #[trigger] self.sources[i].streams[j]).ssrc == ssrc
    }

    /// `ssrc` is to be reused.
    pub open spec fn has_free(self, ssrc: u32) -> bool {
        exists|i: int| 0 <= i < self.free.len() && (#[trigger] self.free[i]).0 == ssrc
    }

    /// `ssrc` belongs to a stream, or is to be reused.
    pub open spec fn in_use(self, ssrc: u32) -> bool {
        self.sends(ssrc) || self.has_free(ssrc)
    }

    /// The SSRC for a new stream, and the highest number used under it: the
    /// leg's own where it is free, else the last that became free, else a new
    /// one. Where the generator gives none, which is stuck on a leg whose own
    /// SSRC seeds it with zero, a new one is the lowest that is not in use.
    pub open spec fn allocated(self) -> (Out, (u32, Option<u16>)) {
        match first_free(self.free, self.primary, 0) {
            Some(i) => (
                Out { free: self.free.update(i, self.free.last()).drop_last(), ..self },
                self.free[i],
            ),
            None => if self.free.len() > 0 {
                (Out { free: self.free.drop_last(), ..self }, self.free.last())
            } else {
                let (rng, found) = search(self, self.rng, 0xFFFF_FFFE);
                (
                    Out { rng, ..self },
                    match found {
                        Some(c) => (c, None),
                        None => (lowest(self, 1), None),
                    },
                )
            },
        }
    }

    /// The streams of source `i` are these.
    pub open spec fn with_streams(self, i: int, streams: Seq<Stream>) -> Out {
        Out {
            sources: self.sources.update(i, Source { src: self.sources[i].src, streams }),
            ..self
        }
    }

    /// An SSRC goes back to the pool.
    pub open spec fn freed(self, t: Stream) -> Out {
        Out { free: self.free.push((t.ssrc, t.seq.highest)), ..self }
    }

    /// A source leaves.
    pub open spec fn without(self, src: u64) -> Out {
        match self.index_of(src) {
            Some(i) => Out {
                sources: self.sources.remove(i),
                free: self.free + self.sources[i].leftovers(),
                ..self
            },
            None => self,
        }
    }

    /// Sources leave, in order.
    pub open spec fn without_all(self, gone: Seq<u64>) -> Out
        decreases gone.len(),
    {
        if gone.len() == 0 {
            self
        } else {
            self.without_all(gone.drop_last()).without(gone.last())
        }
    }

    /// A source with no stream yet, at its place by its id.
    pub open spec fn with_source(self, src: u64) -> Out {
        Out {
            sources: self.sources.insert(
                rank(self.sources, src),
                Source { src, streams: Seq::empty() },
            ),
            ..self
        }
    }

    /// A new stream at the end of source `i`, on an SSRC from the pool or a new
    /// one.
    pub open spec fn with_new_stream(self, i: int, src_ssrc: u32, now: u64) -> (Out, int) {
        let (out, (ssrc, highest)) = self.allocated();
        let streams = self.sources[i].streams;
        (
            out.with_streams(
                i,
                streams.push(
                    Stream {
                        src_ssrc,
                        ssrc,
                        seq: Numbering::continuing(highest),
                        pt: None,
                        last: now,
                    },
                ),
            ),
            streams.len() as int,
        )
    }

    /// The main stream of source `i` is from now on that of `src_ssrc`, and
    /// carries on its series.
    pub open spec fn with_main(self, i: int, src_ssrc: u32) -> Out {
        let streams = self.sources[i].streams;
        self.with_streams(
            i,
            streams.update(
                0,
                Stream {
                    src_ssrc,
                    seq: Numbering::continuing(streams[0].seq.highest),
                    ..streams[0]
                },
            ),
        )
    }

    /// Stream `k` of source `i` ends; its SSRC goes back to the pool.
    pub open spec fn without_stream(self, i: int, k: int) -> Out {
        let streams = self.sources[i].streams;
        self.with_streams(i, streams.remove(k)).freed(streams[k])
    }

    /// The stream of `src_ssrc` in source `i`, and whether streams changed for
    /// it. One that is there keeps its place, unless the main stream is idle:
    /// then it takes the main stream's. A new one is the main stream where
    /// there is none or it is idle; else it goes behind the others, and where
    /// there are too many the least recently used but the main one makes room.
    pub open spec fn streamed(self, i: int, src_ssrc: u32, now: u64) -> (Out, int, bool) {
        let s = self.sources[i];
        let idle = s.main_idle(now);
        match s.position(src_ssrc) {
            Some(k) => if k > 0 && idle {
                (self.without_stream(i, k).with_main(i, src_ssrc), 0, true)
            } else {
                (self, k, false)
            },
            None => if idle {
                (self.with_main(i, src_ssrc), 0, true)
            } else {
                let room = if s.streams.len() >= MAX_STREAMS_PER_SOURCE {
                    self.without_stream(i, least_recent(s.streams, 1, 2))
                } else {
                    self
                };
                let (out, at) = room.with_new_stream(i, src_ssrc, now);
                (out, at, true)
            },
        }
    }

    /// Stream `k` of source `i` forwards a packet.
    pub open spec fn forwarded(self, i: int, k: int, src_seq: u16, pt: u8, now: u64) -> Out {
        let streams = self.sources[i].streams;
        self.with_streams(
            i,
            streams.update(
                k,
                Stream {
                    seq: streams[k].seq.mapped(src_seq),
                    pt: Some(pt),
                    last: now,
                    ..streams[k]
                },
            ),
        )
    }
}

/// The position of the stream of a source SSRC.
fn find_stream(streams: &Vec<StreamOut>, src_ssrc: u32) -> (r: Option<usize>)
    ensures
        match r {
            Some(k) => k < streams@.len() && first_stream(stream_views(streams@), src_ssrc, 0)
                == Some(k as int),
            None => first_stream(stream_views(streams@), src_ssrc, 0) is None,
        },
{
    let mut i: usize = 0;
    while i < streams.len()
        invariant
            i <= streams@.len(),
            first_stream(stream_views(streams@), src_ssrc, 0) == first_stream(
                stream_views(streams@),
                src_ssrc,
                i as int,
            ),
        decreases streams@.len() - i,
    {
        assert(stream_views(streams@)[i as int] == streams@[i as int]@);
        if streams[i].src_ssrc == src_ssrc {
            return Some(i);
        }
        i += 1;
    }
    None
}

/// The least recently used stream but the main one.
fn find_least_recent(streams: &Vec<StreamOut>) -> (r: usize)
    requires
        streams@.len() >= 2,
    ensures
        1 <= r < streams@.len(),
        r == least_recent(stream_views(streams@), 1, 2),
{
    let mut best: usize = 1;
    let mut i: usize = 2;
    while i < streams.len()
        invariant
            1 <= best < i <= streams@.len(),
            least_recent(stream_views(streams@), 1, 2) == least_recent(
                stream_views(streams@),
                best as int,
                i as int,
            ),
        decreases streams@.len() - i,
    {
        assert(stream_views(streams@)[i as int] == streams@[i as int]@);
        assert(stream_views(streams@)[best as int] == streams@[best as int]@);
        if streams[i].last < streams[best].last {
            best = i;
        }
        i += 1;
    }
    best
}

impl Outbound {
    /// The state of a leg that has forwarded nothing; `primary` is its own
    /// SSRC.
    pub fn new(primary: u32) -> (r: Self)
        ensures
            r@ == (Out {
                primary,
                sources: Seq::empty(),
                free: seq![(primary, None)],
                rng: primary ^ 0x9E37_79B9,
            }),
            r@.inv(),
    {
        let mut free: Vec<(u32, Option<u16>)> = Vec::new();
        free.push((primary, None));
        let r = Outbound { primary, sources: Vec::new(), free, rng: primary ^ 0x9E37_79B9 };
        assert(r@.sources =~= Seq::<Source>::empty());
        assert(r@.free =~= seq![(primary, None)]);
        r
    }

    /// The position of a source.
    pub(crate) fn find_source(&self, src: u64) -> (r: Option<usize>)
        ensures
            match r {
                Some(i) => i < self@.sources.len() && self@.index_of(src) == Some(i as int),
                None => self@.index_of(src) is None,
            },
    {
        let mut i: usize = 0;
        while i < self.sources.len()
            invariant
                i <= self.sources@.len(),
                self@.index_of(src) == first_source(self@.sources, src, i as int),
            decreases self.sources@.len() - i,
        {
            assert(self@.sources[i as int] == self.sources@[i as int]@);
            if self.sources[i].src == src {
                return Some(i);
            }
            i += 1;
        }
        None
    }

    /// Does an SSRC belong to a stream, or is it to be reused?
    fn in_use(&self, ssrc: u32) -> (r: bool)
        ensures
            r == self@.in_use(ssrc),
    {
        let mut i: usize = 0;
        while i < self.sources.len()
            invariant
                i <= self.sources@.len(),
                forall|a: int, b: int|
                    0 <= a < i && 0 <= b < self@.sources[a].streams.len() ==> (
                    #[trigger] self@.sources[a].streams[b]).ssrc != ssrc,
            decreases self.sources@.len() - i,
        {
            assert(self@.sources[i as int] == self.sources@[i as int]@);
            let streams = &self.sources[i].streams;
            let mut j: usize = 0;
            while j < streams.len()
                invariant
                    i < self.sources@.len(),
                    j <= streams@.len(),
                    self@.sources[i as int].streams == stream_views(streams@),
                    forall|b: int|
                        0 <= b < j ==> (#[trigger] self@.sources[i as int].streams[b]).ssrc != ssrc,
                decreases streams@.len() - j,
            {
                assert(self@.sources[i as int].streams[j as int] == streams@[j as int]@);
                if streams[j].ssrc == ssrc {
                    assert(self@.sends(ssrc));
                    return true;
                }
                j += 1;
            }
            i += 1;
        }
        assert(!self@.sends(ssrc));
        let mut k: usize = 0;
        while k < self.free.len()
            invariant
                k <= self.free@.len(),
                forall|b: int| 0 <= b < k ==> (#[trigger] self@.free[b]).0 != ssrc,
            decreases self.free@.len() - k,
        {
            if self.free[k].0 == ssrc {
                assert(self@.free[k as int].0 == ssrc);
                return true;
            }
            k += 1;
        }
        false
    }

    /// The SSRC for a new stream, and the highest number used under it.
    fn alloc_ssrc(&mut self) -> (r: (u32, Option<u16>))
        requires
            old(self)@.inv(),
            old(self)@.sources.len() <= MAX_SOURCES,
        ensures
            !final(self)@.in_use(r.0),
            final(self)@.inv(),
            (final(self)@, r) == old(self)@.allocated(),
            final(self).sources@ == old(self).sources@,
    {
        proof {
            lemma_allocated(self@);
        }
        let mut i: usize = 0;
        while i < self.free.len()
            invariant
                *self == *old(self),
                ({
                    let (after, (ssrc, _)) = self@.allocated();
                    !after.in_use(ssrc) && after.inv()
                }),
                i <= self.free@.len(),
                first_free(self@.free, self@.primary, 0) == first_free(
                    self@.free,
                    self@.primary,
                    i as int,
                ),
            decreases self.free@.len() - i,
        {
            if self.free[i].0 == self.primary {
                let got: (u32, Option<u16>) = self.free.swap_remove(i);
                assert(self@.free =~= old(self)@.free.update(
                    i as int,
                    old(self)@.free.last(),
                ).drop_last());
                return got;
            }
            i += 1;
        }
        if let Some(got) = self.free.pop() {
            return got;
        }
        assert(self@ == old(self)@);
        let ghost o = self@;
        if let Some(c) = self.search_ssrc() {
            return (c, None);
        }
        let mut c: u32 = 1;
        assert(forall|s: u32| self@.in_use(s) == o.in_use(s));
        while c < 0xFFFF_FFFF && (c == self.primary || self.in_use(c))
            invariant
                o.primary == self@.primary,
                forall|s: u32| self@.in_use(s) == o.in_use(s),
                lowest(o, 1) == lowest(o, c),
            decreases 0xFFFF_FFFF - c,
        {
            c += 1;
        }
        (c, None)
    }

    /// The first number of the generator that is not zero, not the primary, and
    /// not in use; `None` when it gives none.
    fn search_ssrc(&mut self) -> (r: Option<u32>)
        requires
            old(self)@.free.len() == 0,
        ensures
            (final(self)@.rng, r) == search(old(self)@, old(self)@.rng, 0xFFFF_FFFE),
            final(self)@ == (Out { rng: final(self)@.rng, ..old(self)@ }),
            final(self).sources@ == old(self).sources@,
    {
        let ghost o = self@;
        let mut fuel: u32 = 0xFFFF_FFFE;
        loop
            invariant
                self.sources@ == old(self).sources@,
                o == old(self)@,
                self@ == (Out { rng: self@.rng, ..o }),
                o.free.len() == 0,
                search(o, o.rng, 0xFFFF_FFFE) == search(o, self@.rng, fuel as nat),
            decreases fuel,
        {
            let mut x: u32 = self.rng;
            x = x ^ (x << 13);
            x = x ^ (x >> 17);
            x = x ^ (x << 5);
            assert(x == xorshift(self.rng));
            assert(forall|s: u32| self@.in_use(s) == o.in_use(s));
            if x == 0 {
                self.rng = x;
                return None;
            }
            let free = x != self.primary && !self.in_use(x);
            self.rng = x;
            if free {
                return Some(x);
            }
            if fuel == 0 {
                return None;
            }
            fuel -= 1;
        }
    }

    /// A source leaves; its SSRCs go back to the pool. True when it was there.
    fn drop_source(&mut self, src: u64) -> (r: bool)
        ensures
            final(self)@ == old(self)@.without(src),
            r == (old(self)@.index_of(src) is Some),
    {
        let ghost before = self@;
        match self.find_source(src) {
            Some(i) => {
                assert(before.sources[i as int] == self.sources@[i as int]@);
                let gone: SourceOut = self.sources.remove(i);
                let ghost streams = stream_views(gone.streams@);
                let ghost left = before.sources[i as int].leftovers();
                assert(self@.sources =~= before.sources.remove(i as int));
                assert(self.free@ =~= before.free + left.take(0));
                let mut j: usize = 0;
                while j < gone.streams.len()
                    invariant
                        j <= gone.streams@.len(),
                        streams == stream_views(gone.streams@),
                        left == before.sources[i as int].leftovers(),
                        streams == before.sources[i as int].streams,
                        self.primary == before.primary,
                        self.rng == before.rng,
                        source_views(self.sources@) == before.sources.remove(i as int),
                        self.free@ == before.free + left.take(j as int),
                    decreases gone.streams@.len() - j,
                {
                    assert(streams[j as int] == gone.streams@[j as int]@);
                    self.free.push((gone.streams[j].ssrc, gone.streams[j].seq.highest()));
                    assert(left.take(j + 1) =~= left.take(j as int).push(left[j as int]));
                    assert(self.free@ =~= before.free + left.take(j + 1));
                    j += 1;
                }
                assert(left.take(j as int) =~= left);
                true
            },
            None => false,
        }
    }

    /// Sources leave, in order. True when some was there.
    pub(crate) fn reap(&mut self, gone: &Vec<u64>) -> (changed: bool)
        ensures
            final(self)@ == old(self)@.without_all(gone@),
            changed == (final(self)@.sources.len() != old(self)@.sources.len()),
    {
        let ghost before = self@;
        let mut changed = false;
        let mut i: usize = 0;
        while i < gone.len()
            invariant
                i <= gone@.len(),
                before == old(self)@,
                self@ == before.without_all(gone@.take(i as int)),
                self@.sources.len() <= before.sources.len(),
                changed == (self@.sources.len() != before.sources.len()),
            decreases gone@.len() - i,
        {
            assert(gone@.take(i + 1).drop_last() =~= gone@.take(i as int));
            let ghost mid = self@;
            proof {
                lemma_first_source(mid.sources, gone@[i as int], 0);
            }
            if self.drop_source(gone[i]) {
                changed = true;
            }
            i += 1;
        }
        assert(gone@.take(i as int) =~= gone@);
        changed
    }

    /// Adds a source that is not there, with no stream yet.
    pub(crate) fn add_source(&mut self, src: u64) -> (i: usize)
        requires
            old(self)@.index_of(src) is None,
        ensures
            final(self)@ == old(self)@.with_source(src),
            i < final(self)@.sources.len(),
            i == rank(old(self)@.sources, src),
            final(self)@.index_of(src) == Some(i as int),
    {
        let ghost before = self@;
        let mut i: usize = 0;
        assert(before.sources.subrange(0, before.sources.len() as int) =~= before.sources);
        while i < self.sources.len() && self.sources[i].src < src
            invariant
                i <= self.sources@.len(),
                self@ == before,
                rank(before.sources, src) == i + rank(
                    before.sources.subrange(i as int, before.sources.len() as int),
                    src,
                ),
            decreases self.sources@.len() - i,
        {
            let ghost rest = before.sources.subrange(i as int, before.sources.len() as int);
            assert(rest[0] == self.sources@[i as int]@);
            assert(rest.drop_first() =~= before.sources.subrange(
                i + 1,
                before.sources.len() as int,
            ));
            i += 1;
        }
        let ghost rest = before.sources.subrange(i as int, before.sources.len() as int);
        assert(i < before.sources.len() ==> rest[0] == self.sources@[i as int]@);
        let added = SourceOut { src, streams: Vec::new() };
        assert(added@.streams =~= Seq::<Stream>::empty());
        self.sources.insert(i, added);
        assert(self@.sources =~= before.sources.insert(i as int, added@));
        proof {
            lemma_first_source(before.sources, src, 0);
            lemma_found_source(self@.sources, src, i as int, 0);
        }
        i
    }

    /// The stream of `src_ssrc` in source `i`, creating, promoting or evicting
    /// streams as needed; and whether the streams changed.
    pub(crate) fn stream_for(&mut self, i: usize, src_ssrc: u32, now: u64) -> (r: (usize, bool))
        requires
            old(self)@.inv(),
            old(self)@.sources.len() <= MAX_SOURCES,
            i < old(self)@.sources.len(),
        ensures
            ({
                let (out, at, changed) = old(self)@.streamed(i as int, src_ssrc, now);
                &&& final(self)@ == out
                &&& changed == r.1
                &&& at == r.0
                &&& r.0 < out.sources[i as int].streams.len()
            }),
            r.1 == (final(self)@.sources != old(self)@.sources),
            final(self)@.sources.len() == old(self)@.sources.len(),
            final(self)@.inv(),
    {
        proof {
            lemma_streamed(self@, i as int, src_ssrc, now);
        }
        let ghost before = self@;
        let ghost s = before.sources[i as int];
        assert(s == self.sources@[i as int]@);
        let found = find_stream(&self.sources[i].streams, src_ssrc);
        let count: usize = self.sources[i].streams.len();
        let idle = if count > 0 {
            let last: u64 = self.sources[i].streams[0].last;
            assert(s.streams[0] == self.sources@[i as int].streams@[0]@);
            now >= MAIN_IDLE_TAKEOVER && now - MAIN_IDLE_TAKEOVER >= last
        } else {
            false
        };
        assert(idle == s.main_idle(now));
        match found {
            Some(k) => {
                if k > 0 && idle {
                    self.end_stream(i, k);
                    self.take_over_main(i, src_ssrc);
                    (0, true)
                } else {
                    (k, false)
                }
            },
            None => {
                if idle {
                    self.take_over_main(i, src_ssrc);
                    (0, true)
                } else {
                    if count >= MAX_STREAMS_PER_SOURCE {
                        let lru: usize = find_least_recent(&self.sources[i].streams);
                        proof {
                            lemma_without_stream(self@, i as int, lru as int);
                        }
                        self.end_stream(i, lru);
                    }
                    (self.start_stream(i, src_ssrc, now), true)
                }
            },
        }
    }

    /// Ends stream `k` of source `i`; its SSRC goes back to the pool.
    fn end_stream(&mut self, i: usize, k: usize)
        requires
            i < old(self)@.sources.len(),
            k < old(self)@.sources[i as int].streams.len(),
        ensures
            final(self)@ == old(self)@.without_stream(i as int, k as int),
    {
        let ghost before = self@;
        assert(before.sources[i as int] == self.sources@[i as int]@);
        let ended: StreamOut = self.sources[i].streams.remove(k);
        assert(ended@ == before.sources[i as int].streams[k as int]);
        assert(self.sources@[i as int]@.streams =~= before.sources[i as int].streams.remove(
            k as int,
        ));
        assert(self@.sources =~= before.with_streams(
            i as int,
            before.sources[i as int].streams.remove(k as int),
        ).sources);
        self.free.push((ended.ssrc, ended.seq.highest()));
        assert(self@.sources == before.without_stream(i as int, k as int).sources);
    }

    /// The main stream of source `i` is from now on that of `src_ssrc`.
    fn take_over_main(&mut self, i: usize, src_ssrc: u32)
        requires
            i < old(self)@.sources.len(),
            old(self)@.sources[i as int].streams.len() > 0,
        ensures
            final(self)@ == old(self)@.with_main(i as int, src_ssrc),
    {
        let ghost before = self@;
        assert(before.sources[i as int] == self.sources@[i as int]@);
        assert(before.sources[i as int].streams[0] == self.sources@[i as int].streams@[0]@);
        let highest: Option<u16> = self.sources[i].streams[0].seq.highest();
        self.sources[i].streams[0].seq = SeqMap::continuing(highest);
        self.sources[i].streams[0].src_ssrc = src_ssrc;
        assert(self.sources@[i as int]@.streams =~= before.with_main(
            i as int,
            src_ssrc,
        ).sources[i as int].streams);
        assert(self@.sources =~= before.with_main(i as int, src_ssrc).sources);
    }

    /// Starts a stream at the end of source `i`.
    fn start_stream(&mut self, i: usize, src_ssrc: u32, now: u64) -> (r: usize)
        requires
            old(self)@.inv(),
            old(self)@.sources.len() <= MAX_SOURCES,
            i < old(self)@.sources.len(),
        ensures
            (final(self)@, r as int) == old(self)@.with_new_stream(i as int, src_ssrc, now),
            r < final(self)@.sources[i as int].streams.len(),
    {
        let ghost before = self@;
        assert(before.sources[i as int] == self.sources@[i as int]@);
        let (ssrc, highest) = self.alloc_ssrc();
        let ghost mid = self@;
        let at: usize = self.sources[i].streams.len();
        let started = StreamOut {
            src_ssrc,
            ssrc,
            seq: SeqMap::continuing(highest),
            pt: None,
            last: now,
        };
        let ghost stream = started@;
        self.sources[i].streams.push(started);
        assert(self.sources@[i as int]@.streams =~= before.sources[i as int].streams.push(stream));
        assert(self@.sources =~= mid.with_streams(
            i as int,
            before.sources[i as int].streams.push(stream),
        ).sources);
        at
    }

    /// Forwards a packet on stream `k` of source `i`: the outbound SSRC and
    /// sequence number, and whether what is published of the stream changed.
    pub(crate) fn forward_on(&mut self, i: usize, k: usize, src_seq: u16, pt: u8, now: u64) -> (r: (
        (u32, u16),
        bool,
    ))
        requires
            i < old(self)@.sources.len(),
            k < old(self)@.sources[i as int].streams.len(),
        ensures
            final(self)@ == old(self)@.forwarded(i as int, k as int, src_seq, pt, now),
            ({
                let t = old(self)@.sources[i as int].streams[k as int];
                let m = t.seq.mapped(src_seq);
                &&& r.0 == (t.ssrc, t.seq.outbound(src_seq))
                &&& r.1 == (t.pt != Some(pt) || m.offset != t.seq.offset || m.base != t.seq.base)
            }),
    {
        let ghost before = self@;
        let ghost t = before.sources[i as int].streams[k as int];
        assert(before.sources[i as int] == self.sources@[i as int]@);
        assert(t == self.sources@[i as int].streams@[k as int]@);
        let pt_same = match self.sources[i].streams[k].pt {
            Some(p) => p == pt,
            None => false,
        };
        let (offset, base) = self.sources[i].streams[k].seq.route();
        let ssrc: u32 = self.sources[i].streams[k].ssrc;
        let out: u16 = self.sources[i].streams[k].seq.map(src_seq);
        self.sources[i].streams[k].last = now;
        self.sources[i].streams[k].pt = Some(pt);
        let (offset_now, base_now) = self.sources[i].streams[k].seq.route();
        let base_same = match (base, base_now) {
            (Some(a), Some(b)) => a == b,
            (None, None) => true,
            _ => false,
        };
        assert(self.sources@[i as int]@.streams =~= before.forwarded(
            i as int,
            k as int,
            src_seq,
            pt,
            now,
        ).sources[i as int].streams);
        assert(self@.sources =~= before.forwarded(
            i as int,
            k as int,
            src_seq,
            pt,
            now,
        ).sources);
        ((ssrc, out), !pt_same || offset != offset_now || !base_same)
    }

    /// How every outbound stream maps back to its source.
    pub fn routes(&self) -> (r: Vec<OutRoute>)
        ensures
            r@ == routes_of(self@.sources),
    {
        let mut out: Vec<OutRoute> = Vec::new();
        let mut i: usize = 0;
        while i < self.sources.len()
            invariant
                i <= self.sources@.len(),
                out@ == routes_of(self@.sources.take(i as int)),
            decreases self.sources@.len() - i,
        {
            let ghost before = out@;
            let ghost s = self@.sources[i as int];
            assert(s == self.sources@[i as int]@);
            let src: u64 = self.sources[i].src;
            let streams = &self.sources[i].streams;
            let mut j: usize = 0;
            while j < streams.len()
                invariant
                    i < self.sources@.len(),
                    s == self@.sources[i as int],
                    src == s.src,
                    j <= streams@.len(),
                    s.streams == stream_views(streams@),
                    out@ == before + stream_routes(s).take(j as int),
                decreases streams@.len() - j,
            {
                let t = &streams[j];
                assert(s.streams[j as int] == t@);
                let (offset, base) = t.seq.route();
                out.push(
                    OutRoute { ssrc: t.ssrc, src, src_ssrc: t.src_ssrc, offset, base, pt: t.pt },
                );
                assert(stream_routes(s).take(j + 1) =~= stream_routes(s).take(j as int).push(
                    stream_routes(s)[j as int],
                ));
                j += 1;
            }
            assert(stream_routes(s).take(j as int) =~= stream_routes(s));
            assert(self@.sources.take(i + 1).drop_last() =~= self@.sources.take(i as int));
            i += 1;
        }
        assert(self@.sources.take(i as int) =~= self@.sources);
        out
    }

    /// Is there state for a source?
    pub fn knows(&self, src: u64) -> (r: bool)
        ensures
            r == (self@.index_of(src) is Some),
    {
        self.find_source(src).is_some()
    }

    /// How many sources there is state for.
    pub fn source_count(&self) -> (r: usize)
        ensures
            r == self@.sources.len(),
    {
        self.sources.len()
    }

    /// How many SSRCs are to be reused.
    pub fn free_count(&self) -> (r: usize)
        ensures
            r == self@.free.len(),
    {
        self.free.len()
    }

    /// How many streams a source has.
    pub fn stream_count(&self, src: u64) -> (r: usize)
        ensures
            r == match self@.index_of(src) {
                Some(i) => self@.sources[i].streams.len(),
                None => 0,
            },
    {
        match self.find_source(src) {
            Some(i) => {
                assert(self@.sources[i as int] == self.sources@[i as int]@);
                self.sources[i].streams.len()
            },
            None => 0,
        }
    }

    /// Is an SSRC to be reused?
    pub fn is_free(&self, ssrc: u32) -> (r: bool)
        ensures
            r == self@.has_free(ssrc),
    {
        let mut k: usize = 0;
        while k < self.free.len()
            invariant
                k <= self.free@.len(),
                forall|b: int| 0 <= b < k ==> (#[trigger] self@.free[b]).0 != ssrc,
            decreases self.free@.len() - k,
        {
            if self.free[k].0 == ssrc {
                assert(self@.free[k as int].0 == ssrc);
                return true;
            }
            k += 1;
        }
        false
    }
}

/// Where a source is found.
pub(crate) proof fn lemma_first_source(sources: Seq<Source>, src: u64, at: int)
    requires
        0 <= at,
    ensures
        match first_source(sources, src, at) {
            Some(i) => at <= i < sources.len() && sources[i].src == src && forall|j: int|
                at <= j < i ==> (#[trigger] sources[j]).src != src,
            None => forall|j: int| at <= j < sources.len() ==> (#[trigger] sources[j]).src != src,
        },
    decreases sources.len() - at,
{
    if at < sources.len() && sources[at].src != src {
        lemma_first_source(sources, src, at + 1);
    }
}

proof fn lemma_found_source(sources: Seq<Source>, src: u64, i: int, at: int)
    requires
        0 <= at <= i < sources.len(),
        sources[i].src == src,
        forall|j: int| 0 <= j < i ==> (#[trigger] sources[j]).src != src,
    ensures
        first_source(sources, src, at) == Some(i),
    decreases i - at,
{
    if at < i {
        assert(sources[at].src != src);
        lemma_found_source(sources, src, i, at + 1);
    }
}

} // verus!
