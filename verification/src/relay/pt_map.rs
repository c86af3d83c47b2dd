//! The payload types that a relay leg negotiated, and how a packet's payload
//! type on one leg maps to another.
use vstd::prelude::*;

use crate::text::{lowered, trimmed};
use crate::text::{chars_of, same_chars, string_of, to_lower, trim};

verus! {

/// Most named codecs that a leg keeps.
pub const MAX_NAMED_CODECS: usize = 16;

/// The payload types of a relay leg: those that its remote sends, and those
/// that it expects, for each codec. One may be the leg's primary codec; others
/// go by a label that names the codec on every leg alike.
///
/// A packet is forwarded under the receiving leg's payload type for the codec
/// it was sent under on the source leg. One whose payload type the source leg
/// does not declare, or whose codec the receiving leg does not declare, is
/// dropped. A receiving leg that declares no codec at all takes packets as they
/// are.
#[derive(Debug, Clone, Default, PartialEq, Eq)]
pub struct PtMap {
    primary: Option<u8>,
    named: Vec<(String, u8)>,
}

/// What a `PtMap` says: the primary payload type, and payload types by label,
/// in the order in which they were given.
pub struct Pts {
    pub primary: Option<u8>,
    pub named: Seq<(Seq<char>, u8)>,
}

/// Entries by the text of their labels.
pub open spec fn labelled(v: Seq<(String, u8)>) -> Seq<(Seq<char>, u8)> {
    v.map_values(|e: (String, u8)| (e.0@, e.1))
}

/// Offered entries by the text of their labels.
pub open spec fn offered(v: Seq<(String, u32)>) -> Seq<(Seq<char>, u32)> {
    v.map_values(|e: (String, u32)| (e.0@, e.1))
}

/// A payload type that can be negotiated.
pub open spec fn valid_pt(pt: u32) -> bool {
    1 <= pt <= 127
}

/// The payload type under a label.
pub open spec fn lookup(named: Seq<(Seq<char>, u8)>, label: Seq<char>) -> Option<u8>
    decreases named.len(),
{
    if named.len() == 0 {
        None
    } else if named[0].0 == label {
        Some(named[0].1)
    } else {
        lookup(named.drop_first(), label)
    }
}

/// The entries that are kept of those offered: the first `MAX_NAMED_CODECS`
/// with a valid payload type and a label that is not blank, without case, and
/// not there yet.
pub open spec fn kept(named: Seq<(Seq<char>, u32)>) -> Seq<(Seq<char>, u8)>
    decreases named.len(),
{
    if named.len() == 0 {
        Seq::empty()
    } else {
        let before = kept(named.drop_last());
        let label = lowered(trimmed(named.last().0));
        if before.len() < MAX_NAMED_CODECS && valid_pt(named.last().1) && label.len() > 0
            && lookup(before, label) is None {
            before.push((label, named.last().1 as u8))
        } else {
            before
        }
    }
}

/// The payload type in `dst` of the first codec that `src` sends under `pt` and
/// `dst` has too.
pub open spec fn common(
    src: Seq<(Seq<char>, u8)>,
    dst: Seq<(Seq<char>, u8)>,
    pt: u8,
) -> Option<u8>
    decreases src.len(),
{
    if src.len() == 0 {
        None
    } else if src[0].1 == pt && lookup(dst, src[0].0) is Some {
        lookup(dst, src[0].0)
    } else {
        common(src.drop_first(), dst, pt)
    }
}

impl Pts {
    /// Declares no codec at all.
    pub open spec fn is_empty(self) -> bool {
        self.primary is None && self.named.len() == 0
    }

    /// Names `pt`, as primary or under a label.
    pub open spec fn names(self, pt: u8) -> bool {
        self.primary == Some(pt) || exists|i: int|
            0 <= i < self.named.len() && (#[trigger] self.named[i]).1 == pt
    }

    /// Negotiates `pt`, or declares nothing, so that any goes.
    pub open spec fn declares(self, pt: u8) -> bool {
        self.is_empty() || self.names(pt)
    }

    /// The payload type that a packet sent under `pt` on a leg with `src` goes
    /// out under: its own where nothing is declared, the primary for the
    /// primary, else that of a label in common.
    pub open spec fn mapped(self, src: Pts, pt: u8) -> Option<u8> {
        if self.is_empty() {
            Some(pt)
        } else if src.primary == Some(pt) && self.primary is Some {
            self.primary
        } else {
            common(src.named, self.named, pt)
        }
    }
}

impl View for PtMap {
    type V = Pts;

    closed spec fn view(&self) -> Pts {
        Pts { primary: self.primary, named: labelled(self.named@) }
    }
}

/// The position of a label among named entries.
fn find_label(named: &Vec<(String, u8)>, label: &Vec<char>) -> (r: Option<u8>)
    ensures
        r == lookup(labelled(named@), label@),
{
    let ghost all = labelled(named@);
    let mut i: usize = 0;
    assert(all.subrange(0, all.len() as int) =~= all);
    while i < named.len()
        invariant
            i <= named@.len(),
            all == labelled(named@),
            lookup(all, label@) == lookup(all.subrange(i as int, all.len() as int), label@),
        decreases named@.len() - i,
    {
        let (text, pt) = &named[i];
        let ghost rest = all.subrange(i as int, all.len() as int);
        assert(rest[0] == (text@, *pt));
        if same_chars(&chars_of(text.as_str()), label) {
            return Some(*pt);
        }
        assert(rest.drop_first() =~= all.subrange(i + 1, all.len() as int));
        i += 1;
    }
    None
}

impl PtMap {
    /// `primary` is the payload type of the primary codec (0 for none); `named`
    /// are those of labelled codecs. Entries without a valid payload type
    /// (1 to 127), with a blank or a repeated label, or past
    /// `MAX_NAMED_CODECS`, are ignored.
    pub fn new(primary: u32, named: Vec<(String, u32)>) -> (r: Self)
        ensures
            r@.primary == if valid_pt(primary) {
                Some(primary as u8)
            } else {
                None
            },
            r@.named == kept(offered(named@)),
    {
        let mut out: Vec<(String, u8)> = Vec::new();
        let ghost all = offered(named@);
        let mut i: usize = 0;
        while i < named.len()
            invariant
                i <= named@.len(),
                all == offered(named@),
                labelled(out@) == kept(all.take(i as int)),
            decreases named@.len() - i,
        {
            let (text, pt) = &named[i];
            let label = to_lower(&trim(&chars_of(text.as_str())));
            let ghost before = labelled(out@);
            assert(all.take(i + 1).drop_last() =~= all.take(i as int));
            assert(all.take(i + 1).last() == (text@, *pt));
            if out.len() < MAX_NAMED_CODECS && 1 <= *pt && *pt <= 127 && label.len() > 0
                && find_label(&out, &label).is_none() {
                out.push((string_of(&label), *pt as u8));
                assert(labelled(out@) =~= before.push((label@, *pt as u8)));
            }
            i += 1;
        }
        assert(all.take(all.len() as int) =~= all);
        PtMap {
            primary: if 1 <= primary && primary <= 127 {
                Some(primary as u8)
            } else {
                None
            },
            named: out,
        }
    }

    /// Another map that says the same.
    pub fn copy(&self) -> (r: Self)
        ensures
            r@ == self@,
    {
        let mut named: Vec<(String, u8)> = Vec::new();
        let mut i: usize = 0;
        while i < self.named.len()
            invariant
                i <= self.named@.len(),
                labelled(named@) == labelled(self.named@.take(i as int)),
            decreases self.named@.len() - i,
        {
            let (text, pt) = &self.named[i];
            let ghost before = labelled(named@);
            named.push((text.clone(), *pt));
            assert(labelled(named@) =~= before.push((text@, *pt)));
            assert(labelled(self.named@.take(i + 1)) =~= labelled(self.named@.take(i as int)).push(
                (text@, *pt),
            ));
            i += 1;
        }
        assert(self.named@.take(self.named@.len() as int) =~= self.named@);
        PtMap { primary: self.primary, named }
    }

    /// Declares no codec at all.
    pub fn is_empty(&self) -> (r: bool)
        ensures
            r == self@.is_empty(),
    {
        self.primary.is_none() && self.named.len() == 0
    }

    /// Does the leg negotiate `pt` (or declare nothing, so any goes)?
    pub fn declares(&self, pt: u8) -> (r: bool)
        ensures
            r == self@.declares(pt),
    {
        if self.is_empty() {
            return true;
        }
        if let Some(p) = self.primary {
            if p == pt {
                return true;
            }
        }
        let mut i: usize = 0;
        while i < self.named.len()
            invariant
                i <= self.named@.len(),
                !self@.is_empty(),
                self@.primary != Some(pt),
                forall|j: int| 0 <= j < i ==> (#[trigger] self@.named[j]).1 != pt,
            decreases self.named@.len() - i,
        {
            assert(self@.named[i as int].1 == self.named@[i as int].1);
            if self.named[i].1 == pt {
                return true;
            }
            i += 1;
        }
        false
    }

    /// How many codecs go by a label.
    pub fn named_count(&self) -> (r: usize)
        ensures
            r == self@.named.len(),
    {
        self.named.len()
    }

    /// The payload type that a packet sent under `pt` on a leg with map `src`
    /// goes out under on this leg; `None` to drop it.
    pub fn map_from(&self, src: &PtMap, pt: u8) -> (r: Option<u8>)
        ensures
            r == self@.mapped(src@, pt),
    {
        if self.is_empty() {
            return Some(pt);
        }
        if let Some(s) = src.primary {
            if s == pt {
                if let Some(p) = self.primary {
                    return Some(p);
                }
            }
        }
        let ghost all = src@.named;
        let mut i: usize = 0;
        assert(all.subrange(0, all.len() as int) =~= all);
        while i < src.named.len()
            invariant
                i <= src.named@.len(),
                all == labelled(src.named@),
                !self@.is_empty(),
                !(src@.primary == Some(pt) && self@.primary is Some),
                src@.named == all,
                common(all, self@.named, pt) == common(
                    all.subrange(i as int, all.len() as int),
                    self@.named,
                    pt,
                ),
            decreases src.named@.len() - i,
        {
            let (text, p) = &src.named[i];
            let ghost rest = all.subrange(i as int, all.len() as int);
            assert(rest[0] == (text@, *p));
            assert(rest.drop_first() =~= all.subrange(i + 1, all.len() as int));
            if *p == pt {
                let found = find_label(&self.named, &chars_of(text.as_str()));
                if found.is_some() {
                    return found;
                }
            }
            i += 1;
        }
        None
    }
}

proof fn lemma_lookup_is_named(named: Seq<(Seq<char>, u8)>, label: Seq<char>)
    ensures
        lookup(named, label) matches Some(p) ==> exists|i: int|
            0 <= i < named.len() && (#[trigger] named[i]).1 == p,
    decreases named.len(),
{
    if named.len() > 0 && named[0].0 != label {
        lemma_lookup_is_named(named.drop_first(), label);
        if let Some(p) = lookup(named, label) {
            let i = choose|i: int|
                0 <= i < named.drop_first().len() && (#[trigger] named.drop_first()[i]).1 == p;
            assert(named[i + 1].1 == p);
        }
    }
}

proof fn lemma_common_is_named(src: Seq<(Seq<char>, u8)>, dst: Seq<(Seq<char>, u8)>, pt: u8)
    ensures
        common(src, dst, pt) matches Some(p) ==> (exists|i: int|
            0 <= i < src.len() && (#[trigger] src[i]).1 == pt) && (exists|i: int|
            0 <= i < dst.len() && (#[trigger] dst[i]).1 == p),
    decreases src.len(),
{
    if src.len() > 0 {
        lemma_lookup_is_named(dst, src[0].0);
        lemma_common_is_named(src.drop_first(), dst, pt);
        if common(src, dst, pt) is Some && !(src[0].1 == pt && lookup(dst, src[0].0) is Some) {
            let i = choose|i: int|
                0 <= i < src.drop_first().len() && (#[trigger] src.drop_first()[i]).1 == pt;
            assert(src[i + 1].1 == pt);
        }
    }
}

/// A packet is never stamped into a codec that the receiver did not negotiate:
/// on a leg that declares codecs, it goes out under one of the leg's payload
/// types, and only if its own is named on the source leg.
pub proof fn lemma_mapped_is_negotiated(src: Pts, dst: Pts, pt: u8)
    requires
        !dst.is_empty(),
    ensures
        dst.mapped(src, pt) matches Some(p) ==> src.names(pt) && dst.names(p),
{
    lemma_common_is_named(src.named, dst.named, pt);
}

/// Between two legs with primary codecs, a packet under the one goes out under
/// the other.
pub proof fn lemma_primary_to_primary(src: Pts, dst: Pts)
    requires
        src.primary is Some,
        dst.primary is Some,
    ensures
        dst.mapped(src, src.primary.unwrap()) == dst.primary,
{
}

proof fn lemma_lookup_none(named: Seq<(Seq<char>, u8)>, label: Seq<char>)
    ensures
        lookup(named, label) is None <==> forall|i: int|
            0 <= i < named.len() ==> (#[trigger] named[i]).0 != label,
    decreases named.len(),
{
    if named.len() > 0 {
        let rest = named.drop_first();
        lemma_lookup_none(rest, label);
        if lookup(named, label) is None {
            assert forall|i: int| 0 <= i < named.len() implies (#[trigger] named[i]).0
                != label by {
                if i > 0 {
                    assert(rest[i - 1] == named[i]);
                }
            }
        } else if named[0].0 != label {
            let i = choose|i: int| 0 <= i < rest.len() && (#[trigger] rest[i]).0 == label;
            assert(named[i + 1].0 == label);
        }
    }
}

/// A leg keeps at most `MAX_NAMED_CODECS` labels, each once and none of them
/// empty, with valid payload types.
pub proof fn lemma_kept(named: Seq<(Seq<char>, u32)>)
    ensures
        kept(named).len() <= MAX_NAMED_CODECS,
        forall|i: int|
            0 <= i < kept(named).len() ==> (#[trigger] kept(named)[i]).0.len() > 0 && 1
                <= kept(named)[i].1 <= 127,
        forall|i: int, j: int|
            0 <= i < j < kept(named).len() ==> (#[trigger] kept(named)[i]).0 != (
            #[trigger] kept(named)[j]).0,
    decreases named.len(),
{
    if named.len() > 0 {
        let before = kept(named.drop_last());
        lemma_kept(named.drop_last());
        lemma_lookup_none(before, lowered(trimmed(named.last().0)));
    }
}

proof fn lemma_lookup_first(named: Seq<(Seq<char>, u8)>, label: Seq<char>)
    ensures
        match lookup(named, label) {
            Some(q) => exists|j: int|
                0 <= j < named.len() && #[trigger] named[j] == (label, q) && forall|k: int|
                    0 <= k < j ==> (#[trigger] named[k]).0 != label,
            None => forall|j: int| 0 <= j < named.len() ==> (#[trigger] named[j]).0 != label,
        },
    decreases named.len(),
{
    if named.len() > 0 {
        let rest = named.drop_first();
        lemma_lookup_first(rest, label);
        if named[0].0 == label {
            assert(named[0] == (label, named[0].1));
        } else {
            assert forall|k: int| 0 < k < named.len() implies #[trigger] named[k]
                == rest[k - 1] by {}
            if let Some(q) = lookup(named, label) {
                let j = choose|j: int|
                    0 <= j < rest.len() && #[trigger] rest[j] == (label, q) && forall|k: int|
                        0 <= k < j ==> (#[trigger] rest[k]).0 != label;
                assert(named[j + 1] == (label, q));
                assert forall|k: int| 0 <= k < j + 1 implies (#[trigger] named[k]).0 != label by {
                    if k > 0 {
                        assert(rest[k - 1].0 != label);
                    }
                }
            }
        }
    }
}

/// An entry of one list and one of another are under one label.
pub open spec fn share_label(
    src: Seq<(Seq<char>, u8)>,
    dst: Seq<(Seq<char>, u8)>,
    i: int,
    j: int,
) -> bool {
    0 <= i < src.len() && 0 <= j < dst.len() && src[i].0 == dst[j].0
}

proof fn lemma_common_first(src: Seq<(Seq<char>, u8)>, dst: Seq<(Seq<char>, u8)>, pt: u8)
    ensures
        match common(src, dst, pt) {
            Some(q) => exists|i: int, j: int| #[trigger]
                share_label(src, dst, i, j) && src[i].1 == pt && dst[j].1 == q && (forall|k: int|
                    0 <= k < j ==> (#[trigger] dst[k]).0 != src[i].0) && (forall|k: int, l: int|
                    0 <= k < i && #[trigger] share_label(src, dst, k, l) ==> src[k].1 != pt),
            None => forall|i: int, j: int| #[trigger]
                share_label(src, dst, i, j) ==> src[i].1 != pt,
        },
    decreases src.len(),
{
    if src.len() > 0 {
        let rest = src.drop_first();
        let label = src[0].0;
        lemma_lookup_first(dst, label);
        lemma_common_first(rest, dst, pt);
        assert forall|i: int, j: int| 0 < i implies #[trigger] share_label(src, dst, i, j)
            == share_label(rest, dst, i - 1, j) by {
            if i < src.len() {
                assert(src[i] == rest[i - 1]);
            }
        }
        if src[0].1 == pt && lookup(dst, label) is Some {
            let q = lookup(dst, label)->0;
            let j = choose|j: int|
                0 <= j < dst.len() && #[trigger] dst[j] == (label, q) && forall|k: int|
                    0 <= k < j ==> (#[trigger] dst[k]).0 != label;
            assert(share_label(src, dst, 0, j));
        } else {
            assert forall|l: int| #[trigger] share_label(src, dst, 0, l) implies src[0].1
                != pt by {}
            match common(rest, dst, pt) {
                Some(q) => {
                    let (i, j) = choose|i: int, j: int| #[trigger]
                        share_label(rest, dst, i, j) && rest[i].1 == pt && dst[j].1 == q && (forall|
                            k: int,
                        |
                            0 <= k < j ==> (#[trigger] dst[k]).0 != rest[i].0) && (forall|
                            k: int,
                            l: int,
                        |
                            0 <= k < i && #[trigger] share_label(rest, dst, k, l) ==> rest[k].1
                                != pt);
                    assert(share_label(src, dst, i + 1, j));
                    assert(src[i + 1] == rest[i]);
                    assert forall|k: int, l: int|
                        0 <= k < i + 1 && #[trigger] share_label(src, dst, k, l) implies src[k].1
                        != pt by {
                        if k > 0 {
                            assert(share_label(rest, dst, k - 1, l));
                            assert(src[k] == rest[k - 1]);
                        }
                    }
                },
                None => {
                    assert forall|i: int, j: int| #[trigger]
                        share_label(src, dst, i, j) implies src[i].1 != pt by {
                        if i > 0 {
                            assert(share_label(rest, dst, i - 1, j));
                            assert(src[i] == rest[i - 1]);
                        }
                    }
                },
            }
        }
    }
}

/// Where no primary codec decides, a packet goes out under the receiver's payload
/// type of a label that is the source's for it: of the first such label, and the
/// first such entry. It is dropped only where the two legs share no such label.
pub proof fn lemma_label_decides(src: Pts, dst: Pts, pt: u8)
    requires
        dst.primary is Some || dst.named.len() > 0,
        src.primary != Some(pt) || dst.primary is None,
    ensures
        match dst.mapped(src, pt) {
            Some(q) => exists|i: int, j: int| #[trigger]
                share_label(src.named, dst.named, i, j) && src.named[i].1 == pt && dst.named[j].1
                    == q && (forall|k: int|
                    0 <= k < j ==> (#[trigger] dst.named[k]).0 != src.named[i].0) && (forall|
                    k: int,
                    l: int,
                |
                    0 <= k < i && #[trigger] share_label(src.named, dst.named, k, l)
                        ==> src.named[k].1 != pt),
            None => forall|i: int, j: int|
                0 <= i < src.named.len() && 0 <= j < dst.named.len() && src.named[i].1 == pt ==> (
                #[trigger] src.named[i]).0 != (#[trigger] dst.named[j]).0,
        },
{
    lemma_common_first(src.named, dst.named, pt);
    if dst.mapped(src, pt) is None {
        assert forall|i: int, j: int|
            0 <= i < src.named.len() && 0 <= j < dst.named.len() && src.named[i].1 == pt implies (
        #[trigger] src.named[i]).0 != (#[trigger] dst.named[j]).0 by {
            if src.named[i].0 == dst.named[j].0 {
                assert(share_label(src.named, dst.named, i, j));
            }
        }
    }
}

/// A codec that two legs negotiated under one label goes from the payload type of
/// the one to that of the other, where each leg has every label and the source
/// every payload type once and no primary codec decides.
pub proof fn lemma_label_to_label(src: Pts, dst: Pts, i: int, j: int)
    requires
        0 <= i < src.named.len(),
        0 <= j < dst.named.len(),
        src.named[i].0 == dst.named[j].0,
        src.primary != Some(src.named[i].1) || dst.primary is None,
        forall|k: int|
            0 <= k < src.named.len() && k != i ==> (#[trigger] src.named[k]).1 != src.named[i].1,
        forall|k: int|
            0 <= k < dst.named.len() && k != j ==> (#[trigger] dst.named[k]).0 != dst.named[j].0,
    ensures
        dst.mapped(src, src.named[i].1) == Some(dst.named[j].1),
{
    let pt = src.named[i].1;
    lemma_label_decides(src, dst, pt);
    match dst.mapped(src, pt) {
        Some(q) => {
            let (a, b) = choose|a: int, b: int| #[trigger]
                share_label(src.named, dst.named, a, b) && src.named[a].1 == pt && dst.named[b].1
                    == q;
            assert(src.named[a].1 == pt);
            assert(a == i);
            assert(dst.named[b].0 == dst.named[j].0);
        },
        None => {
            assert(src.named[i].0 != dst.named[j].0);
        },
    }
}

/// A leg that declares no codec takes every packet as it is, and negotiates every
/// payload type; one that declares some negotiates those and no other.
pub proof fn lemma_declared(pts: Pts, src: Pts, pt: u8)
    ensures
        pts.primary is None && pts.named.len() == 0 ==> pts.mapped(src, pt) == Some(pt)
            && pts.declares(pt),
        pts.primary == Some(pt) ==> pts.declares(pt),
        forall|i: int|
            0 <= i < pts.named.len() && (#[trigger] pts.named[i]).1 == pt ==> pts.declares(pt),
        pts.declares(pt) && (pts.primary is Some || pts.named.len() > 0) ==> pts.primary == Some(pt)
            || exists|i: int| 0 <= i < pts.named.len() && (#[trigger] pts.named[i]).1 == pt,
{
}

/// A codec that is offered with a payload type from 1 to 127 and a label is kept
/// under its label, unless one with the same label was before it, or sixteen were
/// kept before it.
pub proof fn lemma_offered_is_kept(named: Seq<(Seq<char>, u32)>, i: int)
    requires
        0 <= i < named.len(),
        i < 16 || kept(named.take(i)).len() < 16,
        1 <= named[i].1 <= 127,
        lowered(trimmed(named[i].0)).len() > 0,
        forall|k: int|
            0 <= k < i && 1 <= (#[trigger] named[k]).1 <= 127 ==> lowered(trimmed(named[k].0))
                != lowered(trimmed(named[i].0)),
    ensures
        kept(named).contains((lowered(trimmed(named[i].0)), named[i].1 as u8)),
    decreases named.len(),
{
    let front = named.drop_last();
    let label = lowered(trimmed(named[i].0));
    if i < front.len() {
        assert forall|k: int| 0 <= k < i && 1 <= (#[trigger] front[k]).1 <= 127 implies lowered(
            trimmed(front[k].0),
        ) != lowered(trimmed(front[i].0)) by {
            assert(front[k] == named[k]);
        }
        assert(front.take(i) =~= named.take(i));
        lemma_offered_is_kept(front, i);
        let m = choose|m: int|
            0 <= m < kept(front).len() && kept(front)[m] == (label, named[i].1 as u8);
        assert(kept(named)[m] == kept(front)[m]);
    } else {
        lemma_kept_len(front);
        assert(front =~= named.take(i));
        lemma_lookup_none(kept(front), label);
        assert(lookup(kept(front), label) is None) by {
            assert forall|m: int| 0 <= m < kept(front).len() implies (#[trigger] kept(front)[m]).0
                != label by {
                let k = lemma_kept_was_offered(front, m);
                assert(front[k] == named[k]);
            }
        }
        let n = kept(front).len() as int;
        assert(kept(named)[n] == (label, named[i].1 as u8));
    }
}

proof fn lemma_kept_len(named: Seq<(Seq<char>, u32)>)
    ensures
        kept(named).len() <= named.len(),
    decreases named.len(),
{
    if named.len() > 0 {
        lemma_kept_len(named.drop_last());
    }
}

/// What is kept was offered: under a label that is the kept one without blanks
/// around it and without case, with its payload type, which is from 1 to 127.
pub proof fn lemma_kept_was_offered(named: Seq<(Seq<char>, u32)>, m: int) -> (k: int)
    requires
        0 <= m < kept(named).len(),
    ensures
        0 <= k < named.len(),
        1 <= named[k].1 <= 127,
        kept(named)[m] == (lowered(trimmed(named[k].0)), named[k].1 as u8),
    decreases named.len(),
{
    let front = named.drop_last();
    if m < kept(front).len() {
        let k = lemma_kept_was_offered(front, m);
        assert(front[k] == named[k]);
        assert(kept(named)[m] == kept(front)[m]);
        k
    } else {
        named.len() - 1
    }
}

/// The primary codec of a source goes out under the primary codec of the receiver,
/// whatever labels there are.
pub proof fn lemma_primary_decides(src: Pts, dst: Pts, pt: u8, q: u8)
    requires
        src.primary == Some(pt),
        dst.primary == Some(q),
    ensures
        dst.mapped(src, pt) == Some(q),
{
}

/// No more than sixteen codecs are kept, and no label twice.
pub proof fn lemma_kept_once(named: Seq<(Seq<char>, u32)>)
    ensures
        kept(named).len() <= 16,
        forall|i: int, j: int|
            0 <= i < j < kept(named).len() ==> (#[trigger] kept(named)[i]).0 != (
            #[trigger] kept(named)[j]).0,
    decreases named.len(),
{
    if named.len() > 0 {
        let front = named.drop_last();
        lemma_kept_once(front);
        let label = lowered(trimmed(named.last().0));
        lemma_lookup_none(kept(front), label);
        assert forall|i: int, j: int| 0 <= i < j < kept(named).len() implies (
        #[trigger] kept(named)[i]).0 != (#[trigger] kept(named)[j]).0 by {
            assert(kept(named)[i] == kept(front)[i]);
            if j < kept(front).len() {
                assert(kept(named)[j] == kept(front)[j]);
            }
        }
    }
}

/// Codecs are kept in the order in which they are offered: a further one goes behind
/// them, or is ignored.
pub proof fn lemma_kept_in_order(named: Seq<(Seq<char>, u32)>, next: (Seq<char>, u32))
    ensures
        kept(named).is_prefix_of(kept(named.push(next))),
        kept(named.push(next)).len() <= kept(named).len() + 1,
{
    assert(named.push(next).drop_last() =~= named);
}

} // verus!
