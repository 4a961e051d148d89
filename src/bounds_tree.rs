use crate::geometry::{Bounds, Point};
use crate::primitive::PrimitiveIndex;
use vstd::prelude::*;

verus! {

/// One recorded rectangle with the order it was given and what it stands for.
#[derive(Clone, Copy, Debug, PartialEq, Eq, Structural)]
pub struct BoundsSearchResult {
    pub bounds: Bounds,
    pub order: u32,
    pub data: PrimitiveIndex,
}

/// The entries of `entries` whose rectangle contains `p`, in their order.
pub open spec fn hits(entries: Seq<BoundsSearchResult>, p: Point) -> Seq<BoundsSearchResult>
    decreases entries.len(),
{
    if entries.len() == 0 {
        Seq::empty()
    } else {
        let prev = hits(entries.drop_last(), p);
        if entries.last().bounds.contains_point(p) {
            prev.push(entries.last())
        } else {
            prev
        }
    }
}

/// Every hit is an entry that contains the point, and the hits keep the
/// entries' relative order.
pub proof fn lemma_hits_are_entries(entries: Seq<BoundsSearchResult>, p: Point)
    ensures
        forall|m: int|
            0 <= m < hits(entries, p).len() ==> {
                let h = #[trigger] hits(entries, p)[m];
                &&& h.bounds.contains_point(p)
                &&& exists|j: int| 0 <= j < entries.len() && entries[j] == h
            },
        hits(entries, p).len() <= entries.len(),
    decreases entries.len(),
{
    if entries.len() > 0 {
        lemma_hits_are_entries(entries.drop_last(), p);
        let prev = hits(entries.drop_last(), p);
        assert forall|m: int| 0 <= m < hits(entries, p).len() implies {
            let h = #[trigger] hits(entries, p)[m];
            &&& h.bounds.contains_point(p)
            &&& exists|j: int| 0 <= j < entries.len() && entries[j] == h
        } by {
            if m < prev.len() {
                let h = prev[m];
                let j = choose|j: int| 0 <= j < entries.drop_last().len() && entries.drop_last()[j] == h;
                assert(entries[j] == h);
            } else {
                assert(entries[entries.len() - 1] == hits(entries, p)[m]);
            }
        }
    }
}

/// In an index whose orders are positions, hits are entries found at their
/// order, and their orders strictly rise.
pub proof fn lemma_hits_ordered(entries: Seq<BoundsSearchResult>, p: Point)
    requires
        forall|j: int| 0 <= j < entries.len() ==> #[trigger] entries[j].order == j,
    ensures
        forall|m: int|
            0 <= m < hits(entries, p).len() ==> {
                let h = #[trigger] hits(entries, p)[m];
                &&& 0 <= h.order < entries.len()
                &&& entries[h.order as int] == h
                &&& h.bounds.contains_point(p)
            },
        forall|a: int, b: int|
            0 <= a < b < hits(entries, p).len() ==> (#[trigger] hits(entries, p)[a]).order
                < (#[trigger] hits(entries, p)[b]).order,
    decreases entries.len(),
{
    if entries.len() > 0 {
        let prefix = entries.drop_last();
        lemma_hits_ordered(prefix, p);
        lemma_hits_are_entries(prefix, p);
        let prev = hits(prefix, p);
        assert forall|m: int| 0 <= m < prev.len() implies prev[m].order < prefix.len() by {
            assert(prefix[prev[m].order as int] == prev[m]);
        }
    }
}

/// An index that hands out one strictly increasing order per recorded
/// rectangle and answers which rectangles contain a point. The order of an
/// entry is its position, so orders are unique within one lifetime.
pub struct BoundsTree {
    pub entries: Vec<BoundsSearchResult>,
}

impl BoundsTree {
    pub open spec fn wf(&self) -> bool {
        &&& self.entries.len() <= u32::MAX
        &&& forall|j: int| 0 <= j < self.entries.len() ==> #[trigger] self.entries[j].order == j
    }

    pub fn new() -> (r: BoundsTree)
        ensures
            r.wf(),
            r.entries@ == Seq::<BoundsSearchResult>::empty(),
    {
        BoundsTree { entries: Vec::new() }
    }

    pub fn len(&self) -> (r: usize)
        ensures
            r == self.entries.len(),
    {
        self.entries.len()
    }

    /// Records `bounds` for `data` and returns the next order.
    pub fn insert(&mut self, bounds: Bounds, data: PrimitiveIndex) -> (order: u32)
        requires
            old(self).wf(),
            old(self).entries.len() < u32::MAX,
        ensures
            final(self).wf(),
            order == old(self).entries.len(),
            final(self).entries@ == old(self).entries@.push(
                BoundsSearchResult { bounds, order, data },
            ),
    {
        let order = self.entries.len() as u32;
        self.entries.push(BoundsSearchResult { bounds, order, data });
        order
    }

    /// The entries whose rectangle contains `p`, in ascending order.
    pub fn find_containing(&self, p: &Point) -> (r: Vec<BoundsSearchResult>)
        ensures
            r@ == hits(self.entries@, *p),
    {
        let mut r: Vec<BoundsSearchResult> = Vec::new();
        let mut i: usize = 0;
        while i < self.entries.len()
            invariant
                i <= self.entries.len(),
                r@ == hits(self.entries@.take(i as int), *p),
            decreases self.entries.len() - i,
        {
            let e = self.entries[i];
            assert(self.entries@.take(i + 1).drop_last() == self.entries@.take(i as int));
            if e.bounds.contains(p) {
                r.push(e);
            }
            i = i + 1;
        }
        assert(self.entries@.take(i as int) == self.entries@);
        r
    }

    pub fn clear(&mut self)
        ensures
            final(self).wf(),
            final(self).entries@ == Seq::<BoundsSearchResult>::empty(),
    {
        self.entries.clear();
    }
}

} // verus!
