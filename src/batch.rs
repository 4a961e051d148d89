use crate::primitive::{AtlasTextureId, PrimitiveKind};
use crate::scene::Scene;
use vstd::prelude::*;

verus! {

/// A maximal run of primitives of one kind, contiguous in global order:
/// positions `start..end` of that kind's store. Sprite batches also carry the
/// atlas texture that all of their sprites share.
#[derive(Clone, Copy, Debug, PartialEq, Eq, Structural)]
pub struct PrimitiveBatch {
    pub kind: PrimitiveKind,
    pub texture_id: Option<AtlasTextureId>,
    pub start: usize,
    pub end: usize,
}

/// Merge order: by order, then by the kind's rank.
pub open spec fn precedes(o1: u32, k1: PrimitiveKind, o2: u32, k2: PrimitiveKind) -> bool {
    o1 < o2 || (o1 == o2 && k1.rank() < k2.rank())
}

pub open spec fn len_of<T>(s: Scene<T>, k: PrimitiveKind) -> int {
    s.primitives_of(k).len() as int
}

pub open spec fn order_at<T>(s: Scene<T>, k: PrimitiveKind, i: int) -> u32 {
    s.primitives_of(k)[i].order
}

pub open spec fn texture_at<T>(s: Scene<T>, k: PrimitiveKind, i: int) -> AtlasTextureId {
    s.primitives_of(k)[i].texture_id
}

pub fn kind_of_rank(rank: usize) -> (k: PrimitiveKind)
    requires
        rank < 7,
    ensures
        k.rank() == rank,
{
    if rank == 0 {
        PrimitiveKind::Shadow
    } else if rank == 1 {
        PrimitiveKind::Quad
    } else if rank == 2 {
        PrimitiveKind::Path
    } else if rank == 3 {
        PrimitiveKind::Underline
    } else if rank == 4 {
        PrimitiveKind::MonochromeSprite
    } else if rank == 5 {
        PrimitiveKind::PolychromeSprite
    } else {
        PrimitiveKind::Surface
    }
}

pub fn is_sprite_kind(k: PrimitiveKind) -> (r: bool)
    ensures
        r == k.is_sprite(),
{
    match k {
        PrimitiveKind::MonochromeSprite | PrimitiveKind::PolychromeSprite => true,
        _ => false,
    }
}

/// A cursor per kind into a finished scene's stores.
pub struct BatchIterator {
    pub cursors: Vec<usize>,
}

impl BatchIterator {
    /// The next unconsumed position of `k`.
    pub open spec fn cursor(&self, k: PrimitiveKind) -> int {
        self.cursors@[k.rank() as int] as int
    }

    pub open spec fn wf_for<T>(&self, s: Scene<T>) -> bool {
        &&& self.cursors@.len() == 7
        &&& forall|k: PrimitiveKind| 0 <= #[trigger] self.cursor(k) <= len_of(s, k)
    }

    /// Whether `k` has primitives left.
    pub open spec fn pending<T>(&self, s: Scene<T>, k: PrimitiveKind) -> bool {
        self.cursor(k) < len_of(s, k)
    }

    /// The order of the next primitive of `k`.
    pub open spec fn peek<T>(&self, s: Scene<T>, k: PrimitiveKind) -> u32 {
        order_at(s, k, self.cursor(k))
    }

    /// `k` is pending and comes first in merge order among pending kinds.
    pub open spec fn selects<T>(&self, s: Scene<T>, k: PrimitiveKind) -> bool {
        &&& self.pending(s, k)
        &&& forall|k2: PrimitiveKind|
            k2 != k && #[trigger] self.pending(s, k2) ==> precedes(
                self.peek(s, k),
                k,
                self.peek(s, k2),
                k2,
            )
    }

    /// Position `m` of `k` comes before every other pending kind's next one.
    pub open spec fn before_others<T>(&self, s: Scene<T>, k: PrimitiveKind, m: int) -> bool {
        forall|k2: PrimitiveKind|
            k2 != k && #[trigger] self.pending(s, k2) ==> precedes(order_at(s, k, m), k, self.peek(s, k2), k2)
    }

    /// `b` is the batch that the cursors give next: it starts at the selected
    /// kind's cursor, runs while its primitives come before every other
    /// pending kind (and, for sprites, share the first one's texture), and
    /// stops only where one of these fails or the store ends.
    pub open spec fn next_batch<T>(&self, s: Scene<T>, b: PrimitiveBatch) -> bool {
        let k = b.kind;
        &&& self.selects(s, k)
        &&& b.start == self.cursor(k)
        &&& b.start < b.end <= len_of(s, k)
        &&& forall|m: int| b.start < m < b.end ==> #[trigger] self.before_others(s, k, m)
        &&& k.is_sprite() ==> {
            &&& b.texture_id == Some(texture_at(s, k, b.start as int))
            &&& forall|m: int|
                b.start <= m < b.end ==> #[trigger] texture_at(s, k, m) == texture_at(s, k, b.start as int)
        }
        &&& !k.is_sprite() ==> b.texture_id is None
        &&& b.end == len_of(s, k) || !self.before_others(s, k, b.end as int) || (k.is_sprite()
            && texture_at(s, k, b.end as int) != texture_at(s, k, b.start as int))
    }

    pub fn new() -> (r: BatchIterator)
        ensures
            r.cursors@ == seq![0usize, 0, 0, 0, 0, 0, 0],
    {
        BatchIterator { cursors: vec![0usize, 0, 0, 0, 0, 0, 0] }
    }

    /// The next batch, or `None` once every store is consumed.
    pub fn next<T>(&mut self, scene: &Scene<T>) -> (r: Option<PrimitiveBatch>)
        requires
            old(self).wf_for(*scene),
        ensures
            final(self).wf_for(*scene),
            r is None <==> forall|k: PrimitiveKind| !#[trigger] old(self).pending(*scene, k),
            r is None ==> final(self).cursors@ == old(self).cursors@,
            r is Some ==> {
                let b = r->0;
                &&& old(self).next_batch(*scene, b)
                &&& final(self).cursors@ == old(self).cursors@.update(b.kind.rank() as int, b.end)
            },
    {
        let ghost s = *scene;
        // The pending kind that comes first in merge order.
        let mut best: Option<(u32, PrimitiveKind)> = None;
        let mut rank: usize = 0;
        while rank < 7
            invariant
                self.cursors@ == old(self).cursors@,
                self.wf_for(s),
                s == *scene,
                rank <= 7,
                best is None ==> forall|k: PrimitiveKind|
                    k.rank() < rank ==> !#[trigger] self.pending(s, k),
                best is Some ==> {
                    let (o, bk) = best->0;
                    &&& bk.rank() < rank
                    &&& self.pending(s, bk)
                    &&& self.peek(s, bk) == o
                    &&& forall|k: PrimitiveKind|
                        k.rank() < rank && k != bk && #[trigger] self.pending(s, k) ==> precedes(
                            o,
                            bk,
                            self.peek(s, k),
                            k,
                        )
                },
            decreases 7 - rank,
        {
            let k = kind_of_rank(rank);
            let ps = scene.primitives(k);
            let c = self.cursors[rank];
            if c < ps.len() {
                let o = ps[c].order;
                match best {
                    None => {
                        best = Some((o, k));
                    },
                    Some((bo, _)) => {
                        if o < bo {
                            best = Some((o, k));
                        }
                    },
                }
            }
            rank = rank + 1;
        }
        match best {
            None => {
                assert forall|k: PrimitiveKind| !#[trigger] self.pending(s, k) by {
                    assert(k.rank() < 7);
                }
                None
            },
            Some((first_order, kind)) => {
                proof {
                    assert forall|k: PrimitiveKind| k != kind && #[trigger] self.pending(s, k) implies precedes(
                        first_order,
                        kind,
                        self.peek(s, k),
                        k,
                    ) by {
                        assert(k.rank() < 7);
                    }
                }
                let first_rank = kind.rank_of();
                let ps = scene.primitives(kind);
                let start = self.cursors[first_rank];
                // The first of the other pending kinds: where this batch must stop.
                let mut bound: Option<(u32, PrimitiveKind)> = None;
                let mut r2: usize = 0;
                while r2 < 7
                    invariant
                        self.cursors@ == old(self).cursors@,
                        self.wf_for(s),
                        s == *scene,
                        r2 <= 7,
                        bound is None ==> forall|k: PrimitiveKind|
                            k.rank() < r2 && k != kind ==> !#[trigger] self.pending(s, k),
                        bound is Some ==> {
                            let (o, bk) = bound->0;
                            &&& bk.rank() < r2
                            &&& bk != kind
                            &&& self.pending(s, bk)
                            &&& self.peek(s, bk) == o
                            &&& forall|k: PrimitiveKind|
                                k.rank() < r2 && k != kind && #[trigger] self.pending(s, k)
                                    ==> k == bk || precedes(o, bk, self.peek(s, k), k)
                        },
                    decreases 7 - r2,
                {
                    let k = kind_of_rank(r2);
                    if k != kind {
                        let qs = scene.primitives(k);
                        let c = self.cursors[r2];
                        if c < qs.len() {
                            let o = qs[c].order;
                            match bound {
                                None => {
                                    bound = Some((o, k));
                                },
                                Some((bo, _)) => {
                                    if o < bo {
                                        bound = Some((o, k));
                                    }
                                },
                            }
                        }
                    }
                    r2 = r2 + 1;
                }
                proof {
                    assert forall|k: PrimitiveKind|
                        k != kind && #[trigger] self.pending(s, k) implies bound is Some && (k == (bound->0).1
                        || precedes((bound->0).0, (bound->0).1, self.peek(s, k), k)) by {
                        assert(k.rank() < 7);
                    }
                    if bound is None {
                        assert forall|k: PrimitiveKind| k != kind implies !#[trigger] self.pending(s, k) by {
                            assert(k.rank() < 7);
                        }
                    }
                }
                assert(start == self.cursor(kind) && self.pending(s, kind));
                assert(ps@ == s.primitives_of(kind));
                assert(start < ps.len());
                let sprite = is_sprite_kind(kind);
                let texture = ps[start].texture_id;
                let mut end: usize = start + 1;
                let mut stopped = false;
                while end < ps.len()
                    invariant_except_break
                        !stopped,
                    invariant
                        self.cursors@ == old(self).cursors@,
                        self.wf_for(s),
                        s == *scene,
                        ps@ == s.primitives_of(kind),
                        start == self.cursor(kind),
                        start < end <= ps@.len(),
                        first_rank == kind.rank(),
                        sprite == kind.is_sprite(),
                        bound is None ==> forall|k: PrimitiveKind| k != kind ==> !#[trigger] self.pending(s, k),
                        bound is Some ==> {
                            let (bo, bk) = bound->0;
                            &&& bk != kind
                            &&& self.pending(s, bk)
                            &&& self.peek(s, bk) == bo
                        },
                        forall|k: PrimitiveKind|
                            k != kind && #[trigger] self.pending(s, k) ==> bound is Some && (k == (bound->0).1
                            || precedes((bound->0).0, (bound->0).1, self.peek(s, k), k)),
                        texture == texture_at(s, kind, start as int),
                        forall|m: int| start < m < end ==> #[trigger] self.before_others(s, kind, m),
                        sprite ==> forall|m: int|
                            start <= m < end ==> #[trigger] texture_at(s, kind, m) == texture,
                        stopped ==> end < ps@.len() && (!self.before_others(s, kind, end as int) || (sprite
                            && texture_at(s, kind, end as int) != texture)),
                    ensures
                        end == ps@.len() || stopped,
                    decreases ps.len() - end,
                {
                    let o = ps[end].order;
                    let in_order = match bound {
                        None => true,
                        Some((bo, bk)) => o < bo || (o == bo && first_rank < bk.rank_of()),
                    };
                    proof {
                        if in_order {
                            assert forall|k2: PrimitiveKind|
                                k2 != kind && #[trigger] self.pending(s, k2) implies precedes(
                                order_at(s, kind, end as int),
                                kind,
                                self.peek(s, k2),
                                k2,
                            ) by {
                                assert(k2.rank() < 7);
                            }
                        } else {
                            let bk = (bound->0).1;
                            assert(self.pending(s, bk));
                        }
                    }
                    if !in_order || (sprite && ps[end].texture_id != texture) {
                        stopped = true;
                        break;
                    }
                    end = end + 1;
                }
                self.cursors.set(first_rank, end);
                let texture_id = if sprite {
                    Some(texture)
                } else {
                    None
                };
                let b = PrimitiveBatch { kind, texture_id, start, end };
                proof {
                    assert(old(self).next_batch(s, b));
                    assert forall|k: PrimitiveKind| 0 <= #[trigger] self.cursor(k) <= len_of(s, k) by {
                        assert(old(self).cursor(k) <= len_of(s, k));
                    }
                }
                Some(b)
            },
        }
    }
}

/// Where the batches of `k` in `bs` have reached in `k`'s store.
pub open spec fn kind_end(bs: Seq<PrimitiveBatch>, k: PrimitiveKind) -> int
    decreases bs.len(),
{
    if bs.len() == 0 {
        0
    } else if bs.last().kind == k {
        bs.last().end as int
    } else {
        kind_end(bs.drop_last(), k)
    }
}

/// The order of the last primitive of `b`.
pub open spec fn last_order<T>(s: Scene<T>, b: PrimitiveBatch) -> u32 {
    order_at(s, b.kind, b.end - 1)
}

/// The order of the first primitive of `b`.
pub open spec fn first_order<T>(s: Scene<T>, b: PrimitiveBatch) -> u32 {
    order_at(s, b.kind, b.start as int)
}

/// Each batch is a non-empty run of its store that starts where the previous
/// batch of its kind ended; a sprite batch shares one texture.
pub open spec fn batch_ok<T>(s: Scene<T>, bs: Seq<PrimitiveBatch>, i: int) -> bool {
    let b = bs[i];
    &&& b.start == kind_end(bs.take(i), b.kind)
    &&& b.start < b.end <= len_of(s, b.kind)
    &&& b.kind.is_sprite() ==> {
        &&& b.texture_id == Some(texture_at(s, b.kind, b.start as int))
        &&& forall|m: int|
            b.start <= m < b.end ==> #[trigger] texture_at(s, b.kind, m) == texture_at(s, b.kind, b.start as int)
    }
    &&& !b.kind.is_sprite() ==> b.texture_id is None
}

/// Two neighbouring batches: the first ends before the second begins, and
/// they are of different kinds or are sprite batches of different textures.
pub open spec fn neighbours_ok<T>(s: Scene<T>, a: PrimitiveBatch, b: PrimitiveBatch) -> bool {
    &&& last_order(s, a) < first_order(s, b)
    &&& a.kind == b.kind ==> a.kind.is_sprite() && a.texture_id != b.texture_id
}

impl BatchIterator {
    /// How many primitives are left over all kinds.
    pub open spec fn remaining<T>(&self, s: Scene<T>) -> int {
        (len_of(s, PrimitiveKind::Shadow) - self.cursor(PrimitiveKind::Shadow)) + (len_of(
            s,
            PrimitiveKind::Quad,
        ) - self.cursor(PrimitiveKind::Quad)) + (len_of(s, PrimitiveKind::Path) - self.cursor(
            PrimitiveKind::Path,
        )) + (len_of(s, PrimitiveKind::Underline) - self.cursor(PrimitiveKind::Underline)) + (len_of(
            s,
            PrimitiveKind::MonochromeSprite,
        ) - self.cursor(PrimitiveKind::MonochromeSprite)) + (len_of(s, PrimitiveKind::PolychromeSprite)
            - self.cursor(PrimitiveKind::PolychromeSprite)) + (len_of(s, PrimitiveKind::Surface)
            - self.cursor(PrimitiveKind::Surface))
    }
}

impl<T> Scene<T> {
    /// The draw batches of a finished scene, in paint order: a k-way merge of
    /// the stores that extends each batch as far as order (and, for sprites,
    /// texture) allows.
    pub fn batches(&self) -> (bs: Vec<PrimitiveBatch>)
        requires
            self.wf(),
        ensures
            forall|i: int| 0 <= i < bs@.len() ==> #[trigger] batch_ok(*self, bs@, i),
            forall|k: PrimitiveKind| #[trigger] kind_end(bs@, k) == len_of(*self, k),
            forall|i: int|
                0 <= i < bs@.len() - 1 ==> #[trigger] neighbours_ok(*self, bs@[i], bs@[i + 1]),
    {
        let ghost s = *self;
        proof {
            s.lemma_orders_distinct();
        }
        let mut it = BatchIterator::new();
        let mut bs: Vec<PrimitiveBatch> = Vec::new();
        assert forall|k: PrimitiveKind| 0 <= #[trigger] it.cursor(k) <= len_of(s, k) by {
            assert(it.cursor(k) == 0);
        }
        loop
            invariant
                s == *self,
                it.wf_for(s),
                forall|k: PrimitiveKind, i: int, j: int|
                    0 <= i < j < len_of(s, k) ==> (#[trigger] order_at(s, k, i)) < (#[trigger] order_at(s, k, j)),
                forall|k1: PrimitiveKind, k2: PrimitiveKind, i: int, j: int|
                    k1 != k2 && 0 <= i < len_of(s, k1) && 0 <= j < len_of(s, k2) ==> (#[trigger] order_at(s, k1, i))
                        != (#[trigger] order_at(s, k2, j)),
                forall|k: PrimitiveKind| #[trigger] kind_end(bs@, k) == it.cursor(k),
                forall|i: int| 0 <= i < bs@.len() ==> #[trigger] batch_ok(s, bs@, i),
                forall|i: int|
                    0 <= i < bs@.len() - 1 ==> #[trigger] neighbours_ok(s, bs@[i], bs@[i + 1]),
                bs@.len() > 0 ==> forall|k: PrimitiveKind|
                    #[trigger] it.pending(s, k) ==> last_order(s, bs@.last()) < it.peek(s, k),
                bs@.len() > 0 ==> (it.selects(s, bs@.last().kind) ==> bs@.last().kind.is_sprite()
                    && texture_at(s, bs@.last().kind, it.cursor(bs@.last().kind)) != texture_at(
                    s,
                    bs@.last().kind,
                    bs@.last().start as int,
                )),
            decreases it.remaining(s),
        {
            let ghost it0 = it;
            let ghost bs0 = bs@;
            match it.next(self) {
                None => {
                    assert forall|k: PrimitiveKind| #[trigger] kind_end(bs@, k) == len_of(s, k) by {
                        assert(!it0.pending(s, k));
                    }
                    return bs;
                },
                Some(b) => {
                    proof {
                        let k = b.kind;
                        assert(forall|k2: PrimitiveKind| k2 != k ==> #[trigger] it.cursor(k2) == it0.cursor(k2));
                        assert(it.cursor(k) == b.end);
                        assert(bs0.push(b).take(bs0.len() as int) == bs0);
                        assert(bs0.push(b).drop_last() == bs0);
                    }
                    bs.push(b);
                    proof {
                        let k = b.kind;
                        assert forall|k2: PrimitiveKind| #[trigger] kind_end(bs@, k2) == it.cursor(k2) by {
                            assert(bs@.drop_last() == bs0);
                            assert(bs@.last() == b);
                            assert(kind_end(bs0, k2) == it0.cursor(k2));
                            if k2 != k {
                                assert(it.cursor(k2) == it0.cursor(k2));
                            }
                        }
                        assert forall|i: int| 0 <= i < bs@.len() implies #[trigger] batch_ok(s, bs@, i) by {
                            if i < bs0.len() {
                                assert(bs@.take(i) == bs0.take(i));
                                assert(bs@[i] == bs0[i]);
                                assert(batch_ok(s, bs0, i));
                            } else {
                                assert(bs@.take(i) == bs0);
                            }
                        }
                        assert forall|i: int|
                            0 <= i < bs@.len() - 1 implies #[trigger] neighbours_ok(s, bs@[i], bs@[i + 1]) by {
                            if i < bs0.len() - 1 {
                                assert(neighbours_ok(s, bs0[i], bs0[i + 1]));
                            } else {
                                assert(bs@[i] == bs0.last());
                                assert(bs@[i + 1] == b);
                                assert(it0.pending(s, k));
                                assert(first_order(s, b) == it0.peek(s, k));
                                assert(batch_ok(s, bs0, bs0.len() - 1));
                                assert(bs0[bs0.len() - 1] == bs0.last());
                                if bs0.last().kind == k {
                                    assert(it0.selects(s, k));
                                }
                            }
                        }
                        assert forall|k2: PrimitiveKind|
                            #[trigger] it.pending(s, k2) implies last_order(s, b) < it.peek(s, k2) by {
                            if k2 == k {
                                assert(order_at(s, k, b.end - 1) < order_at(s, k, b.end as int));
                            } else {
                                assert(it0.pending(s, k2));
                                if b.end - 1 > b.start {
                                    assert(it0.before_others(s, k, b.end - 1));
                                } else {
                                    assert(it0.selects(s, k));
                                }
                            }
                        }
                        if it.selects(s, k) {
                            assert(b.end < len_of(s, k));
                            if !it0.before_others(s, k, b.end as int) {
                                let k2 = choose|k2: PrimitiveKind|
                                    k2 != k && #[trigger] it0.pending(s, k2) && !precedes(
                                        order_at(s, k, b.end as int),
                                        k,
                                        it0.peek(s, k2),
                                        k2,
                                    );
                                assert(it.cursor(k2) == it0.cursor(k2));
                                assert(it.pending(s, k2));
                            }
                        }
                        assert(it.remaining(s) < it0.remaining(s));
                    }
                },
            }
        }
    }
}

/// `x` is the order of some primitive of `s`.
pub open spec fn is_order_of<T>(s: Scene<T>, x: u32) -> bool {
    exists|k: PrimitiveKind, i: int| 0 <= i < len_of(s, k) && x == #[trigger] order_at(s, k, i)
}

/// The orders of a batch's primitives, in store order.
pub open spec fn run_orders<T>(s: Scene<T>, b: PrimitiveBatch) -> Seq<u32> {
    Seq::new((b.end - b.start) as nat, |m: int| order_at(s, b.kind, b.start + m))
}

/// The orders met when the batches are read one after another.
pub open spec fn batch_orders<T>(s: Scene<T>, bs: Seq<PrimitiveBatch>) -> Seq<u32>
    decreases bs.len(),
{
    if bs.len() == 0 {
        Seq::empty()
    } else {
        batch_orders(s, bs.drop_last()) + run_orders(s, bs.last())
    }
}

proof fn lemma_batch_orders_increase<T>(s: Scene<T>, bs: Seq<PrimitiveBatch>)
    requires
        s.wf(),
        forall|i: int| 0 <= i < bs.len() ==> (#[trigger] bs[i]).start < bs[i].end <= len_of(s, bs[i].kind),
        forall|i: int| 0 <= i < bs.len() - 1 ==> #[trigger] neighbours_ok(s, bs[i], bs[i + 1]),
    ensures
        forall|i: int, j: int|
            0 <= i < j < batch_orders(s, bs).len() ==> (#[trigger] batch_orders(s, bs)[i]) < (
            #[trigger] batch_orders(s, bs)[j]),
        bs.len() > 0 ==> batch_orders(s, bs).len() > 0 && batch_orders(s, bs).last() == last_order(
            s,
            bs.last(),
        ),
    decreases bs.len(),
{
    if bs.len() > 0 {
        s.lemma_orders_distinct();
        let pre = bs.drop_last();
        let b = bs.last();
        assert(b == bs[bs.len() - 1]);
        assert forall|i: int| 0 <= i < pre.len() implies (#[trigger] pre[i]).start < pre[i].end
            <= len_of(s, pre[i].kind) by {
            assert(pre[i] == bs[i]);
        }
        assert forall|i: int| 0 <= i < pre.len() - 1 implies #[trigger] neighbours_ok(s, pre[i], pre[i + 1]) by {
            assert(pre[i] == bs[i] && pre[i + 1] == bs[i + 1]);
        }
        lemma_batch_orders_increase(s, pre);
        let os = batch_orders(s, pre);
        let run = run_orders(s, b);
        let all = batch_orders(s, bs);
        assert(all == os + run);
        if pre.len() > 0 {
            let i = bs.len() - 2;
            assert(pre.last() == bs[i]);
            assert(neighbours_ok(s, bs[i], bs[i + 1]));
        }
        assert forall|i: int, j: int| 0 <= i < j < all.len() implies (#[trigger] all[i]) < (#[trigger] all[j]) by {
            if j < os.len() {
                assert(all[i] == os[i] && all[j] == os[j]);
            } else if i >= os.len() {
                assert(all[i] == order_at(s, b.kind, b.start + i - os.len()));
                assert(all[j] == order_at(s, b.kind, b.start + j - os.len()));
            } else {
                assert(all[j] == order_at(s, b.kind, b.start + j - os.len()));
                if i < os.len() - 1 {
                    assert(os[i] < os[os.len() - 1]);
                }
                if j - os.len() > 0 {
                    assert(order_at(s, b.kind, b.start as int) < order_at(s, b.kind, b.start + j - os.len()));
                }
            }
        }
        assert(all.last() == run.last());
    }
}

proof fn lemma_batch_orders_cover<T>(s: Scene<T>, bs: Seq<PrimitiveBatch>)
    requires
        forall|i: int| 0 <= i < bs.len() ==> #[trigger] batch_ok(s, bs, i),
    ensures
        forall|k: PrimitiveKind, i: int|
            0 <= i < kind_end(bs, k) ==> batch_orders(s, bs).contains(#[trigger] order_at(s, k, i)),
        forall|t: int|
            0 <= t < batch_orders(s, bs).len() ==> is_order_of(s, #[trigger] batch_orders(s, bs)[t]),
    decreases bs.len(),
{
    if bs.len() > 0 {
        let pre = bs.drop_last();
        let b = bs.last();
        assert(b == bs[bs.len() - 1]);
        assert forall|i: int| 0 <= i < pre.len() implies #[trigger] batch_ok(s, pre, i) by {
            assert(pre.take(i) == bs.take(i));
            assert(pre[i] == bs[i]);
            assert(batch_ok(s, bs, i));
        }
        lemma_batch_orders_cover(s, pre);
        assert(batch_ok(s, bs, bs.len() - 1));
        assert(bs.take(bs.len() - 1) == pre);
        let os = batch_orders(s, pre);
        let all = batch_orders(s, bs);
        assert(all == os + run_orders(s, b));
        assert forall|k: PrimitiveKind, i: int|
            0 <= i < kind_end(bs, k) implies all.contains(#[trigger] order_at(s, k, i)) by {
            if k == b.kind && i >= b.start {
                assert(all[os.len() + i - b.start] == order_at(s, k, i));
            } else {
                assert(os.contains(order_at(s, k, i)));
                let t = choose|t: int| 0 <= t < os.len() && os[t] == order_at(s, k, i);
                assert(all[t] == os[t]);
            }
        }
        assert forall|t: int|
            0 <= t < batch_orders(s, bs).len() implies is_order_of(s, #[trigger] batch_orders(s, bs)[t]) by {
            if t < os.len() {
                assert(all[t] == os[t]);
                assert(is_order_of(s, os[t]));
            } else {
                let i = b.start + t - os.len();
                assert(all[t] == order_at(s, b.kind, i));
                assert(0 <= i < len_of(s, b.kind));
                assert(batch_orders(s, bs)[t] == order_at(s, b.kind, i));
            }
        }
    } else {
        assert(batch_orders(s, bs) =~= Seq::<u32>::empty());
    }
}

/// Reading the batches of a finished scene one after another meets the
/// orders of all its primitives, each once, in strictly increasing order:
/// the sorted union of every kind's orders.
pub proof fn lemma_batches_give_sorted_union<T>(s: Scene<T>, bs: Seq<PrimitiveBatch>)
    requires
        s.wf(),
        forall|i: int| 0 <= i < bs.len() ==> #[trigger] batch_ok(s, bs, i),
        forall|k: PrimitiveKind| #[trigger] kind_end(bs, k) == len_of(s, k),
        forall|i: int| 0 <= i < bs.len() - 1 ==> #[trigger] neighbours_ok(s, bs[i], bs[i + 1]),
    ensures
        forall|i: int, j: int|
            0 <= i < j < batch_orders(s, bs).len() ==> (#[trigger] batch_orders(s, bs)[i]) < (
            #[trigger] batch_orders(s, bs)[j]),
        forall|k: PrimitiveKind, i: int|
            0 <= i < len_of(s, k) ==> batch_orders(s, bs).contains(#[trigger] order_at(s, k, i)),
        forall|t: int|
            0 <= t < batch_orders(s, bs).len() ==> is_order_of(s, #[trigger] batch_orders(s, bs)[t]),
{
    assert forall|i: int| 0 <= i < bs.len() implies (#[trigger] bs[i]).start < bs[i].end <= len_of(
        s,
        bs[i].kind,
    ) by {
        assert(batch_ok(s, bs, i));
    }
    lemma_batch_orders_increase(s, bs);
    lemma_batch_orders_cover(s, bs);
    assert forall|k: PrimitiveKind, i: int|
        0 <= i < len_of(s, k) implies batch_orders(s, bs).contains(#[trigger] order_at(s, k, i)) by {
        assert(kind_end(bs, k) == len_of(s, k));
    }
}

} // verus!
