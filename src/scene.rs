use crate::bounds_tree::{BoundsTree, BoundsSearchResult, hits, lemma_hits_ordered};
use crate::geometry::{Bounds, Point};
use crate::primitive::{HoverGroup, Primitive, PrimitiveIndex, PrimitiveKind};
use crate::primitive_set::{
    GroupHover, PrimitiveMetadata, PrimitiveSet, applied, consumed, groups_of,
    ascending, lemma_applied_orders, lemma_variants_for_index, memberships_for, sort_by_order,
    variants_for,
};
use vstd::prelude::*;

verus! {

/// Where a primitive is hit-tested: its bounds cut by its content mask, or
/// `None` when nothing of it is left.
pub open spec fn clipped_bounds<T>(p: Primitive<T>) -> Option<Bounds> {
    p.bounds.clip(p.content_mask.bounds)
}

/// The order an insertion returns when `count` orders were handed out before.
pub open spec fn order_for<T>(count: nat, p: Primitive<T>) -> Option<u32> {
    if clipped_bounds(p) is Some {
        Some(count as u32)
    } else {
        None
    }
}

/// How many orders are handed out after inserting `p`.
pub open spec fn count_after<T>(count: nat, p: Primitive<T>) -> nat {
    if clipped_bounds(p) is Some {
        count + 1
    } else {
        count
    }
}

/// The results of inserting `ps` one after another, of any kinds, into a
/// scene that has handed out `count` orders.
pub open spec fn insertion_orders<T>(count: nat, ps: Seq<Primitive<T>>) -> Seq<Option<u32>>
    decreases ps.len(),
{
    if ps.len() == 0 {
        Seq::empty()
    } else {
        seq![order_for(count, ps[0])] + insertion_orders(count_after(count, ps[0]), ps.skip(1))
    }
}

proof fn lemma_insertion_orders_bounds<T>(count: nat, ps: Seq<Primitive<T>>)
    requires
        count + ps.len() <= u32::MAX,
    ensures
        insertion_orders(count, ps).len() == ps.len(),
        forall|i: int|
            0 <= i < ps.len() && (#[trigger] insertion_orders(count, ps)[i]) is Some ==> count
                <= insertion_orders(count, ps)[i]->0 < count + ps.len(),
    decreases ps.len(),
{
    if ps.len() > 0 {
        lemma_insertion_orders_bounds(count_after(count, ps[0]), ps.skip(1));
        assert forall|i: int|
            0 <= i < ps.len() && (#[trigger] insertion_orders(count, ps)[i]) is Some implies count
                <= insertion_orders(count, ps)[i]->0 < count + ps.len() by {
            if i > 0 {
                assert(insertion_orders(count, ps)[i] == insertion_orders(count_after(count, ps[0]), ps.skip(1))[i - 1]);
            }
        }
    }
}

/// Orders returned by successive insertions strictly increase in call order,
/// so they are also pairwise distinct.
pub proof fn lemma_orders_strictly_increase<T>(count: nat, ps: Seq<Primitive<T>>)
    requires
        count + ps.len() <= u32::MAX,
    ensures
        forall|i: int, j: int|
            0 <= i < j < ps.len() && (#[trigger] insertion_orders(count, ps)[i]) is Some
                && (#[trigger] insertion_orders(count, ps)[j]) is Some ==> insertion_orders(count, ps)[i]->0
                < insertion_orders(count, ps)[j]->0,
    decreases ps.len(),
{
    if ps.len() > 0 {
        let rest = insertion_orders(count_after(count, ps[0]), ps.skip(1));
        lemma_orders_strictly_increase(count_after(count, ps[0]), ps.skip(1));
        lemma_insertion_orders_bounds(count_after(count, ps[0]), ps.skip(1));
        assert forall|i: int, j: int|
            0 <= i < j < ps.len() && (#[trigger] insertion_orders(count, ps)[i]) is Some
                && (#[trigger] insertion_orders(count, ps)[j]) is Some implies insertion_orders(count, ps)[i]->0
                < insertion_orders(count, ps)[j]->0 by {
            assert(insertion_orders(count, ps)[j] == rest[j - 1]);
            if i > 0 {
                assert(insertion_orders(count, ps)[i] == rest[i - 1]);
            }
        }
    }
}

/// The group hovers with every payload moved to depth `order`.
pub open spec fn at_order_all<T>(ghs: Seq<GroupHover<T>>, order: u32) -> Seq<GroupHover<T>> {
    ghs.map_values(
        |gh: GroupHover<T>|
            (
                gh.0,
                match gh.1 {
                    Some(v) => Some(v.at_order(order)),
                    None => None,
                },
            ),
    )
}

/// A hover variant moved to depth `order`.
pub open spec fn variant_at_order<T>(v: Option<Primitive<T>>, order: u32) -> Option<Primitive<T>> {
    match v {
        Some(p) => Some(p.at_order(order)),
        None => None,
    }
}

/// Every variant registered from `at_order_all(ghs, order)` sits at `index`
/// and at depth `order`.
pub proof fn lemma_variants_at_order<T>(index: usize, ghs: Seq<GroupHover<T>>, order: u32)
    ensures
        forall|j: int|
            0 <= j < variants_for(index, at_order_all(ghs, order)).len() ==> {
                let v = #[trigger] variants_for(index, at_order_all(ghs, order))[j];
                &&& v.index == index
                &&& v.variant is Some
                &&& v.variant->0.order == order
            },
    decreases ghs.len(),
{
    if ghs.len() > 0 {
        lemma_variants_at_order(index, ghs.drop_last(), order);
        assert(at_order_all(ghs, order).drop_last() == at_order_all(ghs.drop_last(), order));
    }
}

/// The group hovers with every payload moved to depth `order`.
fn reorder_group_hovers<T>(group_hovers: Vec<GroupHover<T>>, order: u32) -> (r: Vec<GroupHover<T>>)
    ensures
        r@ == at_order_all(group_hovers@, order),
{
    let ghost ghs = group_hovers@;
    let mut reordered: Vec<GroupHover<T>> = Vec::new();
    for gh in it: group_hovers
        invariant
            it.seq() == ghs,
            reordered@ == at_order_all(ghs.take(it.index() as int), order),
    {
        assert(ghs.take(it.index() + 1) == ghs.take(it.index() as int).push(gh));
        let (group, variant) = gh;
        let variant = match variant {
            Some(v) => Some(v.with_order(order)),
            None => None,
        };
        reordered.push((group, variant));
        assert(reordered@ =~= at_order_all(ghs.take(it.index() + 1), order));
    }
    assert(ghs.take(ghs.len() as int) == ghs);
    reordered
}

/// The most recent registration of `name`, if any.
pub open spec fn lookup_name(names: Seq<(String, HoverGroup)>, name: Seq<char>) -> Option<HoverGroup>
    decreases names.len(),
{
    if names.len() == 0 {
        None
    } else if names.last().0@ == name {
        Some(names.last().1)
    } else {
        lookup_name(names.drop_last(), name)
    }
}

impl<T> Default for Scene<T> {
    fn default() -> (r: Scene<T>)
        ensures
            r.wf(),
            r.is_empty_scene(),
    {
        Scene::new()
    }
}

/// The primitives of one frame, one store per kind, ordered through one
/// shared bounds index.
pub struct Scene<T> {
    shadows: PrimitiveSet<T>,
    quads: PrimitiveSet<T>,
    paths: PrimitiveSet<T>,
    underlines: PrimitiveSet<T>,
    monochrome_sprites: PrimitiveSet<T>,
    polychrome_sprites: PrimitiveSet<T>,
    surfaces: PrimitiveSet<T>,
    bounds_tree: BoundsTree,
    next_hover_group: usize,
    hover_groups_by_name: Vec<(String, HoverGroup)>,
}

impl<T> Scene<T> {
    /// The store of one kind.
    pub closed spec fn store(&self, kind: PrimitiveKind) -> PrimitiveSet<T> {
        match kind {
            PrimitiveKind::Shadow => self.shadows,
            PrimitiveKind::Quad => self.quads,
            PrimitiveKind::Path => self.paths,
            PrimitiveKind::Underline => self.underlines,
            PrimitiveKind::MonochromeSprite => self.monochrome_sprites,
            PrimitiveKind::PolychromeSprite => self.polychrome_sprites,
            PrimitiveKind::Surface => self.surfaces,
        }
    }

    /// The scene with the store of `kind` replaced.
    pub closed spec fn with_store(self, kind: PrimitiveKind, s: PrimitiveSet<T>) -> Scene<T> {
        match kind {
            PrimitiveKind::Shadow => Scene { shadows: s, ..self },
            PrimitiveKind::Quad => Scene { quads: s, ..self },
            PrimitiveKind::Path => Scene { paths: s, ..self },
            PrimitiveKind::Underline => Scene { underlines: s, ..self },
            PrimitiveKind::MonochromeSprite => Scene { monochrome_sprites: s, ..self },
            PrimitiveKind::PolychromeSprite => Scene { polychrome_sprites: s, ..self },
            PrimitiveKind::Surface => Scene { surfaces: s, ..self },
        }
    }

    proof fn lemma_with_store(self, kind: PrimitiveKind, s: PrimitiveSet<T>)
        ensures
            self.with_store(kind, s).store(kind) == s,
            forall|k: PrimitiveKind| k != kind ==> #[trigger] self.with_store(kind, s).store(k) == self.store(k),
            self.with_store(kind, s).bounds_tree == self.bounds_tree,
            self.with_store(kind, s).next_hover_group == self.next_hover_group,
            self.with_store(kind, s).hover_groups_by_name == self.hover_groups_by_name,
    {
    }

    proof fn lemma_wf_same_stores(old: Scene<T>, new: Scene<T>)
        requires
            old.wf(),
            new.bounds_tree == old.bounds_tree,
            forall|k: PrimitiveKind| #[trigger] new.store(k) == old.store(k),
        ensures
            new.wf(),
    {
        reveal(Scene::store_linked);
        reveal(Scene::entries_linked);
        assert forall|k: PrimitiveKind| #[trigger] new.store_linked(k) by {
            assert(old.store_linked(k));
        }
    }

    /// The primitives of one kind, in their store's order.
    pub closed spec fn primitives_of(&self, kind: PrimitiveKind) -> Seq<Primitive<T>> {
        self.store(kind).primitives@
    }

    /// The rectangles recorded so far; the order of each is its position.
    pub closed spec fn entries(&self) -> Seq<BoundsSearchResult> {
        self.bounds_tree.entries@
    }

    /// How many orders have been handed out.
    pub closed spec fn order_count(&self) -> nat {
        self.bounds_tree.entries@.len()
    }

    pub closed spec fn next_group(&self) -> nat {
        self.next_hover_group as nat
    }

    pub closed spec fn group_names(&self) -> Seq<(String, HoverGroup)> {
        self.hover_groups_by_name@
    }

    /// A scene as it is when created or cleared.
    pub open spec fn is_empty_scene(&self) -> bool {
        &&& forall|k: PrimitiveKind| (#[trigger] self.store(k)).is_empty_set()
        &&& self.order_count() == 0
        &&& self.next_group() == 0
        &&& self.group_names().len() == 0
    }

    /// The store of `kind` agrees with the bounds index: each primitive's
    /// order names an entry that points back at it, orders strictly rise
    /// along the store, and variants share their primitive's order.
    #[verifier::opaque]
    pub closed spec fn store_linked(&self, kind: PrimitiveKind) -> bool {
        let s = self.store(kind);
        let es = self.bounds_tree.entries@;
        &&& s.wf()
        &&& s.primitives.len() <= es.len()
        &&& forall|i: int|
            0 <= i < s.primitives.len() ==> {
                &&& (#[trigger] s.primitives[i]).order < es.len()
                &&& es[s.primitives[i].order as int].data == PrimitiveIndex { kind, index: i as usize }
            }
        &&& forall|i: int, j: int|
            0 <= i < j < s.primitives.len() ==> (#[trigger] s.primitives[i]).order
                < (#[trigger] s.primitives[j]).order
        &&& forall|i: int|
            0 <= i < s.metadata.len() && (#[trigger] s.metadata[i]) is Some
                && s.metadata[i]->0.hover is Some ==> s.metadata[i]->0.hover->0.order
                == s.primitives[i].order
        &&& forall|j: int|
            0 <= j < s.group_variants.len() && (#[trigger] s.group_variants[j]).variant is Some
                ==> s.group_variants[j].variant->0.order
                == s.primitives[s.group_variants[j].index as int].order
    }

    /// Each entry of the bounds index points at a primitive holding its order.
    #[verifier::opaque]
    pub closed spec fn entries_linked(&self) -> bool {
        let es = self.bounds_tree.entries@;
        forall|j: int|
            0 <= j < es.len() ==> {
                let d = (#[trigger] es[j]).data;
                &&& d.index < self.store(d.kind).primitives.len()
                &&& self.store(d.kind).primitives[d.index as int].order == j
            }
    }

    pub closed spec fn wf(&self) -> bool {
        &&& self.bounds_tree.wf()
        &&& forall|k: PrimitiveKind| #[trigger] self.store_linked(k)
        &&& self.entries_linked()
    }

    pub fn new() -> (r: Scene<T>)
        ensures
            r.wf(),
            r.is_empty_scene(),
    {
        let r = Scene {
            shadows: PrimitiveSet::new(),
            quads: PrimitiveSet::new(),
            paths: PrimitiveSet::new(),
            underlines: PrimitiveSet::new(),
            monochrome_sprites: PrimitiveSet::new(),
            polychrome_sprites: PrimitiveSet::new(),
            surfaces: PrimitiveSet::new(),
            bounds_tree: BoundsTree::new(),
            next_hover_group: 0,
            hover_groups_by_name: Vec::new(),
        };
        reveal(Scene::store_linked);
        reveal(Scene::entries_linked);
        assert forall|k: PrimitiveKind| #[trigger] r.store_linked(k) && r.store(k).is_empty_set() by {
            assert(r.store(k).primitives.len() == 0);
        }
        r
    }

    /// Empties the scene for the next frame; group identifiers start over.
    pub fn clear(&mut self)
        ensures
            final(self).wf(),
            final(self).is_empty_scene(),
    {
        self.shadows.clear();
        self.quads.clear();
        self.paths.clear();
        self.underlines.clear();
        self.monochrome_sprites.clear();
        self.polychrome_sprites.clear();
        self.surfaces.clear();
        self.bounds_tree.clear();
        self.next_hover_group = 0;
        self.hover_groups_by_name = Vec::new();
        reveal(Scene::store_linked);
        reveal(Scene::entries_linked);
        assert forall|k: PrimitiveKind| #[trigger] self.store_linked(k) && self.store(
            k,
        ).is_empty_set() by {
            assert(self.store(k).primitives.len() == 0);
        }
    }

    /// The identifier for a named group (the same one for the same name
    /// within a frame), or a fresh one when `name` is `None`.
    pub fn hover_group(&mut self, name: Option<String>) -> (r: HoverGroup)
        requires
            old(self).wf(),
            old(self).next_group() < usize::MAX,
        ensures
            final(self).wf(),
            final(self).order_count() == old(self).order_count(),
            forall|k: PrimitiveKind| #[trigger] final(self).store(k) == old(self).store(k),
            final(self).entries() == old(self).entries(),
            name is Some && lookup_name(old(self).group_names(), (name->0)@) is Some ==> {
                &&& r == lookup_name(old(self).group_names(), (name->0)@)->0
                &&& final(self).next_group() == old(self).next_group()
                &&& final(self).group_names() == old(self).group_names()
            },
            !(name is Some && lookup_name(old(self).group_names(), (name->0)@) is Some) ==> {
                &&& r == HoverGroup(old(self).next_group() as usize)
                &&& final(self).next_group() == old(self).next_group() + 1
                &&& final(self).group_names() == match name {
                    Some(n) => old(self).group_names().push((n, r)),
                    None => old(self).group_names(),
                }
            },
    {
        match name {
            Some(n) => {
                let mut i: usize = self.hover_groups_by_name.len();
                let mut found: Option<HoverGroup> = None;
                assert(self.hover_groups_by_name@.take(i as int) == self.hover_groups_by_name@);
                while i > 0
                    invariant_except_break
                        found is None,
                    invariant
                        self.hover_groups_by_name@ == old(self).hover_groups_by_name@,
                        self.next_hover_group == old(self).next_hover_group,
                        self.wf(),
                        i <= self.hover_groups_by_name.len(),
                        found is None ==> lookup_name(self.hover_groups_by_name@, n@)
                            == lookup_name(self.hover_groups_by_name@.take(i as int), n@),
                        found is Some ==> lookup_name(self.hover_groups_by_name@, n@) == found,
                    ensures
                        found is None ==> i == 0,
                    decreases i,
                {
                    let ghost prefix = self.hover_groups_by_name@.take(i as int);
                    assert(prefix.drop_last() == self.hover_groups_by_name@.take(i - 1));
                    assert(prefix.last() == self.hover_groups_by_name@[i - 1]);
                    if self.hover_groups_by_name[i - 1].0 == n {
                        found = Some(self.hover_groups_by_name[i - 1].1);
                        break;
                    }
                    i = i - 1;
                }
                assert(found is None ==> lookup_name(self.hover_groups_by_name@, n@) is None) by {
                    if found is None {
                        assert(self.hover_groups_by_name@.take(i as int).len() == 0);
                    }
                }
                match found {
                    Some(group) => group,
                    None => {
                        let group = HoverGroup(self.next_hover_group);
                        self.next_hover_group = self.next_hover_group + 1;
                        self.hover_groups_by_name.push((n, group));
                        proof {
                            Self::lemma_wf_same_stores(*old(self), *self);
                        }
                        group
                    },
                }
            },
            None => {
                let group = HoverGroup(self.next_hover_group);
                self.next_hover_group = self.next_hover_group + 1;
                proof {
                    Self::lemma_wf_same_stores(*old(self), *self);
                }
                group
            },
        }
    }

    /// Whether the primitive behind `pi` stops the hover walk beneath it.
    pub open spec fn occludes_at(&self, pi: PrimitiveIndex) -> bool {
        self.store(pi.kind).occludes(pi.index as int)
    }

    /// The handles the hover walk visits, topmost first: every hit from the
    /// top down to, and including, the first one that occludes hover.
    pub open spec fn walk(&self, hs: Seq<BoundsSearchResult>) -> Seq<PrimitiveIndex>
        decreases hs.len(),
    {
        if hs.len() == 0 {
            Seq::empty()
        } else if self.occludes_at(hs.last().data) {
            seq![hs.last().data]
        } else {
            seq![hs.last().data] + self.walk(hs.drop_last())
        }
    }

    /// The groups of the visited primitives, in visiting order.
    pub open spec fn collected(&self, visited: Seq<PrimitiveIndex>) -> Seq<HoverGroup>
        decreases visited.len(),
    {
        if visited.len() == 0 {
            Seq::empty()
        } else {
            self.collected(visited.drop_last()) + groups_of(
                self.store(visited.last().kind).memberships@,
                visited.last().index,
            )
        }
    }

    /// The primitives of `kind` once every visited one shows its hover variant.
    pub open spec fn hovered_of(&self, kind: PrimitiveKind, visited: Seq<PrimitiveIndex>) -> Seq<
        Primitive<T>,
    > {
        let s = self.store(kind);
        Seq::new(
            s.primitives@.len(),
            |i: int|
                {
                    let m = s.metadata@[i];
                    if visited.contains(PrimitiveIndex { kind, index: i as usize }) && m is Some
                        && m->0.hover is Some {
                        m->0.hover->0
                    } else {
                        s.primitives@[i]
                    }
                },
        )
    }

    /// The metadata of `kind` once the visited hover variants are used up.
    pub open spec fn hovered_metadata_of(
        &self,
        kind: PrimitiveKind,
        visited: Seq<PrimitiveIndex>,
    ) -> Seq<Option<PrimitiveMetadata<T>>> {
        let s = self.store(kind);
        Seq::new(
            s.metadata@.len(),
            |i: int|
                {
                    let m = s.metadata@[i];
                    if visited.contains(PrimitiveIndex { kind, index: i as usize }) && m is Some {
                        Some(PrimitiveMetadata { occludes_hover: m->0.occludes_hover, hover: None })
                    } else {
                        m
                    }
                },
        )
    }

    /// The handles visited when the pointer is at `pointer`.
    pub open spec fn visited_at(&self, pointer: Point) -> Seq<PrimitiveIndex> {
        self.walk(hits(self.entries(), pointer))
    }

    /// The groups activated when the pointer is at `pointer`.
    pub open spec fn active_at(&self, pointer: Point) -> Seq<HoverGroup> {
        self.collected(self.visited_at(pointer))
    }

    /// The primitives of `kind` after hover resolution at `pointer`: visited
    /// primitives show their hover variant, then every variant of an active
    /// group is put in place.
    pub open spec fn resolved_of(&self, kind: PrimitiveKind, pointer: Point) -> Seq<Primitive<T>> {
        applied(
            self.hovered_of(kind, self.visited_at(pointer)),
            self.store(kind).group_variants@,
            self.active_at(pointer),
        )
    }

    /// Every store ascends strictly by order.
    pub open spec fn is_sorted(&self) -> bool {
        forall|k: PrimitiveKind, i: int, j: int|
            0 <= i < j < self.primitives_of(k).len() ==> (#[trigger] self.primitives_of(k)[i]).order
                < (#[trigger] self.primitives_of(k)[j]).order
    }

    /// `new` differs from `old` only by payloads swapped in at equal depth and
    /// by variants used up.
    pub closed spec fn same_orders(old: Scene<T>, new: Scene<T>) -> bool {
        &&& new.bounds_tree == old.bounds_tree
        &&& forall|k: PrimitiveKind| {
            let s0 = #[trigger] old.store(k);
            let s1 = new.store(k);
            &&& s1.wf()
            &&& s1.primitives.len() == s0.primitives.len()
            &&& forall|i: int|
                0 <= i < s0.primitives.len() ==> (#[trigger] s1.primitives[i]).order
                    == s0.primitives[i].order
            &&& forall|i: int|
                0 <= i < s1.metadata.len() ==> (#[trigger] s1.metadata[i]) == s0.metadata[i] || (
                s1.metadata[i] is Some && s1.metadata[i]->0.hover is None)
            &&& s1.group_variants.len() == s0.group_variants.len()
            &&& forall|j: int|
                0 <= j < s1.group_variants.len() ==> (#[trigger] s1.group_variants[j]).index
                    == s0.group_variants[j].index && (s1.group_variants[j].variant is None
                    || s1.group_variants[j] == s0.group_variants[j])
        }
    }

    proof fn lemma_same_orders_keep_wf(old: Scene<T>, new: Scene<T>)
        requires
            old.wf(),
            Self::same_orders(old, new),
        ensures
            new.wf(),
            new.is_sorted(),
    {
        reveal(Scene::store_linked);
        reveal(Scene::entries_linked);
        assert forall|k: PrimitiveKind| #[trigger] new.store_linked(k) by {
            assert(old.store_linked(k));
            let s0 = old.store(k);
            let s1 = new.store(k);
            assert forall|i: int, j: int|
                0 <= i < j < s1.primitives.len() implies (#[trigger] s1.primitives[i]).order
                < (#[trigger] s1.primitives[j]).order by {
                assert(s0.primitives[i].order < s0.primitives[j].order);
            }
            assert forall|i: int|
                0 <= i < s1.metadata.len() && (#[trigger] s1.metadata[i]) is Some
                    && s1.metadata[i]->0.hover is Some implies s1.metadata[i]->0.hover->0.order
                == s1.primitives[i].order by {
                assert(s0.metadata[i] is Some);
            }
            assert forall|j: int|
                0 <= j < s1.group_variants.len() && (#[trigger] s1.group_variants[j]).variant is Some
                    implies s1.group_variants[j].variant->0.order
                == s1.primitives[s1.group_variants[j].index as int].order by {
                assert(s0.group_variants[j].variant is Some);
                assert(s0.wf());
                assert(s0.group_variants[j].index < s0.primitives.len());
            }
        }
        assert forall|k: PrimitiveKind, i: int, j: int|
            0 <= i < j < new.primitives_of(k).len() implies (#[trigger] new.primitives_of(k)[i]).order
            < (#[trigger] new.primitives_of(k)[j]).order by {
            assert(new.store_linked(k));
        }
    }

    proof fn lemma_hover_step(
        s0: Scene<T>,
        prev: PrimitiveSet<T>,
        next: PrimitiveSet<T>,
        visited: Seq<PrimitiveIndex>,
        d: PrimitiveIndex,
    )
        requires
            prev.primitives@ == s0.hovered_of(d.kind, visited),
            prev.metadata@ == s0.hovered_metadata_of(d.kind, visited),
            s0.store(d.kind).wf(),
            d.index < prev.primitives.len(),
            next.primitives@ == prev.hovered_primitives(d.index as int),
            next.metadata@ == prev.hovered_metadata(d.index as int),
        ensures
            next.primitives@ == s0.hovered_of(d.kind, visited.push(d)),
            next.metadata@ == s0.hovered_metadata_of(d.kind, visited.push(d)),
            prev.occludes(d.index as int) == s0.occludes_at(d),
    {
        let k = d.kind;
        let v2 = visited.push(d);
        assert forall|i: int| 0 <= i < s0.store(k).primitives.len() implies (#[trigger] v2.contains(
            PrimitiveIndex { kind: k, index: i as usize },
        )) == (visited.contains(PrimitiveIndex { kind: k, index: i as usize }) || i == d.index) by {
            if i == d.index {
                assert(v2[visited.len() as int] == d);
            }
            if visited.contains(PrimitiveIndex { kind: k, index: i as usize }) {
                let t = choose|t: int| 0 <= t < visited.len() && visited[t] == PrimitiveIndex { kind: k, index: i as usize };
                assert(v2[t] == visited[t]);
            }
            if v2.contains(PrimitiveIndex { kind: k, index: i as usize }) {
                let t = choose|t: int| 0 <= t < v2.len() && v2[t] == PrimitiveIndex { kind: k, index: i as usize };
                if t < visited.len() {
                    assert(visited[t] == v2[t]);
                }
            }
        }
        assert(next.primitives@ =~= s0.hovered_of(k, v2));
        assert(next.metadata@ =~= s0.hovered_metadata_of(k, v2));
    }

    proof fn lemma_hover_other_kind(s0: Scene<T>, k: PrimitiveKind, visited: Seq<PrimitiveIndex>, d: PrimitiveIndex)
        requires
            k != d.kind,
        ensures
            s0.hovered_of(k, visited.push(d)) == s0.hovered_of(k, visited),
            s0.hovered_metadata_of(k, visited.push(d)) == s0.hovered_metadata_of(k, visited),
    {
        let v2 = visited.push(d);
        assert forall|i: int| 0 <= i < s0.store(k).primitives.len() implies (#[trigger] v2.contains(
            PrimitiveIndex { kind: k, index: i as usize },
        )) == visited.contains(PrimitiveIndex { kind: k, index: i as usize }) by {
            if visited.contains(PrimitiveIndex { kind: k, index: i as usize }) {
                let t = choose|t: int| 0 <= t < visited.len() && visited[t] == PrimitiveIndex { kind: k, index: i as usize };
                assert(v2[t] == visited[t]);
            }
            if v2.contains(PrimitiveIndex { kind: k, index: i as usize }) {
                let t = choose|t: int| 0 <= t < v2.len() && v2[t] == PrimitiveIndex { kind: k, index: i as usize };
                if t < visited.len() {
                    assert(visited[t] == v2[t]);
                }
            }
        }
        assert(s0.hovered_of(k, v2) =~= s0.hovered_of(k, visited));
        assert(s0.store(k).metadata.len() == s0.store(k).metadata@.len());
        assert forall|i: int| 0 <= i < s0.store(k).metadata@.len() implies (#[trigger] v2.contains(
            PrimitiveIndex { kind: k, index: i as usize },
        )) == visited.contains(PrimitiveIndex { kind: k, index: i as usize }) by {
            if visited.contains(PrimitiveIndex { kind: k, index: i as usize }) {
                let t = choose|t: int| 0 <= t < visited.len() && visited[t] == PrimitiveIndex { kind: k, index: i as usize };
                assert(v2[t] == visited[t]);
            }
            if v2.contains(PrimitiveIndex { kind: k, index: i as usize }) {
                let t = choose|t: int| 0 <= t < v2.len() && v2[t] == PrimitiveIndex { kind: k, index: i as usize };
                if t < visited.len() {
                    assert(visited[t] == v2[t]);
                }
            }
        }
        assert(s0.hovered_metadata_of(k, v2) =~= s0.hovered_metadata_of(k, visited));
    }

    /// Hovers the primitive behind `pi` in its store.
    fn hover_at(&mut self, pi: PrimitiveIndex, hovered_groups: &mut Vec<HoverGroup>) -> (occludes: bool)
        requires
            old(self).store(pi.kind).wf(),
            pi.index < old(self).store(pi.kind).primitives.len(),
        ensures
            occludes == old(self).store(pi.kind).occludes(pi.index as int),
            final(self).store(pi.kind).wf(),
            final(self).store(pi.kind).primitives@ == old(self).store(pi.kind).hovered_primitives(pi.index as int),
            final(self).store(pi.kind).metadata@ == old(self).store(pi.kind).hovered_metadata(pi.index as int),
            final(self).store(pi.kind).memberships@ == old(self).store(pi.kind).memberships@,
            final(self).store(pi.kind).group_variants@ == old(self).store(pi.kind).group_variants@,
            forall|k: PrimitiveKind| k != pi.kind ==> #[trigger] final(self).store(k) == old(self).store(k),
            final(self).bounds_tree == old(self).bounds_tree,
            final(self).next_hover_group == old(self).next_hover_group,
            final(self).hover_groups_by_name == old(self).hover_groups_by_name,
            final(hovered_groups)@ == old(hovered_groups)@ + groups_of(
                old(self).store(pi.kind).memberships@,
                pi.index,
            ),
    {
        let ghost s0 = *self;
        let set = self.store_mut(pi.kind);
        let r = set.hover(pi.index, hovered_groups);
        proof {
            s0.lemma_with_store(pi.kind, self.store(pi.kind));
        }
        r
    }

    /// Puts in place, in every store, the variants of the groups in `active`.
    fn apply_group_variants(&mut self, active: &Vec<HoverGroup>)
        requires
            forall|k: PrimitiveKind| (#[trigger] old(self).store(k)).wf(),
        ensures
            forall|k: PrimitiveKind| {
                let s0 = #[trigger] old(self).store(k);
                let s1 = final(self).store(k);
                &&& s1.wf()
                &&& s1.primitives@ == applied(s0.primitives@, s0.group_variants@, active@)
                &&& s1.metadata@ == s0.metadata@
                &&& s1.memberships@ == s0.memberships@
                &&& s1.group_variants@ == consumed(s0.group_variants@, active@)
            },
            final(self).bounds_tree == old(self).bounds_tree,
            final(self).next_hover_group == old(self).next_hover_group,
            final(self).hover_groups_by_name == old(self).hover_groups_by_name,
    {
        assert(old(self).store(PrimitiveKind::Shadow).wf());
        assert(old(self).store(PrimitiveKind::Quad).wf());
        assert(old(self).store(PrimitiveKind::Path).wf());
        assert(old(self).store(PrimitiveKind::Underline).wf());
        assert(old(self).store(PrimitiveKind::MonochromeSprite).wf());
        assert(old(self).store(PrimitiveKind::PolychromeSprite).wf());
        assert(old(self).store(PrimitiveKind::Surface).wf());
        self.shadows.apply_group_variants(active);
        self.quads.apply_group_variants(active);
        self.paths.apply_group_variants(active);
        self.underlines.apply_group_variants(active);
        self.monochrome_sprites.apply_group_variants(active);
        self.polychrome_sprites.apply_group_variants(active);
        self.surfaces.apply_group_variants(active);
    }

    /// Walks `hs`, the hits under `pointer`, from the topmost down, hovering
    /// each, until one occludes hover; returns the groups collected.
    fn hover_walk(&mut self, hs: &Vec<BoundsSearchResult>, pointer: Point) -> (r: Vec<HoverGroup>)
        requires
            old(self).wf(),
            hs@ == hits(old(self).entries(), pointer),
        ensures
            forall|k: PrimitiveKind| {
                let s = #[trigger] final(self).store(k);
                &&& s.wf()
                &&& s.primitives@ == old(self).hovered_of(k, old(self).visited_at(pointer))
                &&& s.metadata@ == old(self).hovered_metadata_of(k, old(self).visited_at(pointer))
                &&& s.memberships@ == old(self).store(k).memberships@
                &&& s.group_variants@ == old(self).store(k).group_variants@
            },
            r@ == old(self).active_at(pointer),
            final(self).bounds_tree == old(self).bounds_tree,
            final(self).next_hover_group == old(self).next_hover_group,
            final(self).hover_groups_by_name == old(self).hover_groups_by_name,
    {
        let ghost s0 = *self;
        proof {
            reveal(Scene::store_linked);
            lemma_hits_ordered(s0.entries(), pointer);
            assert forall|k: PrimitiveKind| #[trigger] self.store(k).primitives@ == s0.hovered_of(k, Seq::empty())
                && self.store(k).metadata@ == s0.hovered_metadata_of(k, Seq::empty()) && self.store(k).wf() by {
                assert(s0.store_linked(k));
                assert(self.store(k).primitives@ =~= s0.hovered_of(k, Seq::empty()));
                assert(self.store(k).metadata@ =~= s0.hovered_metadata_of(k, Seq::empty()));
            }
            assert(hs@.take(hs.len() as int) == hs@);
        }
        let mut hovered_groups: Vec<HoverGroup> = Vec::new();
        let mut j: usize = hs.len();
        let ghost mut visited: Seq<PrimitiveIndex> = Seq::empty();
        while j > 0
            invariant_except_break
                s0.walk(hs@) == visited + s0.walk(hs@.take(j as int)),
            invariant
                s0.wf(),
                j <= hs.len(),
                hs@ == hits(s0.entries(), pointer),
                forall|m: int|
                    0 <= m < hs@.len() ==> {
                        let h = #[trigger] hs@[m];
                        &&& 0 <= h.order < s0.entries().len()
                        &&& s0.entries()[h.order as int] == h
                    },
                self.bounds_tree == s0.bounds_tree,
                self.next_hover_group == s0.next_hover_group,
                self.hover_groups_by_name == s0.hover_groups_by_name,
                forall|k: PrimitiveKind| {
                    let s = #[trigger] self.store(k);
                    &&& s.wf()
                    &&& s.primitives@ == s0.hovered_of(k, visited)
                    &&& s.metadata@ == s0.hovered_metadata_of(k, visited)
                    &&& s.memberships@ == s0.store(k).memberships@
                    &&& s.group_variants@ == s0.store(k).group_variants@
                },
                hovered_groups@ == s0.collected(visited),
            ensures
                s0.walk(hs@) == visited,
            decreases j,
        {
            let h = hs[j - 1];
            let d = h.data;
            proof {
                reveal(Scene::entries_linked);
                assert(s0.entries_linked());
                assert(hs@[j - 1] == h);
                assert(s0.entries()[h.order as int] == h);
                assert(d.index < s0.store(d.kind).primitives.len());
                assert(self.store(d.kind).primitives@.len() == s0.store(d.kind).primitives@.len());
                assert(s0.store(d.kind).wf()) by {
                    reveal(Scene::store_linked);
                    assert(s0.store_linked(d.kind));
                }
            }
            let ghost prev = *self;
            let occludes = self.hover_at(d, &mut hovered_groups);
            proof {
                Self::lemma_hover_step(s0, prev.store(d.kind), self.store(d.kind), visited, d);
                assert forall|k: PrimitiveKind| k != d.kind implies s0.hovered_of(k, visited.push(d))
                    == s0.hovered_of(k, visited) && s0.hovered_metadata_of(k, visited.push(d))
                    == s0.hovered_metadata_of(k, visited) by {
                    Self::lemma_hover_other_kind(s0, k, visited, d);
                }
                let prefix = hs@.take(j as int);
                assert(prefix.last() == h);
                assert(prefix.drop_last() == hs@.take(j - 1));
                assert(visited.push(d).drop_last() == visited);
                visited = visited.push(d);
            }
            j = j - 1;
            if occludes {
                break;
            }
        }
        hovered_groups
    }

    proof fn lemma_resolution_keeps_orders(s0: Scene<T>, s1: Scene<T>, pointer: Point)
        requires
            s0.wf(),
            forall|k: PrimitiveKind| {
                let s = #[trigger] s1.store(k);
                &&& s.wf()
                &&& s.primitives@ == s0.resolved_of(k, pointer)
                &&& s.metadata@ == s0.hovered_metadata_of(k, s0.visited_at(pointer))
                &&& s.group_variants@ == consumed(s0.store(k).group_variants@, s0.active_at(pointer))
            },
            s1.bounds_tree == s0.bounds_tree,
        ensures
            s1.wf(),
            s1.is_sorted(),
    {
        reveal(Scene::store_linked);
        let visited = s0.visited_at(pointer);
        let active = s0.active_at(pointer);
        assert forall|k: PrimitiveKind| #[trigger] s0.store(k).primitives.len() >= 0 implies {
            let ps = s0.hovered_of(k, visited);
            let vs = s0.store(k).group_variants@;
            &&& applied(ps, vs, active).len() == ps.len()
            &&& forall|i: int| 0 <= i < ps.len() ==> (#[trigger] applied(ps, vs, active)[i]).order == s0.store(k).primitives@[i].order
        } by {
            assert(s0.store_linked(k));
            let ps = s0.hovered_of(k, visited);
            let vs = s0.store(k).group_variants@;
            assert forall|i: int| 0 <= i < ps.len() implies (#[trigger] ps[i]).order == s0.store(k).primitives@[i].order by {
                assert(s0.store(k).metadata[i] == s0.store(k).metadata@[i]);
            }
            lemma_applied_orders(ps, vs, active);
        }
        assert(Self::same_orders(s0, s1));
        Self::lemma_same_orders_keep_wf(s0, s1);
    }

    /// Sorts every store by order; on stores that already ascend this changes
    /// nothing.
    fn sort_stores(&mut self)
        requires
            old(self).is_sorted(),
        ensures
            forall|k: PrimitiveKind| {
                let s0 = #[trigger] old(self).store(k);
                let s1 = final(self).store(k);
                &&& s1.primitives@ == s0.primitives@
                &&& s1.metadata == s0.metadata
                &&& s1.memberships == s0.memberships
                &&& s1.group_variants == s0.group_variants
            },
            final(self).bounds_tree == old(self).bounds_tree,
            final(self).next_hover_group == old(self).next_hover_group,
            final(self).hover_groups_by_name == old(self).hover_groups_by_name,
    {
        assert forall|k: PrimitiveKind| ascending(#[trigger] old(self).primitives_of(k)) by {
            assert forall|i: int, j: int|
                0 <= i < j < old(self).primitives_of(k).len() implies (
                #[trigger] old(self).primitives_of(k)[i]).order <= (
                #[trigger] old(self).primitives_of(k)[j]).order by {}
        }
        assert(ascending(old(self).primitives_of(PrimitiveKind::Shadow)));
        assert(ascending(old(self).primitives_of(PrimitiveKind::Quad)));
        assert(ascending(old(self).primitives_of(PrimitiveKind::Path)));
        assert(ascending(old(self).primitives_of(PrimitiveKind::Underline)));
        assert(ascending(old(self).primitives_of(PrimitiveKind::MonochromeSprite)));
        assert(ascending(old(self).primitives_of(PrimitiveKind::PolychromeSprite)));
        assert(ascending(old(self).primitives_of(PrimitiveKind::Surface)));
        sort_by_order(&mut self.shadows.primitives);
        sort_by_order(&mut self.quads.primitives);
        sort_by_order(&mut self.paths.primitives);
        sort_by_order(&mut self.underlines.primitives);
        sort_by_order(&mut self.monochrome_sprites.primitives);
        sort_by_order(&mut self.polychrome_sprites.primitives);
        sort_by_order(&mut self.surfaces.primitives);
    }

    /// Resolves hover at `pointer` and leaves every store ascending by order.
    ///
    /// The hits under the pointer are walked from the topmost down; each shows
    /// its hover variant and activates its groups, and the walk stops after
    /// the first hit that occludes hover. Then every variant of an active
    /// group is put in place, in every store. Last, every store is sorted by
    /// order. Orders come from one counter and stores only append, and hover
    /// and group variants keep their primitive's order, so the stores already
    /// ascend and the sort leaves them as they are.
    pub fn finish(&mut self, pointer: Point)
        requires
            old(self).wf(),
        ensures
            final(self).wf(),
            final(self).is_sorted(),
            final(self).entries() == old(self).entries(),
            forall|k: PrimitiveKind| #[trigger] final(self).primitives_of(k) == old(self).resolved_of(k, pointer),
            forall|k: PrimitiveKind| #[trigger] final(self).store(k).group_variants@ == consumed(
                old(self).store(k).group_variants@,
                old(self).active_at(pointer),
            ),
            forall|k: PrimitiveKind| #[trigger] final(self).store(k).metadata@ == old(self).hovered_metadata_of(
                k,
                old(self).visited_at(pointer),
            ),
            final(self).next_group() == old(self).next_group(),
            final(self).group_names() == old(self).group_names(),
    {
        let ghost s0 = *self;
        let hs = self.bounds_tree.find_containing(&pointer);
        let hovered_groups = self.hover_walk(&hs, pointer);
        let ghost mid = *self;
        self.apply_group_variants(&hovered_groups);
        proof {
            assert forall|k: PrimitiveKind| {
                let s = #[trigger] self.store(k);
                &&& s.wf()
                &&& s.primitives@ == s0.resolved_of(k, pointer)
                &&& s.metadata@ == s0.hovered_metadata_of(k, s0.visited_at(pointer))
                &&& s.group_variants@ == consumed(s0.store(k).group_variants@, s0.active_at(pointer))
            } by {
                assert(mid.store(k).primitives@ == s0.hovered_of(k, s0.visited_at(pointer)));
            }
            assert forall|k: PrimitiveKind| #[trigger] self.primitives_of(k) == s0.resolved_of(k, pointer) by {
                assert(self.store(k).primitives@ == self.primitives_of(k));
            }
            Self::lemma_resolution_keeps_orders(s0, *self, pointer);
        }
        let ghost resolved = *self;
        self.sort_stores();
        proof {
            assert forall|k: PrimitiveKind| #[trigger] self.primitives_of(k) == resolved.primitives_of(k) by {
                assert(self.store(k).primitives@ == resolved.store(k).primitives@);
            }
            assert(Self::same_orders(resolved, *self));
            Self::lemma_same_orders_keep_wf(resolved, *self);
            assert forall|k: PrimitiveKind| #[trigger] self.store(k).group_variants@ == resolved.store(k).group_variants@
                && self.store(k).metadata@ == resolved.store(k).metadata@ by {
                assert(self.store(k).group_variants == resolved.store(k).group_variants);
                assert(self.store(k).metadata == resolved.store(k).metadata);
            }
            assert forall|k: PrimitiveKind| #[trigger] self.store(k).metadata@ == s0.hovered_metadata_of(
                k,
                s0.visited_at(pointer),
            ) by {
                assert(self.store(k).metadata@ == resolved.store(k).metadata@);
                assert(resolved.store(k).metadata@ == s0.hovered_metadata_of(k, s0.visited_at(pointer)));
            }
        }
    }

    /// A primitive clipped away entirely leaves the scene as it was: it gets
    /// no order, no entry that a pointer could hit, and no place in a batch.
    pub proof fn lemma_clipped_away_leaves_scene(
        old: Scene<T>,
        new: Scene<T>,
        kind: PrimitiveKind,
        p: Primitive<T>,
        hover: Option<Primitive<T>>,
        ghs: Seq<GroupHover<T>>,
        occludes_hover: bool,
        r: Option<u32>,
    )
        requires
            Self::inserted(old, new, kind, p, hover, ghs, occludes_hover, r),
            clipped_bounds(p) is None,
        ensures
            r is None,
            new == old,
            new.entries() == old.entries(),
            forall|k: PrimitiveKind| #[trigger] new.primitives_of(k) == old.primitives_of(k),
    {
        reveal(Scene::inserted);
    }

    /// After `clear`, a sequence of insertions returns the same orders as it
    /// would in a new scene.
    pub proof fn lemma_clear_replays_orders(cleared: Scene<T>, fresh: Scene<T>, ps: Seq<Primitive<T>>)
        requires
            cleared.is_empty_scene(),
            fresh.is_empty_scene(),
        ensures
            insertion_orders(cleared.order_count(), ps) == insertion_orders(fresh.order_count(), ps),
    {
    }

    /// In a well-formed scene each store ascends strictly by order, and no
    /// two primitives share an order.
    pub proof fn lemma_orders_distinct(&self)
        requires
            self.wf(),
        ensures
            forall|k: PrimitiveKind, i: int, j: int|
                0 <= i < j < self.primitives_of(k).len() ==> (#[trigger] self.primitives_of(k)[i]).order
                    < (#[trigger] self.primitives_of(k)[j]).order,
            forall|k1: PrimitiveKind, k2: PrimitiveKind, i: int, j: int|
                k1 != k2 && 0 <= i < self.primitives_of(k1).len() && 0 <= j < self.primitives_of(k2).len()
                    ==> (#[trigger] self.primitives_of(k1)[i]).order != (#[trigger] self.primitives_of(k2)[j]).order,
    {
        reveal(Scene::store_linked);
        assert forall|k: PrimitiveKind, i: int, j: int|
            0 <= i < j < self.primitives_of(k).len() implies (#[trigger] self.primitives_of(k)[i]).order
            < (#[trigger] self.primitives_of(k)[j]).order by {
            assert(self.store_linked(k));
        }
        assert forall|k1: PrimitiveKind, k2: PrimitiveKind, i: int, j: int|
            k1 != k2 && 0 <= i < self.primitives_of(k1).len() && 0 <= j < self.primitives_of(k2).len()
                implies (#[trigger] self.primitives_of(k1)[i]).order != (#[trigger] self.primitives_of(k2)[j]).order by {
            assert(self.store_linked(k1));
            assert(self.store_linked(k2));
            assert(self.store(k1).primitives[i] == self.primitives_of(k1)[i]);
            assert(self.store(k2).primitives[j] == self.primitives_of(k2)[j]);
        }
    }

    /// The primitives of one kind, ascending by order once finished.
    pub fn primitives(&self, kind: PrimitiveKind) -> (r: &Vec<Primitive<T>>)
        ensures
            r@ == self.primitives_of(kind),
    {
        &self.store_ref(kind).primitives
    }

    /// The paths of the scene.
    pub fn paths(&self) -> (r: &[Primitive<T>])
        ensures
            r@ == self.primitives_of(PrimitiveKind::Path),
    {
        self.paths.primitives.as_slice()
    }

    /// What inserting `p` of `kind` into `old` gives: nothing changes when it
    /// is clipped away; otherwise it gets the next order, is recorded in the
    /// bounds index and appended to its store, and its variants take its order.
    #[verifier::opaque]
    pub open spec fn inserted(
        old: Scene<T>,
        new: Scene<T>,
        kind: PrimitiveKind,
        p: Primitive<T>,
        hover: Option<Primitive<T>>,
        ghs: Seq<GroupHover<T>>,
        occludes_hover: bool,
        r: Option<u32>,
    ) -> bool {
        match clipped_bounds(p) {
            None => r is None && new == old,
            Some(c) => {
                let o = old.order_count() as u32;
                let n = old.store(kind).primitives.len();
                let s0 = old.store(kind);
                let s1 = new.store(kind);
                &&& r == Some(o)
                &&& new.entries() == old.entries().push(
                    BoundsSearchResult { bounds: c, order: o, data: PrimitiveIndex { kind, index: n } },
                )
                &&& s1.primitives@ == s0.primitives@.push(p.at_order(o))
                &&& s1.metadata@ == s0.metadata@.push(
                    if occludes_hover || hover is Some {
                        Some(PrimitiveMetadata { occludes_hover, hover: variant_at_order(hover, o) })
                    } else {
                        None
                    },
                )
                &&& s1.memberships@ == s0.memberships@ + memberships_for(n, ghs)
                &&& s1.group_variants@ == s0.group_variants@ + variants_for(
                    n,
                    at_order_all(ghs, o),
                )
                &&& forall|k: PrimitiveKind| k != kind ==> #[trigger] new.store(k) == old.store(k)
                &&& new.next_group() == old.next_group()
                &&& new.group_names() == old.group_names()
            },
        }
    }

    proof fn lemma_insert_keeps_wf(
        old: Scene<T>,
        new: Scene<T>,
        kind: PrimitiveKind,
        p: Primitive<T>,
        hover: Option<Primitive<T>>,
        ghs: Seq<GroupHover<T>>,
        occludes_hover: bool,
        r: Option<u32>,
    )
        requires
            old.wf(),
            old.order_count() < u32::MAX,
            new.store(kind).wf(),
            new.bounds_tree.wf(),
            Self::inserted(old, new, kind, p, hover, ghs, occludes_hover, r),
        ensures
            new.wf(),
    {
        reveal(Scene::store_linked);
        reveal(Scene::entries_linked);
        reveal(Scene::inserted);
        if let Some(c) = clipped_bounds(p) {
            let o = old.order_count() as u32;
            let n = old.store(kind).primitives.len();
            let es0 = old.bounds_tree.entries@;
            let es1 = new.bounds_tree.entries@;
            assert forall|k: PrimitiveKind| #[trigger] new.store_linked(k) by {
                assert(old.store_linked(k));
                let s0 = old.store(k);
                let s1 = new.store(k);
                assert forall|i: int| 0 <= i < s1.primitives.len() implies {
                    &&& (#[trigger] s1.primitives[i]).order < es1.len()
                    &&& es1[s1.primitives[i].order as int].data == PrimitiveIndex {
                        kind: k,
                        index: i as usize,
                    }
                } by {
                    if k != kind || i < n {
                        assert(s1.primitives[i] == s0.primitives[i]);
                        assert(es1[s0.primitives[i].order as int] == es0[s0.primitives[i].order as int]);
                    }
                }
                if k == kind {
                    assert forall|i: int, j: int|
                        0 <= i < j < s1.primitives.len() implies (#[trigger] s1.primitives[i]).order
                        < (#[trigger] s1.primitives[j]).order by {
                        assert(s1.primitives[i] == s0.primitives[i]);
                        if j < n {
                            assert(s1.primitives[j] == s0.primitives[j]);
                        }
                    }
                    assert forall|i: int|
                        0 <= i < s1.metadata.len() && (#[trigger] s1.metadata[i]) is Some
                            && s1.metadata[i]->0.hover is Some implies s1.metadata[i]->0.hover->0.order
                        == s1.primitives[i].order by {
                        if i < n {
                            assert(s1.metadata[i] == s0.metadata[i]);
                            assert(s1.primitives[i] == s0.primitives[i]);
                        }
                    }
                    assert forall|j: int|
                        0 <= j < s1.group_variants.len() && (#[trigger] s1.group_variants[j]).variant is Some
                            implies s1.group_variants[j].variant->0.order
                        == s1.primitives[s1.group_variants[j].index as int].order by {
                        if j < s0.group_variants.len() {
                            assert(s1.group_variants[j] == s0.group_variants[j]);
                            assert(s1.primitives[s0.group_variants[j].index as int]
                                == s0.primitives[s0.group_variants[j].index as int]);
                        } else {
                            lemma_variants_at_order(n as usize, ghs, o);
                            assert(s1.group_variants[j] == variants_for(n as usize, at_order_all(ghs, o))[j - s0.group_variants.len()]);
                        }
                    }
                } else {
                    assert(s1 == s0);
                }
            }
            assert forall|j: int| 0 <= j < es1.len() implies {
                let d = (#[trigger] es1[j]).data;
                &&& d.index < new.store(d.kind).primitives.len()
                &&& new.store(d.kind).primitives[d.index as int].order == j
            } by {
                if j < es0.len() {
                    assert(es1[j] == es0[j]);
                    let d = es0[j].data;
                    assert(d.index < old.store(d.kind).primitives.len());
                    assert(new.store(d.kind).primitives[d.index as int] == old.store(d.kind).primitives[d.index as int]);
                }
            }
        }
    }

    /// Clips, orders and stores one primitive of `kind`.
    fn insert_primitive(
        &mut self,
        kind: PrimitiveKind,
        primitive: Primitive<T>,
        hover: Option<Primitive<T>>,
        group_hovers: Vec<GroupHover<T>>,
        occludes_hover: bool,
    ) -> (r: Option<u32>)
        requires
            old(self).wf(),
            old(self).order_count() < u32::MAX,
        ensures
            final(self).wf(),
            Self::inserted(*old(self), *final(self), kind, primitive, hover, group_hovers@, occludes_hover, r),
    {
        let clipped = primitive.bounds.intersect(&primitive.content_mask.bounds);
        match clipped {
            None => {
                proof {
                    reveal(Scene::inserted);
                }
                None
            },
            Some(c) => {
                proof {
                    reveal(Scene::store_linked);
                    assert(old(self).store_linked(kind));
                }
                let index = self.store_ref(kind).len();
                let order = self.bounds_tree.insert(c, PrimitiveIndex { kind, index });
                let ghost hover0 = hover;
                let ghost ghs = group_hovers@;
                let hover = match hover {
                    Some(h) => Some(h.with_order(order)),
                    None => None,
                };
                let reordered = reorder_group_hovers(group_hovers, order);
                let ghost mid = *self;
                let set = self.store_mut(kind);
                set.insert(primitive.with_order(order), occludes_hover, hover, reordered);
                proof {
                    mid.lemma_with_store(kind, self.store(kind));
                    reveal(Scene::inserted);
                    assert(forall|k: PrimitiveKind| #[trigger] mid.store(k) == old(self).store(k));
                    assert(clipped_bounds(primitive) == Some(c));
                    assert(self.entries() == old(self).entries().push(
                        BoundsSearchResult { bounds: c, order, data: PrimitiveIndex { kind, index } },
                    ));
                    assert(self.store(kind).primitives@ == old(self).store(kind).primitives@.push(primitive.at_order(order)));
                    assert(hover == variant_at_order(hover0, order));
                    assert(self.store(kind).group_variants@ == old(self).store(kind).group_variants@ + variants_for(
                        index, at_order_all(ghs, order)));
                    assert(forall|k: PrimitiveKind| k != kind ==> #[trigger] self.store(k) == old(self).store(k));
                    assert(self.store(kind).memberships@ == old(self).store(kind).memberships@ + memberships_for(index, ghs));
                    assert(self.store(kind).metadata@ == old(self).store(kind).metadata@.push(
                        if occludes_hover || hover0 is Some {
                            Some(PrimitiveMetadata { occludes_hover, hover: variant_at_order(hover0, order) })
                        } else {
                            None
                        },
                    ));
                    assert(self.next_group() == old(self).next_group());
                    assert(self.group_names() == old(self).group_names());
                    assert(order == old(self).order_count() as u32);
                    assert(Self::inserted(*old(self), *self, kind, primitive, hover0, ghs, occludes_hover, Some(order)));
                    Self::lemma_insert_keeps_wf(*old(self), *self, kind, primitive, hover0, ghs, occludes_hover, Some(order));
                }
                Some(order)
            },
        }
    }

    /// Inserts a shadow; a hover variant also makes it occlude hover beneath
    /// it. Returns its order, or `None` when it is clipped away entirely.
    pub fn insert_shadow(
        &mut self,
        shadow: Primitive<T>,
        hover: Option<Primitive<T>>,
        group_hovers: Vec<GroupHover<T>>,
    ) -> (r: Option<u32>)
        requires
            old(self).wf(),
            old(self).order_count() < u32::MAX,
        ensures
            final(self).wf(),
            r == order_for(old(self).order_count(), shadow),
            final(self).order_count() == count_after(old(self).order_count(), shadow),
            Self::inserted(
                *old(self),
                *final(self),
                PrimitiveKind::Shadow,
                shadow,
                hover,
                group_hovers@,
                hover is Some,
                r,
            ),
    {
        let occludes_hover = hover.is_some();
        let r = self.insert_primitive(PrimitiveKind::Shadow, shadow, hover, group_hovers, occludes_hover);
        proof {
            reveal(Scene::inserted);
        }
        r
    }

    /// Inserts a quad; a hover variant also makes it occlude hover beneath
    /// it. Returns its order, or `None` when it is clipped away entirely.
    pub fn insert_quad(
        &mut self,
        quad: Primitive<T>,
        hover: Option<Primitive<T>>,
        group_hovers: Vec<GroupHover<T>>,
    ) -> (r: Option<u32>)
        requires
            old(self).wf(),
            old(self).order_count() < u32::MAX,
        ensures
            final(self).wf(),
            r == order_for(old(self).order_count(), quad),
            final(self).order_count() == count_after(old(self).order_count(), quad),
            Self::inserted(
                *old(self),
                *final(self),
                PrimitiveKind::Quad,
                quad,
                hover,
                group_hovers@,
                hover is Some,
                r,
            ),
    {
        let occludes_hover = hover.is_some();
        let r = self.insert_primitive(PrimitiveKind::Quad, quad, hover, group_hovers, occludes_hover);
        proof {
            reveal(Scene::inserted);
        }
        r
    }

    /// Inserts a path; a hover variant also makes it occlude hover beneath
    /// it. Returns its order, or `None` when it is clipped away entirely.
    pub fn insert_path(
        &mut self,
        path: Primitive<T>,
        hover: Option<Primitive<T>>,
        group_hovers: Vec<GroupHover<T>>,
    ) -> (r: Option<u32>)
        requires
            old(self).wf(),
            old(self).order_count() < u32::MAX,
        ensures
            final(self).wf(),
            r == order_for(old(self).order_count(), path),
            final(self).order_count() == count_after(old(self).order_count(), path),
            Self::inserted(
                *old(self),
                *final(self),
                PrimitiveKind::Path,
                path,
                hover,
                group_hovers@,
                hover is Some,
                r,
            ),
    {
        let occludes_hover = hover.is_some();
        let r = self.insert_primitive(PrimitiveKind::Path, path, hover, group_hovers, occludes_hover);
        proof {
            reveal(Scene::inserted);
        }
        r
    }

    /// Inserts a underline; a hover variant also makes it occlude hover beneath
    /// it. Returns its order, or `None` when it is clipped away entirely.
    pub fn insert_underline(
        &mut self,
        underline: Primitive<T>,
        hover: Option<Primitive<T>>,
        group_hovers: Vec<GroupHover<T>>,
    ) -> (r: Option<u32>)
        requires
            old(self).wf(),
            old(self).order_count() < u32::MAX,
        ensures
            final(self).wf(),
            r == order_for(old(self).order_count(), underline),
            final(self).order_count() == count_after(old(self).order_count(), underline),
            Self::inserted(
                *old(self),
                *final(self),
                PrimitiveKind::Underline,
                underline,
                hover,
                group_hovers@,
                hover is Some,
                r,
            ),
    {
        let occludes_hover = hover.is_some();
        let r = self.insert_primitive(PrimitiveKind::Underline, underline, hover, group_hovers, occludes_hover);
        proof {
            reveal(Scene::inserted);
        }
        r
    }

    /// Inserts a monochrome sprite; a hover variant also makes it occlude hover beneath
    /// it. Returns its order, or `None` when it is clipped away entirely.
    pub fn insert_monochrome_sprite(
        &mut self,
        sprite: Primitive<T>,
        hover: Option<Primitive<T>>,
        group_hovers: Vec<GroupHover<T>>,
    ) -> (r: Option<u32>)
        requires
            old(self).wf(),
            old(self).order_count() < u32::MAX,
        ensures
            final(self).wf(),
            r == order_for(old(self).order_count(), sprite),
            final(self).order_count() == count_after(old(self).order_count(), sprite),
            Self::inserted(
                *old(self),
                *final(self),
                PrimitiveKind::MonochromeSprite,
                sprite,
                hover,
                group_hovers@,
                hover is Some,
                r,
            ),
    {
        let occludes_hover = hover.is_some();
        let r = self.insert_primitive(PrimitiveKind::MonochromeSprite, sprite, hover, group_hovers, occludes_hover);
        proof {
            reveal(Scene::inserted);
        }
        r
    }

    /// Inserts a polychrome sprite; a hover variant also makes it occlude hover beneath
    /// it. Returns its order, or `None` when it is clipped away entirely.
    pub fn insert_polychrome_sprite(
        &mut self,
        sprite: Primitive<T>,
        hover: Option<Primitive<T>>,
        group_hovers: Vec<GroupHover<T>>,
    ) -> (r: Option<u32>)
        requires
            old(self).wf(),
            old(self).order_count() < u32::MAX,
        ensures
            final(self).wf(),
            r == order_for(old(self).order_count(), sprite),
            final(self).order_count() == count_after(old(self).order_count(), sprite),
            Self::inserted(
                *old(self),
                *final(self),
                PrimitiveKind::PolychromeSprite,
                sprite,
                hover,
                group_hovers@,
                hover is Some,
                r,
            ),
    {
        let occludes_hover = hover.is_some();
        let r = self.insert_primitive(PrimitiveKind::PolychromeSprite, sprite, hover, group_hovers, occludes_hover);
        proof {
            reveal(Scene::inserted);
        }
        r
    }

    /// Inserts a surface; whether it occludes hover beneath it is given
    /// explicitly. Returns its order, or `None` when it is clipped away.
    pub fn insert_surface(
        &mut self,
        surface: Primitive<T>,
        hover: Option<Primitive<T>>,
        group_hovers: Vec<GroupHover<T>>,
        occludes_hover: bool,
    ) -> (r: Option<u32>)
        requires
            old(self).wf(),
            old(self).order_count() < u32::MAX,
        ensures
            final(self).wf(),
            r == order_for(old(self).order_count(), surface),
            final(self).order_count() == count_after(old(self).order_count(), surface),
            Self::inserted(
                *old(self),
                *final(self),
                PrimitiveKind::Surface,
                surface,
                hover,
                group_hovers@,
                occludes_hover,
                r,
            ),
    {
        let r = self.insert_primitive(PrimitiveKind::Surface, surface, hover, group_hovers, occludes_hover);
        proof {
            reveal(Scene::inserted);
        }
        r
    }

    fn store_ref(&self, kind: PrimitiveKind) -> (r: &PrimitiveSet<T>)
        ensures
            *r == self.store(kind),
    {
        match kind {
            PrimitiveKind::Shadow => &self.shadows,
            PrimitiveKind::Quad => &self.quads,
            PrimitiveKind::Path => &self.paths,
            PrimitiveKind::Underline => &self.underlines,
            PrimitiveKind::MonochromeSprite => &self.monochrome_sprites,
            PrimitiveKind::PolychromeSprite => &self.polychrome_sprites,
            PrimitiveKind::Surface => &self.surfaces,
        }
    }

    fn store_mut(&mut self, kind: PrimitiveKind) -> (r: &mut PrimitiveSet<T>)
        ensures
            *r == old(self).store(kind),
            *final(self) == old(self).with_store(kind, *final(r)),
    {
        match kind {
            PrimitiveKind::Shadow => &mut self.shadows,
            PrimitiveKind::Quad => &mut self.quads,
            PrimitiveKind::Path => &mut self.paths,
            PrimitiveKind::Underline => &mut self.underlines,
            PrimitiveKind::MonochromeSprite => &mut self.monochrome_sprites,
            PrimitiveKind::PolychromeSprite => &mut self.polychrome_sprites,
            PrimitiveKind::Surface => &mut self.surfaces,
        }
    }
}

} // verus!
