use crate::primitive::{HoverGroup, Primitive};
use vstd::prelude::*;

verus! {

/// Hover behaviour of one primitive, kept only for primitives that have one.
pub struct PrimitiveMetadata<T> {
    pub occludes_hover: bool,
    pub hover: Option<Primitive<T>>,
}

/// A primitive's membership in a hover group.
#[derive(Clone, Copy, Debug, PartialEq, Eq, Structural)]
pub struct GroupMembership {
    pub index: usize,
    pub group: HoverGroup,
}

/// The payload to show at `index` while `group` is active; taken when used.
pub struct GroupVariant<T> {
    pub group: HoverGroup,
    pub index: usize,
    pub variant: Option<Primitive<T>>,
}

/// A group together with the payload, if any, to show while it is active.
pub type GroupHover<T> = (HoverGroup, Option<Primitive<T>>);

/// The memberships that registering `ghs` at `index` adds.
pub open spec fn memberships_for<T>(index: usize, ghs: Seq<GroupHover<T>>) -> Seq<GroupMembership> {
    ghs.map_values(|gh: GroupHover<T>| GroupMembership { index, group: gh.0 })
}

/// The variants that registering `ghs` at `index` adds: one per pair that
/// carries a payload, in the pairs' order.
pub open spec fn variants_for<T>(index: usize, ghs: Seq<GroupHover<T>>) -> Seq<GroupVariant<T>>
    decreases ghs.len(),
{
    if ghs.len() == 0 {
        Seq::empty()
    } else {
        let prev = variants_for(index, ghs.drop_last());
        match ghs.last().1 {
            Some(v) => prev.push(GroupVariant { group: ghs.last().0, index, variant: Some(v) }),
            None => prev,
        }
    }
}

/// The groups that `index` belongs to, in registration order.
pub open spec fn groups_of(ms: Seq<GroupMembership>, index: usize) -> Seq<HoverGroup>
    decreases ms.len(),
{
    if ms.len() == 0 {
        Seq::empty()
    } else {
        let prev = groups_of(ms.drop_last(), index);
        if ms.last().index == index {
            prev.push(ms.last().group)
        } else {
            prev
        }
    }
}

/// The primitives after every still-present variant of an active group has
/// been put in place, registrations taken in order (a later one wins).
pub open spec fn applied<T>(
    ps: Seq<Primitive<T>>,
    vs: Seq<GroupVariant<T>>,
    active: Seq<HoverGroup>,
) -> Seq<Primitive<T>>
    decreases vs.len(),
{
    if vs.len() == 0 {
        ps
    } else {
        let prev = applied(ps, vs.drop_last(), active);
        let v = vs.last();
        if active.contains(v.group) && v.variant is Some && v.index < prev.len() {
            prev.update(v.index as int, v.variant->0)
        } else {
            prev
        }
    }
}

/// The registrations after those of the active groups have been used up.
pub open spec fn consumed<T>(vs: Seq<GroupVariant<T>>, active: Seq<HoverGroup>) -> Seq<
    GroupVariant<T>,
> {
    vs.map_values(
        |v: GroupVariant<T>|
            if active.contains(v.group) {
                GroupVariant { group: v.group, index: v.index, variant: None }
            } else {
                v
            },
    )
}

pub proof fn lemma_applied_len<T>(
    ps: Seq<Primitive<T>>,
    vs: Seq<GroupVariant<T>>,
    active: Seq<HoverGroup>,
)
    ensures
        applied(ps, vs, active).len() == ps.len(),
    decreases vs.len(),
{
    if vs.len() > 0 {
        lemma_applied_len(ps, vs.drop_last(), active);
    }
}

/// Putting variants in place keeps every depth when each variant shares the
/// depth of the primitive it replaces.
pub proof fn lemma_applied_orders<T>(
    ps: Seq<Primitive<T>>,
    vs: Seq<GroupVariant<T>>,
    active: Seq<HoverGroup>,
)
    requires
        forall|j: int|
            0 <= j < vs.len() && (#[trigger] vs[j]).variant is Some && vs[j].index < ps.len()
                ==> vs[j].variant->0.order == ps[vs[j].index as int].order,
    ensures
        applied(ps, vs, active).len() == ps.len(),
        forall|i: int|
            0 <= i < ps.len() ==> (#[trigger] applied(ps, vs, active)[i]).order == ps[i].order,
    decreases vs.len(),
{
    if vs.len() > 0 {
        lemma_applied_orders(ps, vs.drop_last(), active);
        assert(vs.last() == vs[vs.len() - 1]);
    }
}

/// The primitives ascend (not necessarily strictly) by order.
pub open spec fn ascending<T>(ps: Seq<Primitive<T>>) -> bool {
    forall|i: int, j: int| 0 <= i < j < ps.len() ==> (#[trigger] ps[i]).order <= (#[trigger] ps[j]).order
}

/// Sorts `v` by order with an insertion sort: it is a permutation, it
/// ascends, and a vector that already ascends is left as it is.
pub fn sort_by_order<T>(v: &mut Vec<Primitive<T>>)
    ensures
        final(v)@.to_multiset() == old(v)@.to_multiset(),
        final(v)@.len() == old(v)@.len(),
        ascending(final(v)@),
        ascending(old(v)@) ==> final(v)@ == old(v)@,
{
    broadcast use {
        vstd::seq_lib::group_to_multiset_ensures,
        vstd::seq_lib::to_multiset_remove,
        vstd::seq_lib::to_multiset_insert,
        vstd::multiset::group_multiset_axioms,
    };
    let ghost v0 = v@;
    let mut i: usize = 1;
    while i < v.len()
        invariant
            v@.to_multiset() == v0.to_multiset(),
            v@.len() == v0.len(),
            1 <= i,
            i <= v.len() || v.len() == 0,
            ascending(v@.take(i as int)) || v.len() == 0,
            ascending(v0) ==> v@ == v0,
        decreases v.len() - i,
    {
        let mut j: usize = i;
        assert forall|a: int, b: int| 0 <= a < b < j implies (#[trigger] v@[a]).order <= (
        #[trigger] v@[b]).order by {
            assert(v@.take(i as int)[a] == v@[a] && v@.take(i as int)[b] == v@[b]);
        }
        while j > 0 && v[j - 1].order > v[j].order
            invariant
                v@.to_multiset() == v0.to_multiset(),
                v@.len() == v0.len(),
                0 <= j <= i < v.len(),
                forall|a: int, b: int| 0 <= a < b < j ==> (#[trigger] v@[a]).order <= (#[trigger] v@[b]).order,
                forall|a: int, b: int| j <= a < b <= i ==> (#[trigger] v@[a]).order <= (#[trigger] v@[b]).order,
                0 < j < i ==> v@[j - 1].order <= v@[j + 1].order,
                ascending(v0) ==> v@ == v0 && j == i,
            decreases j,
        {
            let ghost before = v@;
            let x = v.remove(j);
            v.insert(j - 1, x);
            proof {
                let jj = j as int;
                assert(0 < jj < before.len());
                let mid = before.remove(jj);
                vstd::seq_lib::to_multiset_remove(before, jj);
                vstd::seq_lib::to_multiset_insert(mid, jj - 1, before[jj]);
                assert(mid.to_multiset() == before.to_multiset().remove(before[jj]));
                assert(v@ == mid.insert(j - 1, before[j as int]));
                assert(v@.to_multiset() == mid.to_multiset().insert(before[j as int]));
                assert(before.contains(before[jj]));
                vstd::seq_lib::to_multiset_contains(before, before[jj]);
                assert(v@.to_multiset() =~= before.to_multiset());
            }
            j = j - 1;
        }
        assert(ascending(v@.take(i + 1)));
        i = i + 1;
    }
    if v.len() > 0 {
        assert(v@.take(v.len() as int) == v@);
    }
}

pub fn contains_group(groups: &Vec<HoverGroup>, g: HoverGroup) -> (r: bool)
    ensures
        r == groups@.contains(g),
{
    let mut i: usize = 0;
    while i < groups.len()
        invariant
            i <= groups.len(),
            forall|j: int| 0 <= j < i ==> groups@[j] != g,
        decreases groups.len() - i,
    {
        if groups[i] == g {
            return true;
        }
        i = i + 1;
    }
    false
}

/// The primitives of one kind, in insertion order, with their sparse hover
/// metadata and group registrations keyed by position.
pub struct PrimitiveSet<T> {
    pub primitives: Vec<Primitive<T>>,
    pub metadata: Vec<Option<PrimitiveMetadata<T>>>,
    pub memberships: Vec<GroupMembership>,
    pub group_variants: Vec<GroupVariant<T>>,
}

impl<T> PrimitiveSet<T> {
    pub open spec fn wf(&self) -> bool {
        &&& self.metadata.len() == self.primitives.len()
        &&& forall|j: int|
            0 <= j < self.memberships.len() ==> #[trigger] self.memberships[j].index
                < self.primitives.len()
        &&& forall|j: int|
            0 <= j < self.group_variants.len() ==> #[trigger] self.group_variants[j].index
                < self.primitives.len()
    }

    pub open spec fn is_empty_set(&self) -> bool {
        &&& self.primitives@.len() == 0
        &&& self.metadata@.len() == 0
        &&& self.memberships@.len() == 0
        &&& self.group_variants@.len() == 0
    }

    /// Whether the primitive at `index` stops the hover walk beneath it.
    pub open spec fn occludes(&self, index: int) -> bool {
        self.metadata[index] is Some && self.metadata[index]->0.occludes_hover
    }

    /// The primitive at `index` once its own hover variant, if any, is shown.
    pub open spec fn hovered_primitives(&self, index: int) -> Seq<Primitive<T>> {
        match self.metadata[index] {
            Some(m) => match m.hover {
                Some(h) => self.primitives@.update(index, h),
                None => self.primitives@,
            },
            None => self.primitives@,
        }
    }

    /// The metadata once the hover variant at `index` has been used up.
    pub open spec fn hovered_metadata(&self, index: int) -> Seq<Option<PrimitiveMetadata<T>>> {
        match self.metadata[index] {
            Some(m) => self.metadata@.update(
                index,
                Some(PrimitiveMetadata { occludes_hover: m.occludes_hover, hover: None }),
            ),
            None => self.metadata@,
        }
    }

    pub fn new() -> (r: PrimitiveSet<T>)
        ensures
            r.wf(),
            r.is_empty_set(),
    {
        PrimitiveSet {
            primitives: Vec::new(),
            metadata: Vec::new(),
            memberships: Vec::new(),
            group_variants: Vec::new(),
        }
    }

    /// Returns the number of primitives in the set.
    pub fn len(&self) -> (r: usize)
        ensures
            r == self.primitives.len(),
    {
        self.primitives.len()
    }

    /// Appends `primitive`; records metadata when it occludes hover or has a
    /// hover variant, and registers it with each group of `group_hovers`.
    pub fn insert(
        &mut self,
        primitive: Primitive<T>,
        occludes_hover: bool,
        hover: Option<Primitive<T>>,
        group_hovers: Vec<GroupHover<T>>,
    )
        requires
            old(self).wf(),
            old(self).primitives.len() < usize::MAX,
        ensures
            final(self).wf(),
            final(self).primitives@ == old(self).primitives@.push(primitive),
            final(self).metadata@ == old(self).metadata@.push(
                if occludes_hover || hover is Some {
                    Some(PrimitiveMetadata { occludes_hover, hover })
                } else {
                    None
                },
            ),
            final(self).memberships@ == old(self).memberships@ + memberships_for(
                old(self).primitives.len(),
                group_hovers@,
            ),
            final(self).group_variants@ == old(self).group_variants@ + variants_for(
                old(self).primitives.len(),
                group_hovers@,
            ),
    {
        let index = self.primitives.len();
        self.primitives.push(primitive);
        if occludes_hover || hover.is_some() {
            self.metadata.push(Some(PrimitiveMetadata { occludes_hover, hover }));
        } else {
            self.metadata.push(None);
        }
        let ghost ghs = group_hovers@;
        let ghost ps1 = self.primitives@;
        let ghost md1 = self.metadata@;
        let ghost ms0 = self.memberships@;
        let ghost vs0 = self.group_variants@;
        for gh in it: group_hovers
            invariant
                it.seq() == ghs,
                self.primitives@ == ps1,
                self.metadata@ == md1,
                ps1.len() == md1.len(),
                self.primitives.len() == index + 1,
                self.memberships@ == ms0 + memberships_for(index, ghs.take(it.index() as int)),
                self.group_variants@ == vs0 + variants_for(index, ghs.take(it.index() as int)),
                forall|j: int| 0 <= j < ms0.len() ==> #[trigger] ms0[j].index < index,
                forall|j: int| 0 <= j < vs0.len() ==> #[trigger] vs0[j].index < index,
        {
            let ghost k = it.index();
            assert(gh == ghs[k as int]);
            assert(ghs.take(k + 1).drop_last() == ghs.take(k as int));
            assert(memberships_for(index, ghs.take(k + 1)) == memberships_for(
                index,
                ghs.take(k as int),
            ).push(GroupMembership { index, group: gh.0 }));
            let (group, variant) = gh;
            self.memberships.push(GroupMembership { index, group });
            match variant {
                Some(v) => {
                    self.group_variants.push(GroupVariant { group, index, variant: Some(v) });
                },
                None => {},
            }
        }
        let ghost k = ghs.len();
        assert(ghs.take(k as int) == ghs);
        assert forall|j: int| 0 <= j < self.memberships.len() implies #[trigger] self.memberships[j].index
            < self.primitives.len() by {
            if j >= ms0.len() {
                assert(self.memberships@[j] == memberships_for(index, ghs)[j - ms0.len()]);
            }
        }
        assert forall|j: int| 0 <= j < self.group_variants.len() implies #[trigger] self.group_variants[j].index
            < self.primitives.len() by {
            if j >= vs0.len() {
                lemma_variants_for_index(index, ghs);
                assert(self.group_variants@[j] == variants_for(index, ghs)[j - vs0.len()]);
            }
        }
    }

    /// Shows the hover variant of the primitive at `index`, if it has one (it
    /// is used up), adds the primitive's groups to `hovered_groups`, and tells
    /// whether the primitive occludes hover beneath it.
    pub fn hover(&mut self, index: usize, hovered_groups: &mut Vec<HoverGroup>) -> (occludes: bool)
        requires
            old(self).wf(),
            index < old(self).primitives.len(),
        ensures
            final(self).wf(),
            occludes == old(self).occludes(index as int),
            final(self).primitives@ == old(self).hovered_primitives(index as int),
            final(self).metadata@ == old(self).hovered_metadata(index as int),
            final(self).memberships@ == old(self).memberships@,
            final(self).group_variants@ == old(self).group_variants@,
            final(hovered_groups)@ == old(hovered_groups)@ + groups_of(
                old(self).memberships@,
                index,
            ),
    {
        let mut occludes = false;
        let slot = &mut self.metadata[index];
        match slot {
            Some(meta) => {
                let taken = meta.hover.take();
                match taken {
                    Some(h) => {
                        self.primitives.set(index, h);
                    },
                    None => {},
                }
                occludes = meta.occludes_hover;
            },
            None => {},
        }
        let ghost g0 = hovered_groups@;
        let mut j: usize = 0;
        while j < self.memberships.len()
            invariant
                j <= self.memberships.len(),
                hovered_groups@ == g0 + groups_of(self.memberships@.take(j as int), index),
            decreases self.memberships.len() - j,
        {
            let m = self.memberships[j];
            assert(self.memberships@.take(j + 1).drop_last() == self.memberships@.take(j as int));
            if m.index == index {
                hovered_groups.push(m.group);
            }
            j = j + 1;
        }
        assert(self.memberships@.take(j as int) == self.memberships@);
        occludes
    }

    /// Puts in place every still-present variant registered under a group of
    /// `active`, using each up.
    pub fn apply_group_variants(&mut self, active: &Vec<HoverGroup>)
        requires
            old(self).wf(),
        ensures
            final(self).wf(),
            final(self).primitives@ == applied(
                old(self).primitives@,
                old(self).group_variants@,
                active@,
            ),
            final(self).metadata@ == old(self).metadata@,
            final(self).memberships@ == old(self).memberships@,
            final(self).group_variants@ == consumed(old(self).group_variants@, active@),
    {
        let ghost vs = self.group_variants@;
        let ghost ps = self.primitives@;
        let mut j: usize = 0;
        while j < self.group_variants.len()
            invariant
                self.wf(),
                j <= self.group_variants.len(),
                self.group_variants.len() == vs.len(),
                self.primitives@ == applied(ps, vs.take(j as int), active@),
                self.group_variants@ == consumed(vs.take(j as int), active@) + vs.skip(j as int),
                self.metadata@ == old(self).metadata@,
                self.memberships@ == old(self).memberships@,
                ps == old(self).primitives@,
                vs == old(self).group_variants@,
            decreases self.group_variants.len() - j,
        {
            proof {
                lemma_applied_len(ps, vs.take(j as int), active@);
            }
            assert(vs.take(j + 1).drop_last() == vs.take(j as int));
            assert(self.group_variants@[j as int] == vs[j as int]);
            let group = self.group_variants[j].group;
            let index = self.group_variants[j].index;
            if contains_group(active, group) {
                let entry = &mut self.group_variants[j];
                let taken = entry.variant.take();
                match taken {
                    Some(v) => {
                        self.primitives.set(index, v);
                    },
                    None => {},
                }
            }
            assert(consumed(vs.take(j + 1), active@) == consumed(vs.take(j as int), active@).push(
                consumed(vs, active@)[j as int],
            ));
            assert(self.group_variants@ == consumed(vs.take(j + 1), active@) + vs.skip(j + 1));
            j = j + 1;
        }
        assert(vs.take(j as int) == vs);
        assert(self.group_variants@ == consumed(vs, active@));
    }

    /// Drops every primitive and all hover information.
    pub fn clear(&mut self)
        ensures
            final(self).wf(),
            final(self).is_empty_set(),
    {
        self.primitives.clear();
        self.metadata.clear();
        self.memberships.clear();
        self.group_variants.clear();
    }
}

impl<T> Default for PrimitiveSet<T> {
    fn default() -> (r: PrimitiveSet<T>)
        ensures
            r.wf(),
            r.is_empty_set(),
    {
        PrimitiveSet::new()
    }
}

pub proof fn lemma_variants_for_index<T>(index: usize, ghs: Seq<GroupHover<T>>)
    ensures
        forall|j: int|
            0 <= j < variants_for(index, ghs).len() ==> (#[trigger] variants_for(index, ghs)[j]).index
                == index,
    decreases ghs.len(),
{
    if ghs.len() > 0 {
        lemma_variants_for_index(index, ghs.drop_last());
    }
}

} // verus!
