//! Per-entity bounding volumes, kept in a sparse set: dense parallel arrays
//! of components and owning entities, plus a map from entity to slot.
use std::collections::HashMap;
use vstd::prelude::*;
use vstd::std_specs::hash::group_hash_axioms;
use crate::geometry::{AABB, CachedCollider, ColliderError, aabb_result};

verus! {

broadcast use group_hash_axioms;

/// An opaque entity handle issued by the entity registry.
#[derive(Clone, Copy, Debug, PartialEq, Eq, Hash, Structural)]
pub struct Entity(pub u64);

/// The world-space bound of one entity.
#[derive(Clone, Copy, Debug, PartialEq, Eq, Structural)]
pub struct BoundVolume {
    pub entity: Entity,
    pub aabb: AABB,
    pub collider: CachedCollider,
}

impl BoundVolume {
    /// A volume the broad phase can place on the grid and test: its box lies
    /// within the coordinate limits and, unless the box is empty, its shape
    /// supports the shape-level test. An empty box reaches no grid cell.
    pub open spec fn wf(self) -> bool {
        self.aabb.wf() && (!self.aabb.is_empty() ==> self.collider.supported())
    }

    /// Two volumes collide when their boxes overlap and their shapes touch.
    pub open spec fn touches(self, other: BoundVolume) -> bool {
        self.aabb.overlaps(other.aabb) && self.collider.touches(other.collider)
    }

    /// The pair counts as colliding in the broad phase: both boxes are
    /// non-empty and the volumes touch. An empty box reaches no grid cell.
    pub open spec fn collides(self, other: BoundVolume) -> bool {
        !self.aabb.is_empty() && !other.aabb.is_empty() && self.touches(other)
    }

    /// Whether the volume satisfies `wf`.
    pub fn is_testable(&self) -> (r: bool)
        ensures
            r == self.wf(),
    {
        self.aabb.is_valid() && (self.aabb.is_empty_box() || self.collider.is_supported())
    }

    /// Tests whether `other` collides with this volume.
    ///
    /// The box test runs first and the shape test only when the boxes
    /// overlap: the shape test is never reached for disjoint boxes, which is
    /// why it needs supported shapes only in that case.
    pub fn test(&self, other: &BoundVolume) -> (r: bool)
        requires
            self.aabb.overlaps(other.aabb) ==> self.collider.supported()
                && other.collider.supported(),
        ensures
            r == self.touches(*other),
    {
        self.aabb.test_aabb(&other.aabb) && self.collider.test(&other.collider)
    }
}

/// The volume that `bvh_update` builds for an entity from its world-space collider.
pub open spec fn volume_for(entity: Entity, collider: CachedCollider) -> BoundVolume {
    BoundVolume { entity, aabb: aabb_result(collider)->Ok_0, collider }
}

/// `s` with element `i` replaced by the last one and the last slot dropped.
pub open spec fn swap_remove_seq<T>(s: Seq<T>, i: int) -> Seq<T> {
    s.update(i, s.last()).drop_last()
}

/// `content` after one entity's collider has been applied: an entity that
/// holds a volume gets the new box and collider in place, another one gets a
/// new volume.
pub open spec fn apply_collider(
    content: Map<u64, BoundVolume>,
    entity: Entity,
    collider: CachedCollider,
) -> Map<u64, BoundVolume> {
    if content.contains_key(entity.0) {
        content.insert(
            entity.0,
            BoundVolume { aabb: aabb_result(collider)->Ok_0, collider, ..content[entity.0] },
        )
    } else {
        content.insert(entity.0, volume_for(entity, collider))
    }
}

/// `content` after the colliders of `list` have been applied in order.
pub open spec fn apply_colliders(
    content: Map<u64, BoundVolume>,
    list: Seq<(Entity, CachedCollider)>,
) -> Map<u64, BoundVolume>
    decreases list.len(),
{
    if list.len() == 0 {
        content
    } else {
        apply_collider(apply_colliders(content, list.drop_last()), list.last().0, list.last().1)
    }
}

/// `entities` followed by the entities of `list` that it lacks, in the order
/// of their first appearance in `list`.
pub open spec fn entities_after(entities: Seq<Entity>, list: Seq<(Entity, CachedCollider)>) -> Seq<Entity>
    decreases list.len(),
{
    if list.len() == 0 {
        entities
    } else {
        let before = entities_after(entities, list.drop_last());
        if before.contains(list.last().0) {
            before
        } else {
            before.push(list.last().0)
        }
    }
}

/// Entry `k` holds the first collider of `list` that cannot be bounded, and `err` is its error.
pub open spec fn first_collider_error(
    list: Seq<(Entity, CachedCollider)>,
    k: int,
    err: ColliderError,
) -> bool {
    &&& 0 <= k < list.len()
    &&& aabb_result(list[k].1) == Err::<AABB, ColliderError>(err)
    &&& forall|j: int| 0 <= j < k ==> (#[trigger] aabb_result(list[j].1)) is Ok
}

/// The arrays after `entity` is removed by moving the last slot into its
/// place and updating the index for the moved entity; unchanged when
/// `entity` holds no slot.
pub open spec fn remove_slot(
    arrays: (Seq<BoundVolume>, Seq<Entity>, Map<u64, usize>),
    entity: Entity,
) -> (Seq<BoundVolume>, Seq<Entity>, Map<u64, usize>) {
    let (components, entities, index) = arrays;
    if !index.contains_key(entity.0) {
        arrays
    } else {
        let i = index[entity.0] as int;
        (
            swap_remove_seq(components, i),
            swap_remove_seq(entities, i),
            if i == entities.len() - 1 {
                index.remove(entity.0)
            } else {
                index.remove(entity.0).insert(entities.last().0, i as usize)
            },
        )
    }
}

/// The arrays after each entity of `pending` is removed in turn, first to last.
pub open spec fn remove_slots(
    arrays: (Seq<BoundVolume>, Seq<Entity>, Map<u64, usize>),
    pending: Seq<Entity>,
) -> (Seq<BoundVolume>, Seq<Entity>, Map<u64, usize>)
    decreases pending.len(),
{
    if pending.len() == 0 {
        arrays
    } else {
        remove_slots(remove_slot(arrays, pending[0]), pending.drop_first())
    }
}

/// Stores one `BoundVolume` per entity.
#[derive(Debug, Clone)]
pub struct BoundingVolumeManager {
    components: Vec<BoundVolume>,
    entities: Vec<Entity>,
    indices: HashMap<u64, usize>,
    /// The pending removals as a set: no entity twice. A list keeps the
    /// flush order fixed, which a hash set's walk would not.
    marked_for_destroy: Vec<Entity>,
}

impl BoundingVolumeManager {
    pub closed spec fn spec_components(&self) -> Seq<BoundVolume> {
        self.components@
    }

    pub closed spec fn spec_entities(&self) -> Seq<Entity> {
        self.entities@
    }

    /// Entity id to slot.
    pub closed spec fn spec_index(&self) -> Map<u64, usize> {
        self.indices@
    }

    /// Entities whose destruction was requested since the last flush.
    pub closed spec fn spec_marked(&self) -> Seq<Entity> {
        self.marked_for_destroy@
    }

    /// The volumes, the entities and the index together.
    pub open spec fn arrays(&self) -> (Seq<BoundVolume>, Seq<Entity>, Map<u64, usize>) {
        (self.spec_components(), self.spec_entities(), self.spec_index())
    }

    pub open spec fn len(&self) -> int {
        self.spec_components().len() as int
    }

    /// The parallel arrays have one length, the index maps each stored
    /// entity to its slot and nothing else, and no entity is marked twice.
    pub open spec fn wf(&self) -> bool {
        &&& self.spec_components().len() == self.spec_entities().len()
        &&& forall|i: int|
            0 <= i < self.spec_entities().len() ==> #[trigger] self.spec_index().contains_key(
                self.spec_entities()[i].0,
            ) && self.spec_index()[self.spec_entities()[i].0] == i
        &&& forall|k: u64| #[trigger]
            self.spec_index().contains_key(k) ==> self.spec_index()[k] < self.spec_entities().len()
                && self.spec_entities()[self.spec_index()[k] as int].0 == k
        &&& self.spec_marked().no_duplicates()
    }

    pub open spec fn contains(&self, entity: Entity) -> bool {
        self.spec_index().contains_key(entity.0)
    }

    pub open spec fn slot_of(&self, entity: Entity) -> int {
        self.spec_index()[entity.0] as int
    }

    pub open spec fn component_of(&self, entity: Entity) -> BoundVolume {
        self.spec_components()[self.slot_of(entity)]
    }

    /// What the store holds: the volume of each entity id.
    pub open spec fn content(&self) -> Map<u64, BoundVolume> {
        Map::new(
            |k: u64| self.spec_index().contains_key(k),
            |k: u64| self.spec_components()[self.spec_index()[k] as int],
        )
    }

    /// Every stored volume can be placed on the grid and tested.
    pub open spec fn volumes_wf(&self) -> bool {
        forall|i: int| 0 <= i < self.len() ==> #[trigger] self.spec_components()[i].wf()
    }

    /// The state after `destroy_all(entity)` on `self`: the entity joins the
    /// marked list if it is stored and not yet marked; nothing else changes.
    pub open spec fn mark_step(&self, entity: Entity, next: &Self) -> bool {
        &&& next.spec_components() == self.spec_components()
        &&& next.spec_entities() == self.spec_entities()
        &&& next.spec_index() == self.spec_index()
        &&& next.spec_marked() == if self.contains(entity) && !self.spec_marked().contains(entity) {
            self.spec_marked().push(entity)
        } else {
            self.spec_marked()
        }
    }

    /// The state after `destroy_marked()` on `self`: the marked entities are
    /// removed one by one in the order they were marked, each by moving the
    /// last slot into its place; every other entity keeps its volume, and
    /// nothing is marked.
    pub open spec fn flush_step(&self, next: &Self) -> bool {
        &&& next.wf()
        &&& next.arrays() == remove_slots(self.arrays(), self.spec_marked())
        &&& next.content() == self.content().remove_keys(
            self.spec_marked().to_set().map(|e: Entity| e.0),
        )
        &&& next.spec_marked() == Seq::<Entity>::empty()
    }

    pub fn new() -> (r: BoundingVolumeManager)
        ensures
            r.wf(),
            r.spec_components() == Seq::<BoundVolume>::empty(),
            r.spec_entities() == Seq::<Entity>::empty(),
            r.spec_index() == Map::<u64, usize>::empty(),
            r.spec_marked() == Seq::<Entity>::empty(),
    {
        BoundingVolumeManager {
            components: Vec::new(),
            entities: Vec::new(),
            indices: HashMap::new(),
            marked_for_destroy: Vec::new(),
        }
    }

    /// Adds `component` for `entity`, which must not hold one yet, at the end
    /// of the arrays.
    pub fn assign(&mut self, entity: Entity, component: BoundVolume) -> (r: &mut BoundVolume)
        requires
            old(self).wf(),
            !old(self).contains(entity),
            old(self).len() < usize::MAX,
        ensures
            *r == component,
            final(self).wf(),
            final(self).spec_components() == old(self).spec_components().push(*final(r)),
            final(self).spec_entities() == old(self).spec_entities().push(entity),
            final(self).spec_index() == old(self).spec_index().insert(entity.0, old(self).len() as usize),
            final(self).spec_marked() == old(self).spec_marked(),
    {
        let index = self.components.len();
        self.components.push(component);
        self.entities.push(entity);
        self.indices.insert(entity.0, index);
        assert(self.wf());
        &mut self.components[index]
    }

    /// The volume of `entity`, if it holds one.
    pub fn get(&self, entity: Entity) -> (r: Option<&BoundVolume>)
        requires
            self.wf(),
        ensures
            match r {
                Some(v) => self.contains(entity) && *v == self.component_of(entity),
                None => !self.contains(entity),
            },
    {
        match self.indices.get(&entity.0) {
            Some(index) => Some(&self.components[*index]),
            None => None,
        }
    }

    /// The volume of `entity` for update in place, if it holds one.
    pub fn get_mut(&mut self, entity: Entity) -> (r: Option<&mut BoundVolume>)
        requires
            old(self).wf(),
        ensures
            match r {
                Some(v) => {
                    &&& old(self).contains(entity)
                    &&& *v == old(self).component_of(entity)
                    &&& final(self).spec_components() == old(self).spec_components().update(
                        old(self).slot_of(entity),
                        *final(v),
                    )
                    &&& final(self).spec_entities() == old(self).spec_entities()
                    &&& final(self).spec_index() == old(self).spec_index()
                    &&& final(self).spec_marked() == old(self).spec_marked()
                },
                None => {
                    &&& !old(self).contains(entity)
                    &&& final(self).spec_components() == old(self).spec_components()
                    &&& final(self).spec_entities() == old(self).spec_entities()
                    &&& final(self).spec_index() == old(self).spec_index()
                    &&& final(self).spec_marked() == old(self).spec_marked()
                },
            },
            final(self).wf(),
    {
        match self.indices.get(&entity.0) {
            Some(index) => {
                let i = *index;
                Some(&mut self.components[i])
            },
            None => None,
        }
    }
    /// The volumes, in storage order.
    pub fn components(&self) -> (r: &Vec<BoundVolume>)
        ensures
            r@ == self.spec_components(),
    {
        &self.components
    }

    /// The owning entities, in storage order: `entities()[i]` owns `components()[i]`.
    pub fn entities(&self) -> (r: &Vec<Entity>)
        ensures
            r@ == self.spec_entities(),
    {
        &self.entities
    }

    /// The (volume, entity) pairs in storage order.
    pub fn iter(&self) -> (r: Vec<(BoundVolume, Entity)>)
        requires
            self.wf(),
        ensures
            r@.len() == self.len(),
            forall|i: int|
                0 <= i < self.len() ==> #[trigger] r@[i] == (
                self.spec_components()[i],
                self.spec_entities()[i],
            ),
    {
        let mut out: Vec<(BoundVolume, Entity)> = Vec::new();
        let n = self.components.len();
        let mut i: usize = 0;
        while i < n
            invariant
                self.wf(),
                n == self.len(),
                i <= n,
                out@.len() == i,
                forall|j: int|
                    0 <= j < i ==> #[trigger] out@[j] == (
                    self.spec_components()[j],
                    self.spec_entities()[j],
                ),
            decreases n - i,
        {
            out.push((self.components[i], self.entities[i]));
            i += 1;
        }
        out
    }

    /// Whether every stored volume satisfies `BoundVolume::wf`.
    pub fn volumes_ready(&self) -> (r: bool)
        requires
            self.wf(),
        ensures
            r == self.volumes_wf(),
    {
        let mut i: usize = 0;
        while i < self.components.len()
            invariant
                i <= self.len(),
                forall|j: int| 0 <= j < i ==> #[trigger] self.spec_components()[j].wf(),
            decreases self.len() - i,
        {
            if !self.components[i].is_testable() {
                return false;
            }
            i += 1;
        }
        true
    }

    /// Removes `entity` and its volume at once by moving the last slot into
    /// its place; returns the removed volume.
    pub fn destroy_immediate(&mut self, entity: Entity) -> (r: BoundVolume)
        requires
            old(self).wf(),
            old(self).contains(entity),
        ensures
            r == old(self).component_of(entity),
            final(self).wf(),
            final(self).spec_components() == swap_remove_seq(
                old(self).spec_components(),
                old(self).slot_of(entity),
            ),
            final(self).spec_entities() == swap_remove_seq(
                old(self).spec_entities(),
                old(self).slot_of(entity),
            ),
            final(self).spec_index() == if old(self).slot_of(entity) == old(self).len() - 1 {
                old(self).spec_index().remove(entity.0)
            } else {
                old(self).spec_index().remove(entity.0).insert(
                    old(self).spec_entities().last().0,
                    old(self).slot_of(entity) as usize,
                )
            },
            final(self).spec_marked() == old(self).spec_marked(),
            final(self).content() == old(self).content().remove(entity.0),
            final(self).arrays() == remove_slot(old(self).arrays(), entity),
    {
        let ghost pre = *self;
        let index = match self.indices.remove(&entity.0) {
            Some(i) => i,
            None => {
                proof {
                    assert(false);
                }
                0
            },
        };
        let removed_entity = self.entities.swap_remove(index);
        if index != self.entities.len() {
            let moved_entity = self.entities[index];
            self.indices.insert(moved_entity.0, index);
        }
        let r = self.components.swap_remove(index);
        proof {
            assert(self.spec_components() =~= swap_remove_seq(pre.spec_components(), index as int));
            assert(self.spec_entities() =~= swap_remove_seq(pre.spec_entities(), index as int));
            let last = pre.len() - 1;
            assert forall|k: u64| #[trigger] self.spec_index().contains_key(k) implies
                self.spec_index()[k] < self.spec_entities().len()
                && self.spec_entities()[self.spec_index()[k] as int].0 == k by {
                if k != pre.spec_entities()[last].0 {
                    let j = pre.spec_index()[k] as int;
                    assert(pre.spec_entities()[j].0 == k);
                }
            }
            assert forall|i: int| 0 <= i < self.spec_entities().len() implies
                #[trigger] self.spec_index().contains_key(self.spec_entities()[i].0)
                && self.spec_index()[self.spec_entities()[i].0] == i by {
                if i != index {
                    assert(pre.spec_index().contains_key(pre.spec_entities()[i].0));
                    assert(pre.spec_index()[pre.spec_entities()[i].0] == i);
                }
            }
            assert(self.content() =~= pre.content().remove(entity.0));
        }
        r
    }

    /// Marks `entity` for removal at the next `destroy_marked`, if it holds a
    /// volume. Marking twice is the same as marking once.
    pub fn destroy_all(&mut self, entity: Entity)
        requires
            old(self).wf(),
        ensures
            final(self).wf(),
            old(self).mark_step(entity, final(self)),
    {
        let ghost pre = *self;
        if self.indices.contains_key(&entity.0) && !self.is_marked(entity) {
            let ghost m = self.spec_marked();
            self.marked_for_destroy.push(entity);
            proof {
                assert forall|a: int, b: int|
                    0 <= a < m.len() + 1 && 0 <= b < m.len() + 1 && a != b implies self.spec_marked()[a] != self.spec_marked()[b] by {
                    if b == m.len() {
                        assert(m[a] != entity);
                    } else if a == m.len() {
                        assert(m[b] != entity);
                    }
                }
            }
        }
        proof {
            Self::lemma_wf_same_store(&pre, self);
        }
    }

    /// `wf` depends on the marks only through their distinctness.
    proof fn lemma_wf_same_store(a: &Self, b: &Self)
        requires
            a.wf(),
            b.spec_components().len() == a.spec_components().len(),
            b.spec_entities() == a.spec_entities(),
            b.spec_index() == a.spec_index(),
            b.spec_marked().no_duplicates(),
        ensures
            b.wf(),
    {
        assert forall|i: int| 0 <= i < b.spec_entities().len() implies
            #[trigger] b.spec_index().contains_key(b.spec_entities()[i].0)
            && b.spec_index()[b.spec_entities()[i].0] == i by {
            assert(a.spec_index().contains_key(a.spec_entities()[i].0));
        }
        assert forall|k: u64| #[trigger] b.spec_index().contains_key(k) implies
            b.spec_index()[k] < b.spec_entities().len()
            && b.spec_entities()[b.spec_index()[k] as int].0 == k by {
            assert(a.spec_index().contains_key(k));
        }
    }

    fn is_marked(&self, entity: Entity) -> (r: bool)
        ensures
            r == self.spec_marked().contains(entity),
    {
        let mut i: usize = 0;
        while i < self.marked_for_destroy.len()
            invariant
                i <= self.spec_marked().len(),
                forall|j: int| 0 <= j < i ==> self.spec_marked()[j] != entity,
            decreases self.spec_marked().len() - i,
        {
            if self.marked_for_destroy[i] == entity {
                return true;
            }
            i += 1;
        }
        false
    }

    /// Removes every marked entity and its volume, then clears the marks.
    /// The order of the remaining slots is not kept.
    pub fn destroy_marked(&mut self)
        requires
            old(self).wf(),
        ensures
            old(self).flush_step(final(self)),
    {
        let ghost pre = *self;
        let mut marked: Vec<Entity> = Vec::new();
        std::mem::swap(&mut marked, &mut self.marked_for_destroy);
        proof {
            assert(self.spec_marked() =~= Seq::<Entity>::empty());
            Self::lemma_wf_same_store(&pre, self);
            assert(marked@.subrange(0, marked@.len() as int) =~= marked@);
        }
        let ghost gone = marked@.to_set().map(|e: Entity| e.0);
        let mut i: usize = 0;
        while i < marked.len()
            invariant
                self.wf(),
                i <= marked@.len(),
                marked@ == pre.spec_marked(),
                self.spec_marked() == Seq::<Entity>::empty(),
                self.content() == pre.content().remove_keys(
                    marked@.subrange(0, i as int).to_set().map(|e: Entity| e.0),
                ),
                remove_slots(self.arrays(), marked@.subrange(i as int, marked@.len() as int))
                    == remove_slots(pre.arrays(), marked@),
            decreases marked@.len() - i,
        {
            let entity = marked[i];
            proof {
                let rest = marked@.subrange(i as int, marked@.len() as int);
                assert(rest[0] == entity);
                assert(rest.drop_first() =~= marked@.subrange(i + 1, marked@.len() as int));
            }
            if self.indices.contains_key(&entity.0) {
                self.destroy_immediate(entity);
            }
            proof {
                let before = marked@.subrange(0, i as int).to_set().map(|e: Entity| e.0);
                let after = marked@.subrange(0, i + 1).to_set().map(|e: Entity| e.0);
                assert(marked@.subrange(0, i + 1) =~= marked@.subrange(0, i as int).push(entity));
                assert(after =~= before.insert(entity.0)) by {
                    assert forall|k: u64| after.contains(k) implies before.insert(entity.0).contains(k) by {
                        let e = choose|e: Entity| marked@.subrange(0, i + 1).to_set().contains(e) && e.0 == k;
                        if e != entity {
                            assert(marked@.subrange(0, i as int).to_set().contains(e));
                        }
                    }
                    assert forall|k: u64| before.insert(entity.0).contains(k) implies after.contains(k) by {
                        if k == entity.0 {
                            assert(marked@.subrange(0, i + 1)[i as int] == entity);
                            assert(marked@.subrange(0, i + 1).to_set().contains(entity));
                        } else {
                            let e = choose|e: Entity| marked@.subrange(0, i as int).to_set().contains(e) && e.0 == k;
                            assert(marked@.subrange(0, i + 1).to_set().contains(e));
                        }
                    }
                }
                assert(pre.content().remove_keys(after) =~= pre.content().remove_keys(before).remove(entity.0));
            }
            i += 1;
        }
        proof {
            assert(marked@.subrange(0, marked@.len() as int) =~= marked@);
            assert(marked@.subrange(marked@.len() as int, marked@.len() as int) =~= Seq::<Entity>::empty());
        }
    }
}


/// Every operation keeps the store well formed, and in a well-formed store
/// the two arrays have one length, the index maps the entity of each slot to
/// that slot, no entity appears twice, and the index holds exactly the listed
/// entities.
pub proof fn lemma_store_index_consistent(store: &BoundingVolumeManager)
    requires
        store.wf(),
    ensures
        store.spec_entities().len() == store.spec_components().len(),
        forall|i: int|
            0 <= i < store.spec_entities().len() ==> #[trigger] store.spec_index()[store.spec_entities()[i].0]
                == i,
        store.spec_entities().no_duplicates(),
        forall|entity: Entity|
            #[trigger] store.contains(entity) <==> store.spec_entities().contains(entity),
{
    assert forall|i: int| 0 <= i < store.spec_entities().len() implies #[trigger] store.spec_index()[store.spec_entities()[i].0]
        == i by {
        assert(store.spec_index().contains_key(store.spec_entities()[i].0));
    }
    assert forall|i: int, j: int|
        0 <= i < store.spec_entities().len() && 0 <= j < store.spec_entities().len() && i != j implies store.spec_entities()[i]
        != store.spec_entities()[j] by {
        assert(store.spec_index().contains_key(store.spec_entities()[i].0));
        assert(store.spec_index().contains_key(store.spec_entities()[j].0));
    }
    assert forall|entity: Entity|
        #[trigger] store.contains(entity) <==> store.spec_entities().contains(entity) by {
        lemma_contains_iff_listed(store, entity);
    }
}

/// In a well-formed store an entity holds a volume exactly when it is listed
/// among the entities.
proof fn lemma_contains_iff_listed(store: &BoundingVolumeManager, entity: Entity)
    requires
        store.wf(),
    ensures
        store.contains(entity) <==> store.spec_entities().contains(entity),
{
    if store.contains(entity) {
        let i = store.spec_index()[entity.0] as int;
        assert(store.spec_entities()[i].0 == entity.0);
        assert(store.spec_entities()[i] == entity);
    }
    if store.spec_entities().contains(entity) {
        let i = choose|i: int|
            0 <= i < store.spec_entities().len() && store.spec_entities()[i] == entity;
        assert(store.spec_index().contains_key(store.spec_entities()[i].0));
    }
}

/// After a flush, an entity holds a volume exactly when it held one before
/// and was not marked; the volumes of the others are unchanged. `get` then
/// answers `None` for every marked entity.
pub proof fn lemma_flush_removes_exactly_marked(
    before: &BoundingVolumeManager,
    after: &BoundingVolumeManager,
    entity: Entity,
)
    requires
        before.wf(),
        before.flush_step(after),
    ensures
        after.contains(entity) <==> before.contains(entity) && !before.spec_marked().contains(
            entity,
        ),
        after.contains(entity) ==> after.component_of(entity) == before.component_of(entity),
        after.spec_marked().len() == 0,
{
    let ids = before.spec_marked().to_set().map(|e: Entity| e.0);
    assert(after.content().contains_key(entity.0) == after.contains(entity));
    if before.spec_marked().contains(entity) {
        assert(before.spec_marked().to_set().contains(entity));
        assert(ids.contains(entity.0));
    } else if ids.contains(entity.0) {
        let e = choose|e: Entity| before.spec_marked().to_set().contains(e) && e.0 == entity.0;
        assert(e == entity);
    }
    if after.contains(entity) {
        assert(after.content()[entity.0] == after.component_of(entity));
        assert(before.content()[entity.0] == before.component_of(entity));
    }
}

/// Marking an entity a second time before a flush changes nothing.
pub proof fn lemma_destroy_all_idempotent(
    first: &BoundingVolumeManager,
    once: &BoundingVolumeManager,
    twice: &BoundingVolumeManager,
    entity: Entity,
)
    requires
        first.wf(),
        first.mark_step(entity, once),
        once.mark_step(entity, twice),
    ensures
        twice.spec_components() == once.spec_components(),
        twice.spec_entities() == once.spec_entities(),
        twice.spec_index() == once.spec_index(),
        twice.spec_marked() == once.spec_marked(),
{
    if first.contains(entity) && !first.spec_marked().contains(entity) {
        assert(once.spec_marked().last() == entity);
        assert(once.spec_marked().contains(entity));
    }
}

/// Rebuilds the volumes from the world-space colliders of this frame.
///
/// Each entity of `world_colliders` gets the box of its collider: an entity
/// that already holds a volume is updated in place, another one is assigned
/// a new volume. Entities missing from the list keep their volumes; only
/// `destroy_marked` removes volumes. If a collider cannot be bounded, the
/// first such error is returned and nothing changes.
pub fn bvh_update(
    bvh_manager: &mut BoundingVolumeManager,
    world_colliders: &Vec<(Entity, CachedCollider)>,
) -> (r: Result<(), ColliderError>)
    requires
        old(bvh_manager).wf(),
        old(bvh_manager).len() + world_colliders@.len() <= usize::MAX,
    ensures
        final(bvh_manager).wf(),
        final(bvh_manager).spec_marked() == old(bvh_manager).spec_marked(),
        match r {
            Ok(()) => {
                &&& forall|k: int|
                    0 <= k < world_colliders@.len() ==> (#[trigger] aabb_result(
                        world_colliders@[k].1,
                    )) is Ok
                &&& final(bvh_manager).content() == apply_colliders(
                    old(bvh_manager).content(),
                    world_colliders@,
                )
                &&& final(bvh_manager).spec_entities() == entities_after(
                    old(bvh_manager).spec_entities(),
                    world_colliders@,
                )
            },
            Err(err) => {
                &&& exists|k: int| first_collider_error(world_colliders@, k, err)
                &&& final(bvh_manager).spec_components() == old(bvh_manager).spec_components()
                &&& final(bvh_manager).spec_entities() == old(bvh_manager).spec_entities()
                &&& final(bvh_manager).spec_index() == old(bvh_manager).spec_index()
            },
        },
{
    let n = world_colliders.len();
    let mut aabbs: Vec<AABB> = Vec::new();
    let mut k: usize = 0;
    while k < n
        invariant
            n == world_colliders@.len(),
            k <= n,
            aabbs@.len() == k,
            *bvh_manager == *old(bvh_manager),
            old(bvh_manager).wf(),
            forall|j: int|
                0 <= j < k ==> aabb_result(world_colliders@[j].1) == Ok::<AABB, ColliderError>(
                    #[trigger] aabbs@[j],
                ),
        decreases n - k,
    {
        match AABB::from_collider(&world_colliders[k].1) {
            Ok(aabb) => aabbs.push(aabb),
            Err(err) => {
                assert forall|j: int| 0 <= j < k implies (#[trigger] aabb_result(
                    world_colliders@[j].1,
                )) is Ok by {
                    assert(aabb_result(world_colliders@[j].1) == Ok::<AABB, ColliderError>(aabbs@[j]));
                }
                assert(first_collider_error(world_colliders@, k as int, err));
                return Err(err);
            },
        }
        k += 1;
    }
    let ghost pre = *bvh_manager;
    let mut k: usize = 0;
    while k < n
        invariant
            n == world_colliders@.len(),
            k <= n,
            aabbs@.len() == n,
            forall|j: int|
                0 <= j < n ==> aabb_result(world_colliders@[j].1) == Ok::<AABB, ColliderError>(
                    #[trigger] aabbs@[j],
                ),
            pre.wf(),
            pre.len() + n <= usize::MAX,
            bvh_manager.wf(),
            bvh_manager.len() <= pre.len() + k,
            pre.len() <= bvh_manager.len(),
            bvh_manager.spec_marked() == pre.spec_marked(),
            bvh_manager.content() == apply_colliders(
                pre.content(),
                world_colliders@.subrange(0, k as int),
            ),
            bvh_manager.spec_entities() == entities_after(
                pre.spec_entities(),
                world_colliders@.subrange(0, k as int),
            ),
        decreases n - k,
    {
        let (entity, collider) = world_colliders[k];
        let aabb = aabbs[k];
        let ghost before = *bvh_manager;
        proof {
            assert(world_colliders@.subrange(0, k + 1).drop_last() =~= world_colliders@.subrange(
                0,
                k as int,
            ));
        }
        match bvh_manager.get_mut(entity) {
            Some(bvh) => {
                bvh.collider = collider;
                bvh.aabb = aabb;
            },
            None => {
                bvh_manager.assign(entity, volume_of(entity, aabb, collider));
            },
        }
        proof {
            assert(bvh_manager.content() =~= apply_collider(before.content(), entity, collider));
            lemma_contains_iff_listed(&before, entity);
        }
        k += 1;
    }
    proof {
        assert(world_colliders@.subrange(0, n as int) =~= world_colliders@);
        assert forall|j: int| 0 <= j < n implies (#[trigger] aabb_result(
            world_colliders@[j].1,
        )) is Ok by {
            assert(aabb_result(world_colliders@[j].1) == Ok::<AABB, ColliderError>(aabbs@[j]));
        }
    }
    Ok(())
}

fn volume_of(entity: Entity, aabb: AABB, collider: CachedCollider) -> (r: BoundVolume)
    ensures
        r == (BoundVolume { entity, aabb, collider }),
{
    BoundVolume { entity, aabb, collider }
}

} // verus!
