use vstd::prelude::*;
use crate::component::{Component, ComponentStore};
use crate::entity::{Entity, EntityId, EntityRegistry};
use crate::error::TX2Error;
use crate::query::{
    all_marked, desc_nonempty, equiv_desc, filters_of, lemma_equiv_matches, lemma_matches_frame,
    marked_for, matches_spec, mentions, query_set, QueryBuilder, QueryCache, QueryDescriptor,
};

verus! {

/// The set of entities a descriptor denotes against a world: the live
/// entities passing every clause.
pub open spec fn world_query_set(w: World, d: QueryDescriptor) -> Set<EntityId> {
    Set::new(
        |e: EntityId| w.ids().contains(e) && matches_spec(filters_of(d), e, w.store()),
    )
}

/// The composition root: owns the entity registry, the component store and
/// the query cache, and keeps them consistent under every mutation.
pub struct World {
    entities: EntityRegistry,
    component_store: ComponentStore,
    query_cache: QueryCache,
}

impl World {
    pub closed spec fn registry(self) -> EntityRegistry {
        self.entities
    }

    pub closed spec fn store(self) -> ComponentStore {
        self.component_store
    }

    pub closed spec fn cache(self) -> QueryCache {
        self.query_cache
    }

    /// The live entity identifiers, in creation order.
    pub open spec fn ids(self) -> Seq<EntityId> {
        self.registry().ids()
    }

    /// Every clean cached result is the current result: the invalidation
    /// protocol never leaves a stale set behind.
    pub open spec fn coherent(self) -> bool {
        forall|k: int|
            0 <= k < self.cache().queries().len()
                ==> (!(#[trigger] self.cache().queries()[k]).dirty()
                && self.cache().queries()[k].cached() is Some
                ==> self.cache().queries()[k].cached()->Some_0.to_set() == query_set(
                self.cache().queries()[k].filters(),
                self.store(),
                self.ids().to_set(),
            ))
    }

    /// All three parts are well formed, every stored component belongs to a
    /// live entity, and no cached query result is stale.
    pub open spec fn wf(self) -> bool {
        &&& self.registry().wf()
        &&& self.store().wf()
        &&& self.cache().wf()
        &&& forall|x: EntityId|
            self.store().entity_set().contains(x) ==> self.ids().contains(x)
        &&& self.coherent()
    }

    pub fn new() -> (w: World)
        ensures
            w.wf(),
            w.ids() =~= Seq::<EntityId>::empty(),
            forall|e: EntityId, c: Seq<char>| !w.store().has_spec(e, c),
            w.registry().next() == 1,
    {
        World {
            entities: EntityRegistry::new(),
            component_store: ComponentStore::new(),
            query_cache: QueryCache::new(),
        }
    }

    /// Creates an entity with a fresh identifier and invalidates every
    /// cached query.
    pub fn create_entity(&mut self) -> (e: Entity)
        requires
            old(self).wf(),
            old(self).registry().next() < EntityId::MAX,
        ensures
            final(self).wf(),
            e.id == old(self).registry().next(),
            !old(self).ids().contains(e.id),
            final(self).ids() =~= old(self).ids().push(e.id),
            final(self).registry().next() == old(self).registry().next() + 1,
            final(self).store() == old(self).store(),
            all_marked(old(self).cache().queries(), final(self).cache().queries()),
    {
        let e = self.entities.create();
        self.query_cache.mark_all_dirty();
        proof {
            assert(forall|k: int|
                0 <= k < self.cache().queries().len() ==> (#[trigger] self.cache()
                    .queries()[k]).dirty());
            self.lemma_all_dirty_coherent();
            assert forall|x: EntityId|
                self.store().entity_set().contains(x) implies self.ids().contains(x) by {
                assert(old(self).store().entity_set().contains(x));
                assert(old(self).ids().contains(x));
                let t = choose|t: int|
                    0 <= t < old(self).ids().len() && old(self).ids()[t] == x;
                assert(self.ids()[t] == x);
            }
        }
        e
    }

    /// Registers an entity under a caller-supplied identifier; an identifier
    /// already in use is a usage error and yields a fatal result.
    pub fn create_entity_with_id(&mut self, id: EntityId) -> (r: Result<Entity, TX2Error>)
        requires
            old(self).wf(),
            id < EntityId::MAX,
        ensures
            final(self).wf(),
            r is Ok <==> !old(self).ids().contains(id),
            r matches Ok(e) ==> e.id == id && final(self).ids() =~= old(self).ids().push(id)
                && final(self).store() == old(self).store(),
            r is Ok ==> final(self).registry().next() == if id >= old(self).registry().next() {
                (id + 1) as EntityId
            } else {
                old(self).registry().next()
            },
            r is Ok ==> all_marked(old(self).cache().queries(), final(self).cache().queries()),
            r is Err ==> *final(self) == *old(self),
    {
        match self.entities.create_with_id(id) {
            Ok(e) => {
                self.query_cache.mark_all_dirty();
                proof {
                    assert(forall|k: int|
                        0 <= k < self.cache().queries().len() ==> (#[trigger] self.cache()
                            .queries()[k]).dirty());
                    self.lemma_all_dirty_coherent();
                    assert forall|x: EntityId|
                        self.store().entity_set().contains(x) implies self.ids().contains(x) by {
                        assert(old(self).store().entity_set().contains(x));
                        assert(old(self).ids().contains(x));
                        let t = choose|t: int|
                            0 <= t < old(self).ids().len() && old(self).ids()[t] == x;
                        assert(self.ids()[t] == x);
                    }
                }
                Ok(e)
            },
            Err(err) => Err(err),
        }
    }

    /// Destroys an entity: removes it and every component it holds, and
    /// invalidates every cached query. Reports whether it existed.
    pub fn destroy_entity(&mut self, entity_id: EntityId) -> (r: bool)
        requires
            old(self).wf(),
        ensures
            final(self).wf(),
            r == old(self).ids().contains(entity_id),
            !final(self).ids().contains(entity_id),
            forall|x: EntityId|
                x != entity_id ==> final(self).ids().contains(x) == old(self).ids().contains(x),
            r ==> exists|i: int|
                0 <= i < old(self).ids().len() && old(self).ids()[i] == entity_id && final(
                    self).ids() =~= old(self).ids().remove(i),
            r ==> all_marked(old(self).cache().queries(), final(self).cache().queries()),
            forall|c: Seq<char>| !final(self).store().has_spec(entity_id, c),
            forall|x: EntityId, c: Seq<char>|
                x != entity_id ==> final(self).store().has_spec(x, c) == old(self).store()
                    .has_spec(x, c),
            forall|x: EntityId, c: Seq<char>|
                x != entity_id ==> final(self).store().items_spec(x, c) =~= old(self).store()
                    .items_spec(x, c),
            !r ==> *final(self) == *old(self),
    {
        if self.entities.destroy(entity_id) {
            self.component_store.remove_all_components(entity_id);
            self.query_cache.mark_all_dirty();
            proof {
                assert(forall|k: int|
                    0 <= k < self.cache().queries().len() ==> (#[trigger] self.cache()
                        .queries()[k]).dirty());
                self.lemma_all_dirty_coherent();
                assert forall|x: EntityId|
                    self.store().entity_set().contains(x) implies self.ids().contains(x) by {
                    assert(x != entity_id) by {
                        if x == entity_id {
                            let c = choose|c: Seq<char>| self.store().has_spec(x, c);
                        }
                    }
                    assert(old(self).store().entity_set().contains(x));
                    assert(old(self).ids().contains(x));
                    assert(self.registry().is_live(x) == old(self).registry().is_live(x));
                }
                assert forall|x: EntityId| x != entity_id implies self.ids().contains(x) == old(
                    self).ids().contains(x) by {
                    assert(self.registry().is_live(x) == old(self).registry().is_live(x));
                }
            }
            true
        } else {
            proof {
                assert forall|c: Seq<char>| !self.store().has_spec(entity_id, c) by {
                    if self.store().has_spec(entity_id, c) {
                        assert(exists|cc: Seq<char>| self.store().has_spec(entity_id, cc));
                        assert(self.store().entity_set().contains(entity_id));
                        assert(self.ids().contains(entity_id));
                    }
                }
            }
            false
        }
    }

    /// The stored entity, if it is live.
    pub fn get_entity(&self, entity_id: EntityId) -> (r: Option<Entity>)
        ensures
            match r {
                Some(e) => self.ids().contains(entity_id) && e.id == entity_id,
                None => !self.ids().contains(entity_id),
            },
    {
        if self.entities.contains_id(entity_id) {
            Some(Entity::with_id(entity_id))
        } else {
            None
        }
    }

    /// The identifier the registry will hand out next; callers of
    /// `create_entity` can check its headroom.
    pub fn next_entity_id(&self) -> (r: EntityId)
        ensures
            r == self.registry().next(),
    {
        self.entities.next_id_value()
    }

    /// Whether the entity is live.
    pub fn has_entity(&self, entity_id: EntityId) -> (r: bool)
        ensures
            r == self.ids().contains(entity_id),
    {
        self.entities.contains_id(entity_id)
    }

    /// The live entities, in creation order.
    pub fn get_all_entities(&self) -> (r: Vec<Entity>)
        ensures
            r@.map_values(|e: Entity| e.id) =~= self.ids(),
    {
        self.entities.all_entities()
    }

    /// Appends a component to the entity's list for its type. Adding to a
    /// missing entity is rejected with a fatal result. On success exactly
    /// the cached queries mentioning the type are invalidated.
    pub fn add_component(&mut self, entity_id: EntityId, component: Component) -> (r: Result<
        (),
        TX2Error,
    >)
        requires
            old(self).wf(),
        ensures
            final(self).wf(),
            r is Ok <==> old(self).ids().contains(entity_id),
            r is Err ==> *final(self) == *old(self),
            r is Ok ==> marked_for(
                old(self).cache().queries(),
                final(self).cache().queries(),
                component.id@,
            ),
            r is Ok ==> {
                &&& final(self).ids() == old(self).ids()
                &&& forall|x: EntityId, c: Seq<char>|
                    final(self).store().has_spec(x, c) == (old(self).store().has_spec(x, c) || (
                    x == entity_id && c == component.id@))
                &&& final(self).store().items_spec(entity_id, component.id@) =~= old(
                    self).store().items_spec(entity_id, component.id@).push(component)
                &&& forall|x: EntityId, c: Seq<char>|
                    !(x == entity_id && c == component.id@) ==> final(self).store().items_spec(
                        x,
                        c,
                    ) =~= old(self).store().items_spec(x, c)
            },
    {
        if !self.entities.contains_id(entity_id) {
            return Err(TX2Error::missing_entity());
        }
        let ghost cid = component.id@;
        let cid_str = component.component_id();
        self.component_store.add(entity_id, component);
        self.query_cache.mark_dirty_for_component(&cid_str);
        proof {
            self.lemma_frame_coherence(*old(self), cid);
            assert forall|x: EntityId|
                self.store().entity_set().contains(x) implies self.ids().contains(x) by {
                let c = choose|c: Seq<char>| self.store().has_spec(x, c);
                if old(self).store().has_spec(x, c) {
                    assert(old(self).store().entity_set().contains(x));
                } else {
                    assert(x == entity_id);
                }
            }
        }
        Ok(())
    }

    /// Drops the entity's whole list for the type; reports whether anything
    /// was removed. On removal exactly the cached queries mentioning the
    /// type are invalidated.
    pub fn remove_component(&mut self, entity_id: EntityId, component_id: &String) -> (r: bool)
        requires
            old(self).wf(),
        ensures
            final(self).wf(),
            r == old(self).store().has_spec(entity_id, component_id@),
            forall|x: EntityId, c: Seq<char>|
                final(self).store().has_spec(x, c) == (old(self).store().has_spec(x, c) && !(x
                    == entity_id && c == component_id@)),
            forall|x: EntityId, c: Seq<char>|
                !(x == entity_id && c == component_id@) ==> final(self).store().items_spec(x, c)
                    =~= old(self).store().items_spec(x, c),
            final(self).ids() == old(self).ids(),
            r ==> marked_for(
                old(self).cache().queries(),
                final(self).cache().queries(),
                component_id@,
            ),
            !r ==> *final(self) == *old(self),
    {
        let ghost cid = component_id@;
        let removed = self.component_store.remove(entity_id, component_id);
        if removed {
            self.query_cache.mark_dirty_for_component(component_id);
            proof {
                self.lemma_frame_coherence(*old(self), cid);
                assert forall|x: EntityId|
                    self.store().entity_set().contains(x) implies self.ids().contains(x) by {
                    assert(old(self).store().entity_set().contains(x));
                }
            }
        }
        removed
    }

    /// The first component of the type on the entity, if any.
    pub fn get_component(&self, entity_id: EntityId, component_id: &String) -> (r: Option<
        &Component>)
        requires
            self.wf(),
        ensures
            match r {
                Some(c) => self.store().has_spec(entity_id, component_id@) && *c == self.store()
                    .items_spec(entity_id, component_id@)[0],
                None => !self.store().has_spec(entity_id, component_id@),
            },
    {
        self.component_store.get(entity_id, component_id)
    }

    /// Every component of the entity, across all types, in store order.
    pub fn get_all_components(&self, entity_id: EntityId) -> (r: Vec<&Component>)
        ensures
            r@.len() == self.store().all_items(entity_id).len(),
            forall|k: int|
                0 <= k < r@.len() ==> *(#[trigger] r@[k]) == self.store().all_items(
                    entity_id)[k],
    {
        self.component_store.get_all(entity_id)
    }

    /// Whether the entity holds at least one component of the type.
    pub fn has_component(&self, entity_id: EntityId, component_id: &String) -> (r: bool)
        ensures
            r == self.store().has_spec(entity_id, component_id@),
    {
        self.component_store.has(entity_id, component_id)
    }

    /// Evaluates a query described by the three clause lists, through the
    /// deduplicating cache. The result is always the current set of live
    /// entities matching the descriptor, whether served from cache or
    /// recomputed. A descriptor with no clause is a usage error and yields a
    /// fatal result.
    pub fn query(&mut self, descriptor: QueryDescriptor) -> (r: Result<Vec<EntityId>, TX2Error>)
        requires
            old(self).wf(),
        ensures
            final(self).wf(),
            r is Ok <==> desc_nonempty(descriptor),
            r matches Ok(ids) ==> ids@.no_duplicates() && ids@.to_set() == world_query_set(
                *old(self),
                descriptor,
            ),
            final(self).ids() == old(self).ids(),
            final(self).store() == old(self).store(),
    {
        let idx = match self.query_cache.get(descriptor) {
            Ok(i) => i,
            Err(e) => {
                return Err(e);
            },
        };
        let universe = self.entities.all();
        proof {
            assert(universe@ =~= self.registry().ids());
            assert(universe@.no_duplicates());
            assert forall|x: EntityId|
                self.store().entity_set().contains(x) implies universe@.contains(x) by {
                assert(old(self).store().entity_set().contains(x));
                assert(old(self).ids().contains(x));
            }
        }
        let ghost mid_cache = self.query_cache;
        let r = self.query_cache.execute_at(idx, &self.component_store, &universe);
        proof {
            let q_pre = mid_cache.queries()[idx as int];
            let q_post = self.cache().queries()[idx as int];
            lemma_equiv_matches(q_pre, descriptor, self.store());
            if !q_pre.dirty() && q_pre.cached() is Some {
                assert(q_pre.cached()->Some_0.to_set() == query_set(q_pre.filters(),
                    self.store(), self.ids().to_set()));
                assert(r@.to_set() =~= query_set(q_pre.filters(), self.store(),
                    self.ids().to_set()));
            } else {
                assert(r@.to_set() =~= query_set(q_pre.filters(), self.store(),
                    universe@.to_set()));
            }
            assert(universe@ == self.ids());
            assert(r@.to_set() =~= world_query_set(*old(self), descriptor)) by {
                assert forall|e: EntityId|
                    query_set(q_pre.filters(), self.store(), self.ids().to_set()).contains(e)
                        == world_query_set(*old(self), descriptor).contains(e) by {
                    assert(matches_spec(q_pre.filters(), e, self.store()) == matches_spec(
                        filters_of(descriptor), e, self.store()));
                    assert(self.ids().to_set().contains(e) == self.ids().contains(e));
                }
            }
            assert forall|k: int|
                0 <= k < self.cache().queries().len() && !(
                #[trigger] self.cache().queries()[k]).dirty()
                && self.cache().queries()[k].cached() is Some implies self.cache().queries()[
                k].cached()->Some_0.to_set() == query_set(self.cache().queries()[k].filters(),
                self.store(), self.ids().to_set()) by {
                if k != idx {
                    assert(self.cache().queries()[k] == mid_cache.queries()[k]);
                }
            }
        }
        Ok(r)
    }

    /// A fresh builder for a query descriptor.
    pub fn query_builder(&self) -> (b: QueryBuilder)
        ensures
            b.descriptor().all@.len() == 0,
            b.descriptor().any@.len() == 0,
            b.descriptor().none@.len() == 0,
    {
        QueryBuilder::new()
    }

    /// Drops every entity, every component and every cached query; the
    /// identifier counter keeps its value.
    pub fn clear(&mut self)
        requires
            old(self).wf(),
        ensures
            final(self).wf(),
            final(self).ids() =~= Seq::<EntityId>::empty(),
            forall|e: EntityId, c: Seq<char>| !final(self).store().has_spec(e, c),
            final(self).cache().queries().len() == 0,
            final(self).registry().next() == old(self).registry().next(),
    {
        self.entities.clear();
        self.component_store.clear();
        self.query_cache.clear();
    }

    /// A cache with every entry marked dirty is coherent with any state.
    proof fn lemma_all_dirty_coherent(self)
        requires
            forall|k: int|
                0 <= k < self.cache().queries().len()
                    ==> (#[trigger] self.cache().queries()[k]).dirty(),
        ensures
            self.coherent(),
    {
    }

    /// After a store change confined to one type, every cached query that
    /// was not marked dirty still holds its current result.
    proof fn lemma_frame_coherence(self, pre: World, cid: Seq<char>)
        requires
            pre.wf(),
            self.ids() == pre.ids(),
            self.cache().queries().len() == pre.cache().queries().len(),
            forall|x: EntityId, y: Seq<char>|
                y != cid ==> #[trigger] self.store().has_spec(x, y) == pre.store().has_spec(
                    x,
                    y,
                ),
            forall|k: int|
                0 <= k < self.cache().queries().len() ==> {
                    &&& (#[trigger] self.cache().queries()[k]).filters() == pre.cache()
                        .queries()[k].filters()
                    &&& self.cache().queries()[k].cached() == pre.cache().queries()[k].cached()
                    &&& self.cache().queries()[k].dirty() == (pre.cache().queries()[k].dirty()
                        || mentions(pre.cache().queries()[k].filters(), cid))
                },
        ensures
            self.coherent(),
    {
        assert forall|k: int|
            0 <= k < self.cache().queries().len() && !(
            #[trigger] self.cache().queries()[k]).dirty()
            && self.cache().queries()[k].cached() is Some implies self.cache().queries()[
            k].cached()->Some_0.to_set() == query_set(self.cache().queries()[k].filters(),
            self.store(), self.ids().to_set()) by {
            let q = self.cache().queries()[k];
            if !q.dirty() && q.cached() is Some {
                assert(!pre.cache().queries()[k].dirty());
                assert(!mentions(q.filters(), cid));
                lemma_matches_frame(q.filters(), pre.store(), self.store(), cid);
                assert(q.cached()->Some_0.to_set() == query_set(q.filters(), pre.store(),
                    pre.ids().to_set()));
                assert forall|e: EntityId|
                    query_set(q.filters(), pre.store(), pre.ids().to_set()).contains(e)
                        == query_set(q.filters(), self.store(), self.ids().to_set()).contains(
                    e) by {
                    assert(matches_spec(q.filters(), e, self.store()) == matches_spec(
                        q.filters(), e, pre.store()));
                }
                assert(query_set(q.filters(), pre.store(), pre.ids().to_set()) =~= query_set(
                    q.filters(), self.store(), self.ids().to_set()));
            }
        }
    }
}


/// After `add`, the entity holds the component's type; the appended instance
/// is the last of its list, and the first when the list was empty before.
/// The hypotheses are exactly what `World::add_component` ensures on success.
pub proof fn lemma_add_component_visible(
    pre: World,
    post: World,
    entity_id: EntityId,
    component: Component,
)
    requires
        forall|x: EntityId, c: Seq<char>|
            post.store().has_spec(x, c) == (pre.store().has_spec(x, c) || (x == entity_id && c
                == component.id@)),
        post.store().items_spec(entity_id, component.id@) == pre.store().items_spec(
            entity_id,
            component.id@,
        ).push(component),
    ensures
        post.store().has_spec(entity_id, component.id@),
        post.store().items_spec(entity_id, component.id@).last() == component,
        !pre.store().has_spec(entity_id, component.id@) ==> post.store().items_spec(
            entity_id,
            component.id@,
        )[0] == component,
        !pre.store().has_spec(entity_id, component.id@) ==> post.store().items_spec(
            entity_id,
            component.id@,
        ).len() == 1,
{
    let items0 = pre.store().items_spec(entity_id, component.id@);
    let items1 = post.store().items_spec(entity_id, component.id@);
    assert(items1 == items0.push(component));
    assert(items1.len() == items0.len() + 1);
    assert(items1[items0.len() as int] == component);
    assert(items1.last() == component);
    if !pre.store().has_spec(entity_id, component.id@) {
        crate::component::lemma_absent_items_empty(pre.store(), entity_id, component.id@);
        assert(items0.len() == 0);
        assert(items1[0] == component);
    }
}

/// After `remove`, the entity no longer holds the type. The hypothesis is
/// exactly what `World::remove_component` ensures.
pub proof fn lemma_remove_component_clears(
    pre: World,
    post: World,
    entity_id: EntityId,
    component_id: Seq<char>,
)
    requires
        forall|x: EntityId, c: Seq<char>|
            post.store().has_spec(x, c) == (pre.store().has_spec(x, c) && !(x == entity_id && c
                == component_id)),
    ensures
        !post.store().has_spec(entity_id, component_id),
{
}

/// Destroying an entity removes it from every type's reverse index: no type
/// counts it among its holders afterwards. The hypothesis is exactly what
/// `World::destroy_entity` ensures.
pub proof fn lemma_destroy_clears_reverse_index(post: World, entity_id: EntityId)
    requires
        forall|c: Seq<char>| !post.store().has_spec(entity_id, c),
    ensures
        forall|c: Seq<char>| !(#[trigger] post.store().holders(c)).contains(entity_id),
{
}

/// A descriptor with a single `all` type denotes exactly that type's
/// holders: in a well-formed world every holder is live.
pub proof fn lemma_query_all_single(w: World, d: QueryDescriptor)
    requires
        w.wf(),
        d.all@.len() == 1,
        d.any@.len() == 0,
        d.none@.len() == 0,
    ensures
        world_query_set(w, d) =~= w.store().holders((d.all@[0])@),
{
    let a = (d.all@[0])@;
    let fs = filters_of(d);
    assert(fs =~= seq![crate::query::QueryFilter::All(d.all)]);
    assert forall|e: EntityId|
        world_query_set(w, d).contains(e) == w.store().holders(a).contains(e) by {
        assert(crate::query::ids_of(fs[0]) =~= seq![a]);
        if w.store().has_spec(e, a) {
            assert(w.store().entity_set().contains(e)) by {
                assert(exists|c: Seq<char>| w.store().has_spec(e, c));
            }
            assert(w.ids().contains(e));
            assert(crate::query::filter_ok(fs[0], e, w.store())) by {
                assert(crate::query::ids_of(fs[0])[0] == a);
            }
            assert(matches_spec(fs, e, w.store()));
        }
        if world_query_set(w, d).contains(e) {
            assert(crate::query::filter_ok(fs[0], e, w.store()));
            assert(w.store().has_spec(e, crate::query::ids_of(fs[0])[0]));
        }
    }
}

/// A descriptor with a single `none` type denotes exactly the live entities
/// holding no instance of that type.
pub proof fn lemma_query_none_single(w: World, d: QueryDescriptor)
    requires
        w.wf(),
        d.all@.len() == 0,
        d.any@.len() == 0,
        d.none@.len() == 1,
    ensures
        world_query_set(w, d) =~= Set::new(
            |e: EntityId| w.ids().contains(e) && !w.store().has_spec(e, (d.none@[0])@),
        ),
{
    let a = (d.none@[0])@;
    let fs = filters_of(d);
    assert(fs =~= seq![crate::query::QueryFilter::NoneOf(d.none)]);
    assert forall|e: EntityId|
        world_query_set(w, d).contains(e) == (w.ids().contains(e) && !w.store().has_spec(
            e,
            a,
        )) by {
        assert(crate::query::ids_of(fs[0]) =~= seq![a]);
        if w.ids().contains(e) && !w.store().has_spec(e, a) {
            assert(crate::query::filter_ok(fs[0], e, w.store())) by {
                assert forall|i: int|
                    0 <= i < crate::query::ids_of(fs[0]).len() implies !w.store().has_spec(
                    e,
                    #[trigger] crate::query::ids_of(fs[0])[i],
                ) by {
                    assert(crate::query::ids_of(fs[0])[i] == a);
                }
            }
            assert(matches_spec(fs, e, w.store()));
        }
        if world_query_set(w, d).contains(e) {
            assert(crate::query::filter_ok(fs[0], e, w.store()));
            assert(!w.store().has_spec(e, crate::query::ids_of(fs[0])[0]));
        }
    }
}

/// A descriptor with two `any` types denotes exactly the union of the two
/// types' holders.
pub proof fn lemma_query_any_pair(w: World, d: QueryDescriptor)
    requires
        w.wf(),
        d.all@.len() == 0,
        d.any@.len() == 2,
        d.none@.len() == 0,
    ensures
        world_query_set(w, d) =~= w.store().holders((d.any@[0])@).union(
            w.store().holders((d.any@[1])@),
        ),
{
    let a = (d.any@[0])@;
    let b = (d.any@[1])@;
    let fs = filters_of(d);
    assert(fs =~= seq![crate::query::QueryFilter::Any(d.any)]);
    assert forall|e: EntityId|
        world_query_set(w, d).contains(e) == (w.store().holders(a).contains(e) || w.store()
            .holders(b).contains(e)) by {
        assert(crate::query::ids_of(fs[0]) =~= seq![a, b]);
        if w.store().has_spec(e, a) || w.store().has_spec(e, b) {
            assert(w.store().entity_set().contains(e)) by {
                assert(exists|c: Seq<char>| w.store().has_spec(e, c));
            }
            assert(w.ids().contains(e));
            assert(crate::query::filter_ok(fs[0], e, w.store())) by {
                if w.store().has_spec(e, a) {
                    assert(w.store().has_spec(e, crate::query::ids_of(fs[0])[0]));
                } else {
                    assert(w.store().has_spec(e, crate::query::ids_of(fs[0])[1]));
                }
            }
            assert(matches_spec(fs, e, w.store()));
        }
        if world_query_set(w, d).contains(e) {
            assert(crate::query::filter_ok(fs[0], e, w.store()));
            let i = choose|i: int|
                0 <= i < crate::query::ids_of(fs[0]).len() && w.store().has_spec(
                    e,
                    #[trigger] crate::query::ids_of(fs[0])[i],
                );
            assert(i == 0 || i == 1);
        }
    }
}

} // verus!
