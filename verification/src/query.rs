use vstd::prelude::*;
use crate::component::{ComponentId, ComponentStore};
use crate::entity::EntityId;
use crate::error::TX2Error;

verus! {

/// One predicate clause over component-type identifiers.
#[derive(Debug)]
pub enum QueryFilter {
    /// The entity must hold every listed type.
    All(Vec<ComponentId>),
    /// The entity must hold at least one listed type.
    Any(Vec<ComponentId>),
    /// The entity must hold none of the listed types.
    NoneOf(Vec<ComponentId>),
}

/// The identifiers a clause lists, as character sequences.
pub open spec fn ids_of(f: QueryFilter) -> Seq<Seq<char>> {
    match f {
        QueryFilter::All(v) => v@.map_values(|s: String| s@),
        QueryFilter::Any(v) => v@.map_values(|s: String| s@),
        QueryFilter::NoneOf(v) => v@.map_values(|s: String| s@),
    }
}

/// The fixed ordering of clause kinds in a compiled query.
pub open spec fn kind_rank(f: QueryFilter) -> int {
    match f {
        QueryFilter::All(_) => 0,
        QueryFilter::Any(_) => 1,
        QueryFilter::NoneOf(_) => 2,
    }
}

/// Whether one clause accepts an entity against a store.
pub open spec fn filter_ok(f: QueryFilter, e: EntityId, store: ComponentStore) -> bool {
    match f {
        QueryFilter::All(_) => forall|i: int|
            0 <= i < ids_of(f).len() ==> store.has_spec(e, #[trigger] ids_of(f)[i]),
        QueryFilter::Any(_) => exists|i: int|
            0 <= i < ids_of(f).len() && store.has_spec(e, #[trigger] ids_of(f)[i]),
        QueryFilter::NoneOf(_) => forall|i: int|
            0 <= i < ids_of(f).len() ==> !store.has_spec(e, #[trigger] ids_of(f)[i]),
    }
}

/// Whether an entity passes every clause of a query.
pub open spec fn matches_spec(filters: Seq<QueryFilter>, e: EntityId, store: ComponentStore) -> bool {
    forall|k: int| 0 <= k < filters.len() ==> filter_ok(#[trigger] filters[k], e, store)
}

/// The entity set a query denotes against a store, within a universe.
pub open spec fn query_set(
    filters: Seq<QueryFilter>,
    store: ComponentStore,
    universe: Set<EntityId>,
) -> Set<EntityId> {
    Set::new(|e: EntityId| universe.contains(e) && matches_spec(filters, e, store))
}

/// The three clause lists a caller describes a query with.
#[derive(Debug)]
pub struct QueryDescriptor {
    pub all: Vec<ComponentId>,
    pub any: Vec<ComponentId>,
    pub none: Vec<ComponentId>,
}

impl Default for QueryDescriptor {
    fn default() -> (d: QueryDescriptor)
        ensures
            d.all@.len() == 0 && d.any@.len() == 0 && d.none@.len() == 0,
    {
        QueryDescriptor { all: Vec::new(), any: Vec::new(), none: Vec::new() }
    }
}

/// A descriptor is usable only if at least one clause is non-empty.
pub open spec fn desc_nonempty(d: QueryDescriptor) -> bool {
    d.all@.len() > 0 || d.any@.len() > 0 || d.none@.len() > 0
}

/// The clause sequence a descriptor compiles to: one clause per non-empty
/// list, in the fixed All, Any, None order.
pub open spec fn filters_of(d: QueryDescriptor) -> Seq<QueryFilter> {
    let s0 = if d.all@.len() > 0 {
        seq![QueryFilter::All(d.all)]
    } else {
        Seq::empty()
    };
    let s1 = if d.any@.len() > 0 {
        seq![QueryFilter::Any(d.any)]
    } else {
        Seq::empty()
    };
    let s2 = if d.none@.len() > 0 {
        seq![QueryFilter::NoneOf(d.none)]
    } else {
        Seq::empty()
    };
    s0 + s1 + s2
}

/// The canonical shape `Query::new` produces: between one and three clauses,
/// at most one of each kind, in the fixed order, each listing at least one
/// identifier.
pub open spec fn canonical(filters: Seq<QueryFilter>) -> bool {
    &&& filters.len() >= 1
    &&& forall|i: int, j: int|
        0 <= i < j < filters.len() ==> kind_rank(filters[i]) < kind_rank(filters[j])
    &&& forall|k: int| 0 <= k < filters.len() ==> ids_of(#[trigger] filters[k]).len() > 0
}

/// A compiled filter with a cached result set and a dirty flag.
#[derive(Debug)]
pub struct Query {
    filters: Vec<QueryFilter>,
    cached_results: Option<Vec<EntityId>>,
    dirty: bool,
}

impl Query {
    /// The compiled clauses.
    pub closed spec fn filters(self) -> Seq<QueryFilter> {
        self.filters@
    }

    /// Whether the cached result is stale.
    pub closed spec fn dirty(self) -> bool {
        self.dirty
    }

    /// The cached result set, if one was ever computed.
    pub closed spec fn cached(self) -> Option<Seq<EntityId>> {
        match self.cached_results {
            Option::Some(v) => Option::Some(v@),
            Option::None => Option::None,
        }
    }

    /// Canonical clause shape, and a duplicate-free cache when present.
    pub closed spec fn wf(self) -> bool {
        &&& canonical(self.filters@)
        &&& match self.cached_results {
            Option::Some(v) => v@.no_duplicates(),
            Option::None => true,
        }
    }

    /// Compiles a descriptor. A descriptor with no clause at all is a usage
    /// error and yields a fatal result.
    pub fn new(descriptor: QueryDescriptor) -> (r: Result<Query, TX2Error>)
        ensures
            r is Ok <==> desc_nonempty(descriptor),
            r matches Ok(q) ==> q.wf() && q.filters() == filters_of(descriptor) && q.dirty()
                && q.cached() is None,
    {
        let QueryDescriptor { all, any, none } = descriptor;
        let ghost d = QueryDescriptor { all, any, none };
        let mut filters: Vec<QueryFilter> = Vec::new();
        let has_all = all.len() > 0;
        let has_any = any.len() > 0;
        let has_none = none.len() > 0;
        if has_all {
            filters.push(QueryFilter::All(all));
        }
        if has_any {
            filters.push(QueryFilter::Any(any));
        }
        if has_none {
            filters.push(QueryFilter::NoneOf(none));
        }
        if filters.len() == 0 {
            return Err(TX2Error::empty_query());
        }
        proof {
            assert(filters@ =~= filters_of(d));
            assert(canonical(filters@)) by {
                assert forall|k: int| 0 <= k < filters@.len() implies ids_of(
                    #[trigger] filters@[k]).len() > 0 by {
                    assert(ids_of(QueryFilter::All(d.all)).len() == d.all@.len());
                    assert(ids_of(QueryFilter::Any(d.any)).len() == d.any@.len());
                    assert(ids_of(QueryFilter::NoneOf(d.none)).len() == d.none@.len());
                }
            }
        }
        Ok(Query { filters, cached_results: Option::None, dirty: true })
    }

    /// Forces recomputation on the next execution.
    pub fn mark_dirty(&mut self)
        ensures
            final(self).dirty(),
            final(self).filters() == old(self).filters(),
            final(self).cached() == old(self).cached(),
            old(self).wf() ==> final(self).wf(),
    {
        self.dirty = true;
    }

    /// Whether the entity passes every clause of this query.
    pub fn matches(&self, entity_id: EntityId, store: &ComponentStore) -> (r: bool)
        ensures
            r == matches_spec(self.filters(), entity_id, *store),
    {
        let n = self.filters.len();
        let mut k: usize = 0;
        while k < n
            invariant
                n == self.filters@.len(),
                k <= n,
                forall|t: int| 0 <= t < k ==> filter_ok(#[trigger] self.filters@[t], entity_id, *store),
            decreases n - k,
        {
            match &self.filters[k] {
                QueryFilter::All(components) => {
                    let m = components.len();
                    let mut i: usize = 0;
                    while i < m
                        invariant
                            m == components@.len(),
                            i <= m,
                            self.filters@[k as int] == QueryFilter::All(*components),
                            k < n == self.filters@.len(),
                            forall|t: int|
                                0 <= t < i ==> store.has_spec(entity_id,
                                    (#[trigger] components@[t])@),
                        decreases m - i,
                    {
                        if !store.has(entity_id, &components[i]) {
                            proof {
                                assert(ids_of(self.filters@[k as int])[i as int]
                                    == components@[i as int]@);
                                assert(!filter_ok(self.filters@[k as int], entity_id, *store));
                            }
                            return false;
                        }
                        i = i + 1;
                    }
                    proof {
                        assert forall|t: int|
                            0 <= t < ids_of(self.filters@[k as int]).len() implies store.has_spec(
                            entity_id, #[trigger] ids_of(self.filters@[k as int])[t]) by {
                            assert(ids_of(self.filters@[k as int])[t] == components@[t]@);
                        }
                    }
                },
                QueryFilter::Any(components) => {
                    let m = components.len();
                    let mut i: usize = 0;
                    let mut found = false;
                    while i < m && !found
                        invariant
                            m == components@.len(),
                            i <= m,
                            self.filters@[k as int] == QueryFilter::Any(*components),
                            k < n == self.filters@.len(),
                            found ==> filter_ok(self.filters@[k as int], entity_id, *store),
                            !found ==> forall|t: int|
                                0 <= t < i ==> !store.has_spec(entity_id,
                                    (#[trigger] components@[t])@),
                        decreases m - i + 1 - (found as int),
                    {
                        if store.has(entity_id, &components[i]) {
                            proof {
                                assert(ids_of(self.filters@[k as int])[i as int]
                                    == components@[i as int]@);
                            }
                            found = true;
                        } else {
                            i = i + 1;
                        }
                    }
                    if !found {
                        proof {
                            assert forall|t: int|
                                0 <= t < ids_of(self.filters@[k as int]).len() implies
                                !store.has_spec(entity_id,
                                #[trigger] ids_of(self.filters@[k as int])[t]) by {
                                assert(ids_of(self.filters@[k as int])[t] == components@[t]@);
                            }
                            assert(!filter_ok(self.filters@[k as int], entity_id, *store));
                        }
                        return false;
                    }
                },
                QueryFilter::NoneOf(components) => {
                    let m = components.len();
                    let mut i: usize = 0;
                    while i < m
                        invariant
                            m == components@.len(),
                            i <= m,
                            self.filters@[k as int] == QueryFilter::NoneOf(*components),
                            k < n == self.filters@.len(),
                            forall|t: int|
                                0 <= t < i ==> !store.has_spec(entity_id,
                                    (#[trigger] components@[t])@),
                        decreases m - i,
                    {
                        if store.has(entity_id, &components[i]) {
                            proof {
                                assert(ids_of(self.filters@[k as int])[i as int]
                                    == components@[i as int]@);
                                assert(!filter_ok(self.filters@[k as int], entity_id, *store));
                            }
                            return false;
                        }
                        i = i + 1;
                    }
                    proof {
                        assert forall|t: int|
                            0 <= t < ids_of(self.filters@[k as int]).len() implies !store.has_spec(
                            entity_id, #[trigger] ids_of(self.filters@[k as int])[t]) by {
                            assert(ids_of(self.filters@[k as int])[t] == components@[t]@);
                        }
                    }
                },
            }
            k = k + 1;
        }
        true
    }

    /// A superset of the matching entities, drawn from the reverse index when
    /// an `Any` or `All` clause allows it, else the whole universe.
    fn candidates(&self, store: &ComponentStore, universe: &Vec<EntityId>) -> (r: Vec<EntityId>)
        requires
            self.wf(),
            store.wf(),
            universe@.no_duplicates(),
            forall|x: EntityId| store.entity_set().contains(x) ==> universe@.contains(x),
        ensures
            r@.no_duplicates(),
            forall|x: EntityId| #[trigger] r@.contains(x) ==> universe@.contains(x),
            forall|x: EntityId|
                universe@.contains(x) && matches_spec(self.filters(), x, *store) ==> r@.contains(
                    x),
    {
        let n = self.filters.len();
        let mut all_ref: Option<&Vec<ComponentId>> = Option::None;
        let mut any_ref: Option<&Vec<ComponentId>> = Option::None;
        let mut k: usize = 0;
        while k < n
            invariant
                n == self.filters@.len(),
                k <= n,
                match all_ref {
                    Option::Some(v) => exists|t: int|
                        0 <= t < k && #[trigger] self.filters@[t] == QueryFilter::All(*v),
                    Option::None => forall|t: int|
                        0 <= t < k ==> !((#[trigger] self.filters@[t]) is All),
                },
                match any_ref {
                    Option::Some(v) => exists|t: int|
                        0 <= t < k && #[trigger] self.filters@[t] == QueryFilter::Any(*v),
                    Option::None => forall|t: int|
                        0 <= t < k ==> !((#[trigger] self.filters@[t]) is Any),
                },
            decreases n - k,
        {
            match &self.filters[k] {
                QueryFilter::All(v) => {
                    all_ref = Option::Some(v);
                },
                QueryFilter::Any(v) => {
                    any_ref = Option::Some(v);
                },
                QueryFilter::NoneOf(_) => {},
            }
            k = k + 1;
        }
        match (any_ref, all_ref) {
            (Option::Some(av), all_opt) => {
                let mut cand = union_holders(store, av);
                let ghost ka = choose|t: int|
                    0 <= t < n && #[trigger] self.filters@[t] == QueryFilter::Any(*av);
                if let Option::Some(alv) = all_opt {
                    let ghost kb = choose|t: int|
                        0 <= t < n && #[trigger] self.filters@[t] == QueryFilter::All(*alv);
                    let m = alv.len();
                    let mut u: usize = 0;
                    while u < m
                        invariant
                            m == alv@.len(),
                            u <= m,
                            cand@.no_duplicates(),
                            forall|x: EntityId|
                                #[trigger] cand@.contains(x) == ((exists|t: int|
                                    0 <= t < av@.len() && store.has_spec(x,
                                    (#[trigger] av@[t])@)) && (forall|t: int|
                                    0 <= t < u ==> store.has_spec(x, (#[trigger] alv@[t])@))),
                        decreases m - u,
                    {
                        cand = narrow_by(cand, store, &alv[u]);
                        u = u + 1;
                    }
                    proof {
                        self.lemma_candidates_cover(store, universe, cand@, ka, *av, true, kb, *alv);
                    }
                    cand
                } else {
                    proof {
                        self.lemma_candidates_cover(store, universe, cand@, ka, *av, false, ka, *av);
                    }
                    cand
                }
            },
            (Option::None, Option::Some(alv)) => {
                let ghost kb = choose|t: int|
                    0 <= t < n && #[trigger] self.filters@[t] == QueryFilter::All(*alv);
                proof {
                    assert(alv@.len() > 0) by {
                        assert(ids_of(self.filters@[kb]).len() > 0);
                    }
                }
                let mut cand = store.get_entities_with_component(&alv[0]);
                let m = alv.len();
                let mut u: usize = 1;
                while u < m
                    invariant
                        m == alv@.len(),
                        1 <= u <= m,
                        cand@.no_duplicates(),
                        store.wf(),
                        forall|x: EntityId|
                            #[trigger] cand@.contains(x) == forall|t: int|
                                0 <= t < u ==> store.has_spec(x, (#[trigger] alv@[t])@),
                    decreases m - u,
                {
                    cand = narrow_by(cand, store, &alv[u]);
                    u = u + 1;
                }
                proof {
                    assert forall|x: EntityId| #[trigger] cand@.contains(x) implies
                        universe@.contains(x) by {
                        assert(store.has_spec(x, (alv@[0])@));
                        assert(exists|cc: Seq<char>| store.has_spec(x, cc));
                        assert(store.entity_set().contains(x));
                    }
                    assert forall|x: EntityId|
                        universe@.contains(x) && matches_spec(self.filters@, x, *store) implies
                        cand@.contains(x) by {
                        assert(filter_ok(self.filters@[kb], x, *store));
                        assert forall|t: int| 0 <= t < alv@.len() implies store.has_spec(x,
                            (#[trigger] alv@[t])@) by {
                            assert(ids_of(self.filters@[kb])[t] == alv@[t]@);
                        }
                    }
                }
                cand
            },
            (Option::None, Option::None) => {
                let mut out: Vec<EntityId> = Vec::new();
                let m = universe.len();
                let mut u: usize = 0;
                while u < m
                    invariant
                        m == universe@.len(),
                        u <= m,
                        out@ =~= universe@.take(u as int),
                    decreases m - u,
                {
                    out.push(universe[u]);
                    u = u + 1;
                }
                proof {
                    assert(out@ =~= universe@);
                }
                out
            },
        }
    }

    /// The covering argument for candidate sets built from the `Any` union,
    /// optionally narrowed by the `All` clause.
    proof fn lemma_candidates_cover(
        self,
        store: &ComponentStore,
        universe: &Vec<EntityId>,
        cand: Seq<EntityId>,
        ka: int,
        av: Vec<ComponentId>,
        narrowed: bool,
        kb: int,
        alv: Vec<ComponentId>,
    )
        requires
            self.wf(),
            store.wf(),
            forall|x: EntityId| store.entity_set().contains(x) ==> universe@.contains(x),
            0 <= ka < self.filters().len(),
            self.filters()[ka] == QueryFilter::Any(av),
            narrowed ==> 0 <= kb < self.filters().len() && self.filters()[kb]
                == QueryFilter::All(alv),
            forall|x: EntityId|
                #[trigger] cand.contains(x) == ((exists|t: int|
                    0 <= t < av@.len() && store.has_spec(x, (#[trigger] av@[t])@)) && (!narrowed
                    || forall|t: int| 0 <= t < alv@.len() ==> store.has_spec(x,
                    (#[trigger] alv@[t])@))),
        ensures
            forall|x: EntityId| #[trigger] cand.contains(x) ==> universe@.contains(x),
            forall|x: EntityId|
                universe@.contains(x) && matches_spec(self.filters(), x, *store) ==> cand.contains(
                    x),
    {
        assert forall|x: EntityId| #[trigger] cand.contains(x) implies universe@.contains(x) by {
            let t = choose|t: int| 0 <= t < av@.len() && store.has_spec(x, (#[trigger] av@[t])@);
            assert(exists|cc: Seq<char>| store.has_spec(x, cc));
            assert(store.entity_set().contains(x));
        }
        assert forall|x: EntityId|
            universe@.contains(x) && matches_spec(self.filters(), x, *store) implies cand.contains(
            x) by {
            assert(filter_ok(self.filters()[ka], x, *store));
            let i = choose|i: int|
                0 <= i < ids_of(self.filters()[ka]).len() && store.has_spec(x,
                #[trigger] ids_of(self.filters()[ka])[i]);
            assert(ids_of(self.filters()[ka])[i] == av@[i]@);
            assert(exists|t: int| 0 <= t < av@.len() && store.has_spec(x, (#[trigger] av@[t])@));
            if narrowed {
                assert(filter_ok(self.filters()[kb], x, *store));
                assert forall|t: int| 0 <= t < alv@.len() implies store.has_spec(x,
                    (#[trigger] alv@[t])@) by {
                    assert(ids_of(self.filters()[kb])[t] == alv@[t]@);
                }
            }
        }
    }

    /// Evaluates the query. A clean cached result is returned as is; a dirty
    /// or absent one is recomputed from the candidate set, cached, and the
    /// dirty flag cleared.
    pub fn execute(&mut self, store: &ComponentStore, universe: &Vec<EntityId>) -> (r: Vec<
        EntityId>)
        requires
            old(self).wf(),
            store.wf(),
            universe@.no_duplicates(),
            forall|x: EntityId| store.entity_set().contains(x) ==> universe@.contains(x),
        ensures
            final(self).wf(),
            final(self).filters() == old(self).filters(),
            !final(self).dirty(),
            final(self).cached() == Option::Some(r@),
            r@.no_duplicates(),
            (!old(self).dirty() && old(self).cached() is Some) ==> Option::Some(r@) == old(
                self).cached(),
            (old(self).dirty() || old(self).cached() is None) ==> r@.to_set() =~= query_set(
                old(self).filters(), *store, universe@.to_set()),
            execute_post(*old(self), *final(self), r@, *store, universe@),
    {
        if !self.dirty {
            if let Option::Some(cr) = &self.cached_results {
                let out = copy_ids(cr);
                return out;
            }
        }
        let cand = self.candidates(store, universe);
        let m = cand.len();
        let mut results: Vec<EntityId> = Vec::new();
        let mut u: usize = 0;
        while u < m
            invariant
                m == cand@.len(),
                u <= m,
                cand@.no_duplicates(),
                results@.no_duplicates(),
                forall|x: EntityId|
                    #[trigger] results@.contains(x) == (exists|t: int|
                        0 <= t < u && cand@[t] == x && matches_spec(self.filters@, x, *store)),
                self == old(self),
            decreases m - u,
        {
            let e = cand[u];
            if self.matches(e, store) {
                let ghost pre_res = results@;
                proof {
                    if pre_res.contains(e) {
                        let t = choose|t: int|
                            0 <= t < u && cand@[t] == e && matches_spec(self.filters@, e, *store);
                        assert(cand@[t] == cand@[u as int]);
                        assert(false);
                    }
                }
                results.push(e);
                proof {
                    crate::component::lemma_push_contains(pre_res, e);
                    crate::component::lemma_push_nodup(pre_res, e);
                    assert forall|x: EntityId|
                        #[trigger] results@.contains(x) == (exists|t: int|
                            0 <= t < u + 1 && cand@[t] == x && matches_spec(self.filters@, x,
                            *store)) by {
                        if results@.contains(x) {
                            if x == e {
                                assert(cand@[u as int] == x);
                            } else {
                                assert(pre_res.contains(x));
                            }
                        }
                        if exists|t: int|
                            0 <= t < u + 1 && cand@[t] == x && matches_spec(self.filters@, x,
                            *store) {
                            let t = choose|t: int|
                                0 <= t < u + 1 && cand@[t] == x && matches_spec(self.filters@, x,
                                *store);
                            if t < u {
                                assert(pre_res.contains(x));
                            } else {
                                assert(x == e);
                            }
                            assert(results@.contains(x));
                        }
                    }
                }
            } else {
                proof {
                    assert forall|x: EntityId|
                        #[trigger] results@.contains(x) == (exists|t: int|
                            0 <= t < u + 1 && cand@[t] == x && matches_spec(self.filters@, x,
                            *store)) by {
                        if exists|t: int|
                            0 <= t < u + 1 && cand@[t] == x && matches_spec(self.filters@, x,
                            *store) {
                            let t = choose|t: int|
                                0 <= t < u + 1 && cand@[t] == x && matches_spec(self.filters@, x,
                                *store);
                            if t == u {
                                assert(x == cand@[u as int]);
                                assert(false);
                            }
                            assert(results@.contains(x));
                        }
                    }
                }
            }
            u = u + 1;
        }
        proof {
            assert(results@.to_set() =~= query_set(self.filters@, *store, universe@.to_set())) by {
                assert forall|x: EntityId| results@.to_set().contains(x) == query_set(
                    self.filters@, *store, universe@.to_set()).contains(x) by {
                    if results@.contains(x) {
                        let t = choose|t: int|
                            0 <= t < m && cand@[t] == x && matches_spec(self.filters@, x, *store);
                        assert(cand@.contains(x));
                        assert(universe@.contains(x));
                        assert(universe@.to_set().contains(x));
                    }
                    if universe@.to_set().contains(x) && matches_spec(self.filters@, x, *store) {
                        assert(universe@.contains(x));
                        assert(cand@.contains(x));
                        let t = choose|t: int| 0 <= t < m && cand@[t] == x;
                        assert(results@.contains(x));
                    }
                }
            }
        }
        let out = copy_ids(&results);
        self.cached_results = Option::Some(results);
        self.dirty = false;
        out
    }
}

/// How one evaluation changes a query and what it returns: the clauses are
/// kept, the result is cached, a clean cache is served unchanged, and a
/// stale or absent one is recomputed against the store and universe.
pub open spec fn execute_post(
    q0: Query,
    q1: Query,
    r: Seq<EntityId>,
    store: ComponentStore,
    universe: Seq<EntityId>,
) -> bool {
    &&& q1.filters() == q0.filters()
    &&& !q1.dirty()
    &&& q1.cached() == Option::Some(r)
    &&& (!q0.dirty() && q0.cached() is Some ==> Option::Some(r) == q0.cached())
    &&& (q0.dirty() || q0.cached() is None ==> r.to_set() == query_set(
        q0.filters(),
        store,
        universe.to_set(),
    ))
}

/// Query idempotence: two evaluations with no intervening mutation return
/// identical result sequences, because the first leaves a clean cache the
/// second serves unchanged.
pub proof fn lemma_query_idempotent(
    q0: Query,
    q1: Query,
    q2: Query,
    r1: Seq<EntityId>,
    r2: Seq<EntityId>,
    store: ComponentStore,
    universe: Seq<EntityId>,
)
    requires
        execute_post(q0, q1, r1, store, universe),
        execute_post(q1, q2, r2, store, universe),
    ensures
        r2 == r1,
{
}

/// Builds a descriptor clause by clause.
pub struct QueryBuilder {
    descriptor: QueryDescriptor,
}

impl QueryBuilder {
    pub closed spec fn descriptor(self) -> QueryDescriptor {
        self.descriptor
    }

    pub fn new() -> (b: QueryBuilder)
        ensures
            b.descriptor().all@.len() == 0,
            b.descriptor().any@.len() == 0,
            b.descriptor().none@.len() == 0,
    {
        QueryBuilder { descriptor: QueryDescriptor::default() }
    }

    /// Sets the types an entity must hold all of.
    pub fn all(self, components: Vec<ComponentId>) -> (b: QueryBuilder)
        ensures
            b.descriptor().all == components,
            b.descriptor().any == self.descriptor().any,
            b.descriptor().none == self.descriptor().none,
    {
        let QueryBuilder { descriptor } = self;
        let QueryDescriptor { all: _, any, none } = descriptor;
        QueryBuilder { descriptor: QueryDescriptor { all: components, any, none } }
    }

    /// Sets the types an entity must hold at least one of.
    pub fn any(self, components: Vec<ComponentId>) -> (b: QueryBuilder)
        ensures
            b.descriptor().any == components,
            b.descriptor().all == self.descriptor().all,
            b.descriptor().none == self.descriptor().none,
    {
        let QueryBuilder { descriptor } = self;
        let QueryDescriptor { all, any: _, none } = descriptor;
        QueryBuilder { descriptor: QueryDescriptor { all, any: components, none } }
    }

    /// Sets the types an entity must hold none of.
    pub fn none(self, components: Vec<ComponentId>) -> (b: QueryBuilder)
        ensures
            b.descriptor().none == components,
            b.descriptor().all == self.descriptor().all,
            b.descriptor().any == self.descriptor().any,
    {
        let QueryBuilder { descriptor } = self;
        let QueryDescriptor { all, any, none: _ } = descriptor;
        QueryBuilder { descriptor: QueryDescriptor { all, any, none: components } }
    }

    /// Compiles the built descriptor.
    pub fn build(self) -> (r: Result<Query, TX2Error>)
        ensures
            r is Ok <==> desc_nonempty(self.descriptor()),
            r matches Ok(q) ==> q.wf() && q.filters() == filters_of(self.descriptor())
                && q.dirty() && q.cached() is None,
    {
        Query::new(self.descriptor)
    }
}

/// How often an identifier occurs in a clause list.
pub open spec fn id_count(s: Seq<Seq<char>>, x: Seq<char>) -> nat
    decreases s.len(),
{
    if s.len() == 0 {
        0
    } else {
        id_count(s.drop_last(), x) + if s.last() == x {
            1nat
        } else {
            0nat
        }
    }
}

/// Two clause lists carry the same identifiers with the same multiplicities,
/// in any order.
pub open spec fn same_ids(a: Seq<Seq<char>>, b: Seq<Seq<char>>) -> bool {
    a.len() == b.len() && forall|x: Seq<char>| #[trigger] id_count(a, x) == id_count(b, x)
}

/// An identifier absent from a list is counted zero times.
proof fn lemma_id_count_zero(s: Seq<Seq<char>>, x: Seq<char>)
    ensures
        (id_count(s, x) == 0) == !s.contains(x),
    decreases s.len(),
{
    if s.len() > 0 {
        lemma_id_count_zero(s.drop_last(), x);
        if s.contains(x) {
            let k = choose|k: int| 0 <= k < s.len() && s[k] == x;
            if k < s.len() - 1 {
                assert(s.drop_last()[k] == x);
                assert(s.drop_last().contains(x));
            }
        } else {
            assert(s.last() != x);
            if s.drop_last().contains(x) {
                let k = choose|k: int| 0 <= k < s.drop_last().len() && s.drop_last()[k] == x;
                assert(s[k] == x);
            }
        }
    }
}

/// One step of counting along a prefix.
proof fn lemma_id_count_step(s: Seq<Seq<char>>, i: int, x: Seq<char>)
    requires
        0 <= i < s.len(),
    ensures
        id_count(s.take(i + 1), x) == id_count(s.take(i), x) + if s[i] == x {
            1nat
        } else {
            0nat
        },
{
    assert(s.take(i + 1).drop_last() =~= s.take(i));
    assert(s.take(i + 1).last() == s[i]);
}

/// Whether some clause of a query mentions the identifier.
pub open spec fn mentions(filters: Seq<QueryFilter>, c: Seq<char>) -> bool {
    exists|k: int, t: int|
        0 <= k < filters.len() && 0 <= t < ids_of(filters[k]).len() && #[trigger] ids_of(
            filters[k])[t] == c
}

/// Whether a query has a clause of the given kind rank.
pub open spec fn has_kind(filters: Seq<QueryFilter>, rank: int) -> bool {
    exists|k: int| 0 <= k < filters.len() && kind_rank(#[trigger] filters[k]) == rank
}

/// The identifiers of the clause with the given kind rank, or empty.
pub open spec fn clause_ids(filters: Seq<QueryFilter>, rank: int) -> Seq<Seq<char>> {
    if has_kind(filters, rank) {
        ids_of(filters[choose|k: int|
            0 <= k < filters.len() && kind_rank(#[trigger] filters[k]) == rank])
    } else {
        Seq::empty()
    }
}

/// In a canonical query the clause of each kind is unique, so the chosen
/// clause is the one at any known position.
proof fn lemma_clause_at(filters: Seq<QueryFilter>, k: int)
    requires
        canonical(filters),
        0 <= k < filters.len(),
    ensures
        has_kind(filters, kind_rank(filters[k])),
        clause_ids(filters, kind_rank(filters[k])) == ids_of(filters[k]),
{
    let r = kind_rank(filters[k]);
    let j = choose|j: int| 0 <= j < filters.len() && kind_rank(#[trigger] filters[j]) == r;
    if j != k {
        if j < k {
            assert(kind_rank(filters[j]) < kind_rank(filters[k]));
        } else {
            assert(kind_rank(filters[k]) < kind_rank(filters[j]));
        }
    }
}

/// The views of a clause list.
pub open spec fn id_views(v: Vec<ComponentId>) -> Seq<Seq<char>> {
    v@.map_values(|s: String| s@)
}

/// A compiled query and a descriptor are equivalent when, kind by kind, their
/// clause lists carry the same identifier multiset. This is the canonical-key
/// relation the cache deduplicates by.
pub open spec fn equiv_desc(q: Query, d: QueryDescriptor) -> bool {
    &&& same_ids(clause_ids(q.filters(), 0), id_views(d.all))
    &&& same_ids(clause_ids(q.filters(), 1), id_views(d.any))
    &&& same_ids(clause_ids(q.filters(), 2), id_views(d.none))
}

/// Two descriptors are equivalent when, kind by kind, their clause lists
/// carry the same identifier multiset.
pub open spec fn desc_equiv(d1: QueryDescriptor, d2: QueryDescriptor) -> bool {
    &&& same_ids(id_views(d1.all), id_views(d2.all))
    &&& same_ids(id_views(d1.any), id_views(d2.any))
    &&& same_ids(id_views(d1.none), id_views(d2.none))
}

/// Cache deduplication: equivalent descriptors match exactly the same
/// entries of a cache.
pub proof fn lemma_cache_dedup(queries: Seq<Query>, d1: QueryDescriptor, d2: QueryDescriptor)
    requires
        desc_equiv(d1, d2),
    ensures
        forall|k: int|
            0 <= k < queries.len() ==> (equiv_desc(#[trigger] queries[k], d1) == equiv_desc(
                queries[k], d2)),
{
}

/// Cache deduplication, resolved: two descriptors whose clause lists carry
/// the same identifier multisets — in any order — resolve to the same cached
/// query instance, the first matching entry.
pub proof fn lemma_cache_dedup_resolves(
    queries: Seq<Query>,
    d1: QueryDescriptor,
    d2: QueryDescriptor,
    i1: int,
    i2: int,
)
    requires
        desc_equiv(d1, d2),
        0 <= i1 < queries.len(),
        equiv_desc(queries[i1], d1),
        forall|k: int| 0 <= k < i1 ==> !equiv_desc(#[trigger] queries[k], d1),
        0 <= i2 < queries.len(),
        equiv_desc(queries[i2], d2),
        forall|k: int| 0 <= k < i2 ==> !equiv_desc(#[trigger] queries[k], d2),
    ensures
        i1 == i2,
{
    lemma_cache_dedup(queries, d1, d2);
    if i1 < i2 {
        assert(equiv_desc(queries[i1], d2));
    } else if i2 < i1 {
        assert(equiv_desc(queries[i2], d1));
    }
}

/// Counts how often the identifier occurs in the clause list.
fn count_matching(v: &Vec<ComponentId>, x: &String) -> (r: usize)
    ensures
        r == id_count(id_views(*v), x@),
{
    let n = v.len();
    let mut cnt: usize = 0;
    let mut i: usize = 0;
    while i < n
        invariant
            n == v@.len(),
            i <= n,
            cnt <= i,
            cnt == id_count(id_views(*v).take(i as int), x@),
        decreases n - i,
    {
        proof {
            lemma_id_count_step(id_views(*v), i as int, x@);
            assert(id_views(*v)[i as int] == v@[i as int]@);
        }
        if v[i] == *x {
            cnt = cnt + 1;
        }
        i = i + 1;
    }
    proof {
        assert(id_views(*v).take(n as int) =~= id_views(*v));
    }
    cnt
}

/// Whether two clause lists carry the same identifier multiset.
fn same_ids_check(a: &Vec<ComponentId>, b: &Vec<ComponentId>) -> (r: bool)
    ensures
        r == same_ids(id_views(*a), id_views(*b)),
{
    if a.len() != b.len() {
        return false;
    }
    let n = a.len();
    let mut i: usize = 0;
    while i < n
        invariant
            n == a@.len() == b@.len(),
            i <= n,
            forall|k: int|
                0 <= k < i ==> id_count(id_views(*a), (#[trigger] a@[k])@) == id_count(
                    id_views(*b), a@[k]@),
        decreases n - i,
    {
        let ca = count_matching(a, &a[i]);
        let cb = count_matching(b, &a[i]);
        if ca != cb {
            proof {
                assert(id_count(id_views(*a), a@[i as int]@) != id_count(id_views(*b),
                    a@[i as int]@));
            }
            return false;
        }
        i = i + 1;
    }
    let mut j: usize = 0;
    while j < n
        invariant
            n == a@.len() == b@.len(),
            j <= n,
            forall|k: int|
                0 <= k < n ==> id_count(id_views(*a), (#[trigger] a@[k])@) == id_count(
                    id_views(*b), a@[k]@),
            forall|k: int|
                0 <= k < j ==> id_count(id_views(*a), (#[trigger] b@[k])@) == id_count(
                    id_views(*b), b@[k]@),
        decreases n - j,
    {
        let ca = count_matching(a, &b[j]);
        let cb = count_matching(b, &b[j]);
        if ca != cb {
            proof {
                assert(id_count(id_views(*a), b@[j as int]@) != id_count(id_views(*b),
                    b@[j as int]@));
            }
            return false;
        }
        j = j + 1;
    }
    proof {
        assert forall|x: Seq<char>| #[trigger] id_count(id_views(*a), x) == id_count(
            id_views(*b), x) by {
            if id_views(*a).contains(x) {
                let k = choose|k: int| 0 <= k < id_views(*a).len() && id_views(*a)[k] == x;
                assert(id_views(*a)[k] == a@[k]@);
                assert(id_count(id_views(*a), a@[k]@) == id_count(id_views(*b), a@[k]@));
            } else if id_views(*b).contains(x) {
                let k = choose|k: int| 0 <= k < id_views(*b).len() && id_views(*b)[k] == x;
                assert(id_views(*b)[k] == b@[k]@);
                assert(id_count(id_views(*a), b@[k]@) == id_count(id_views(*b), b@[k]@));
            } else {
                lemma_id_count_zero(id_views(*a), x);
                lemma_id_count_zero(id_views(*b), x);
            }
        }
    }
    true
}

/// Copies a vector of identifiers.
fn copy_ids(v: &Vec<EntityId>) -> (r: Vec<EntityId>)
    ensures
        r@ =~= v@,
{
    let n = v.len();
    let mut out: Vec<EntityId> = Vec::new();
    let mut i: usize = 0;
    while i < n
        invariant
            n == v@.len(),
            i <= n,
            out@ =~= v@.take(i as int),
        decreases n - i,
    {
        out.push(v[i]);
        i = i + 1;
    }
    proof {
        assert(v@.take(n as int) =~= v@);
    }
    out
}

/// The union of the reverse-index sets of every listed type.
fn union_holders(store: &ComponentStore, ids: &Vec<ComponentId>) -> (r: Vec<EntityId>)
    requires
        store.wf(),
    ensures
        r@.no_duplicates(),
        forall|x: EntityId|
            #[trigger] r@.contains(x) == exists|t: int|
                0 <= t < ids@.len() && store.has_spec(x, (#[trigger] ids@[t])@),
{
    let n = ids.len();
    let mut out: Vec<EntityId> = Vec::new();
    let mut i: usize = 0;
    while i < n
        invariant
            n == ids@.len(),
            i <= n,
            store.wf(),
            out@.no_duplicates(),
            forall|x: EntityId|
                #[trigger] out@.contains(x) == exists|t: int|
                    0 <= t < i && store.has_spec(x, (#[trigger] ids@[t])@),
        decreases n - i,
    {
        let hs = store.get_entities_with_component(&ids[i]);
        let m = hs.len();
        let mut k: usize = 0;
        while k < m
            invariant
                m == hs@.len(),
                k <= m,
                i < n == ids@.len(),
                forall|x: EntityId| hs@.contains(x) == store.has_spec(x, (ids@[i as int])@),
                out@.no_duplicates(),
                forall|x: EntityId|
                    #[trigger] out@.contains(x) == ((exists|t: int|
                        0 <= t < i && store.has_spec(x, (#[trigger] ids@[t])@)) || (exists|t: int|
                        0 <= t < k && hs@[t] == x)),
            decreases m - k,
        {
            let e = hs[k];
            let ghost pre_out = out@;
            if !crate::component::vec_contains_id(&out, e) {
                out.push(e);
                proof {
                    crate::component::lemma_push_contains(pre_out, e);
                    crate::component::lemma_push_nodup(pre_out, e);
                }
            }
            proof {
                assert forall|x: EntityId|
                    #[trigger] out@.contains(x) == ((exists|t: int|
                        0 <= t < i && store.has_spec(x, (#[trigger] ids@[t])@)) || (exists|t: int|
                        0 <= t < k + 1 && hs@[t] == x)) by {
                    if out@.contains(x) {
                        if pre_out.contains(x) {
                            if !(exists|t: int|
                                0 <= t < i && store.has_spec(x, (#[trigger] ids@[t])@)) {
                                let t = choose|t: int| 0 <= t < k && hs@[t] == x;
                                assert(0 <= t < k + 1 && hs@[t] == x);
                            }
                        } else {
                            assert(x == e);
                            assert(hs@[k as int] == x);
                        }
                    }
                    if exists|t: int| 0 <= t < i && store.has_spec(x, (#[trigger] ids@[t])@) {
                        assert(pre_out.contains(x));
                        assert(out@.contains(x));
                    }
                    if exists|t: int| 0 <= t < k + 1 && hs@[t] == x {
                        let t = choose|t: int| 0 <= t < k + 1 && hs@[t] == x;
                        if t == k {
                            assert(x == e);
                            assert(out@.contains(x));
                        } else {
                            assert(pre_out.contains(x));
                            assert(out@.contains(x));
                        }
                    }
                }
            }
            k = k + 1;
        }
        proof {
            assert forall|x: EntityId|
                #[trigger] out@.contains(x) == exists|t: int|
                    0 <= t < i + 1 && store.has_spec(x, (#[trigger] ids@[t])@) by {
                if out@.contains(x) {
                    if exists|t: int| 0 <= t < i && store.has_spec(x, (#[trigger] ids@[t])@) {
                        let t = choose|t: int|
                            0 <= t < i && store.has_spec(x, (#[trigger] ids@[t])@);
                        assert(0 <= t < i + 1 && store.has_spec(x, (ids@[t])@));
                    } else {
                        let t = choose|t: int| 0 <= t < m && hs@[t] == x;
                        assert(hs@.contains(x));
                        assert(store.has_spec(x, (ids@[i as int])@));
                    }
                }
                if exists|t: int| 0 <= t < i + 1 && store.has_spec(x, (#[trigger] ids@[t])@) {
                    let t = choose|t: int|
                        0 <= t < i + 1 && store.has_spec(x, (#[trigger] ids@[t])@);
                    if t < i {
                        assert(out@.contains(x));
                    } else {
                        assert(hs@.contains(x));
                        let s = choose|s: int| 0 <= s < m && hs@[s] == x;
                        assert(out@.contains(x));
                    }
                }
            }
        }
        i = i + 1;
    }
    out
}

/// Keeps the candidates that hold the given type.
fn narrow_by(cand: Vec<EntityId>, store: &ComponentStore, cid: &String) -> (r: Vec<EntityId>)
    requires
        cand@.no_duplicates(),
    ensures
        r@.no_duplicates(),
        forall|x: EntityId|
            #[trigger] r@.contains(x) == (cand@.contains(x) && store.has_spec(x, cid@)),
{
    let n = cand.len();
    let mut out: Vec<EntityId> = Vec::new();
    let mut i: usize = 0;
    while i < n
        invariant
            n == cand@.len(),
            i <= n,
            cand@.no_duplicates(),
            out@.no_duplicates(),
            forall|x: EntityId|
                #[trigger] out@.contains(x) == (exists|t: int| 0 <= t < i && cand@[t] == x
                    && store.has_spec(x, cid@)),
        decreases n - i,
    {
        let e = cand[i];
        if store.has(e, cid) {
            let ghost pre_out = out@;
            proof {
                if pre_out.contains(e) {
                    let t = choose|t: int|
                        0 <= t < i && cand@[t] == e && store.has_spec(e, cid@);
                    assert(cand@[t] == cand@[i as int]);
                    assert(false);
                }
            }
            out.push(e);
            proof {
                crate::component::lemma_push_contains(pre_out, e);
                crate::component::lemma_push_nodup(pre_out, e);
                assert forall|x: EntityId|
                    #[trigger] out@.contains(x) == (exists|t: int| 0 <= t < i + 1 && cand@[t] == x
                        && store.has_spec(x, cid@)) by {
                    if out@.contains(x) {
                        if x == e {
                            assert(cand@[i as int] == x);
                        } else {
                            assert(pre_out.contains(x));
                        }
                    }
                    if exists|t: int| 0 <= t < i + 1 && cand@[t] == x && store.has_spec(x, cid@) {
                        let t = choose|t: int|
                            0 <= t < i + 1 && cand@[t] == x && store.has_spec(x, cid@);
                        if t < i {
                            assert(pre_out.contains(x));
                        } else {
                            assert(x == e);
                        }
                        assert(out@.contains(x));
                    }
                }
            }
        } else {
            proof {
                assert forall|x: EntityId|
                    #[trigger] out@.contains(x) == (exists|t: int| 0 <= t < i + 1 && cand@[t] == x
                        && store.has_spec(x, cid@)) by {
                    if exists|t: int| 0 <= t < i + 1 && cand@[t] == x && store.has_spec(x, cid@) {
                        let t = choose|t: int|
                            0 <= t < i + 1 && cand@[t] == x && store.has_spec(x, cid@);
                        if t == i {
                            assert(x == cand@[i as int]);
                            assert(false);
                        }
                        assert(out@.contains(x));
                    }
                }
            }
        }
        i = i + 1;
    }
    proof {
        assert forall|x: EntityId|
            #[trigger] out@.contains(x) == (cand@.contains(x) && store.has_spec(x, cid@)) by {
            if out@.contains(x) {
                let t = choose|t: int| 0 <= t < n && cand@[t] == x && store.has_spec(x, cid@);
                assert(cand@.contains(x));
            }
            if cand@.contains(x) && store.has_spec(x, cid@) {
                let t = choose|t: int| 0 <= t < n && cand@[t] == x;
                assert(out@.contains(x));
            }
        }
    }
    out
}


/// Removing then reinserting at one position is an update at that position.
proof fn lemma_remove_insert_update(pre: Seq<Query>, post: Seq<Query>, i: int, q: Query)
    requires
        0 <= i < pre.len(),
        post == pre.remove(i).insert(i, q),
    ensures
        post =~= pre.update(i, q),
{
    pre.remove_ensures(i);
    pre.remove(i).insert_ensures(i, q);
    assert forall|k: int| 0 <= k < post.len() implies post[k] == pre.update(i, q)[k] by {
        if k > i {
            assert(pre.remove(i).insert(i, q)[(k - 1) + 1] == pre.remove(i)[k - 1]);
        }
    }
}

/// Broad invalidation: every entry keeps its clauses and cached set but is
/// marked stale.
pub open spec fn all_marked(pre: Seq<Query>, post: Seq<Query>) -> bool {
    &&& post.len() == pre.len()
    &&& forall|k: int|
        0 <= k < post.len() ==> {
            &&& (#[trigger] post[k]).filters() == pre[k].filters()
            &&& post[k].cached() == pre[k].cached()
            &&& post[k].dirty()
        }
}

/// Targeted invalidation: every entry keeps its clauses and cached set, and
/// is marked stale exactly when its clauses mention the type.
pub open spec fn marked_for(pre: Seq<Query>, post: Seq<Query>, c: Seq<char>) -> bool {
    &&& post.len() == pre.len()
    &&& forall|k: int|
        0 <= k < post.len() ==> {
            &&& (#[trigger] post[k]).filters() == pre[k].filters()
            &&& post[k].cached() == pre[k].cached()
            &&& post[k].dirty() == (pre[k].dirty() || mentions(pre[k].filters(), c))
        }
}

/// Whether some cache entry is equivalent to the descriptor.
pub open spec fn cache_has_equiv(queries: Seq<Query>, d: QueryDescriptor) -> bool {
    exists|k: int| 0 <= k < queries.len() && equiv_desc(#[trigger] queries[k], d)
}

/// A well-formed query is never equivalent to a descriptor with no clause.
proof fn lemma_no_equiv_empty(q: Query, d: QueryDescriptor)
    requires
        q.wf(),
        !desc_nonempty(d),
    ensures
        !equiv_desc(q, d),
{
    if equiv_desc(q, d) {
        let f0 = q.filters()[0];
        lemma_clause_at(q.filters(), 0);
        assert(clause_ids(q.filters(), kind_rank(f0)).len() > 0);
        assert(id_views(d.all).len() == 0);
        assert(id_views(d.any).len() == 0);
        assert(id_views(d.none).len() == 0);
        if kind_rank(f0) == 0 {
            assert(same_ids(clause_ids(q.filters(), 0), id_views(d.all)));
        } else if kind_rank(f0) == 1 {
            assert(same_ids(clause_ids(q.filters(), 1), id_views(d.any)));
        } else {
            assert(same_ids(clause_ids(q.filters(), 2), id_views(d.none)));
        }
    }
}

/// Deduplicates compiled queries by their canonical clause multisets and
/// owns their cached results.
pub struct QueryCache {
    queries: Vec<Query>,
}

impl QueryCache {
    /// The cached queries, in insertion order.
    pub closed spec fn queries(self) -> Seq<Query> {
        self.queries@
    }

    /// Every entry is a well-formed query.
    pub open spec fn wf(self) -> bool {
        forall|k: int| 0 <= k < self.queries().len() ==> (#[trigger] self.queries()[k]).wf()
    }

    pub fn new() -> (r: QueryCache)
        ensures
            r.wf(),
            r.queries().len() == 0,
    {
        QueryCache { queries: Vec::new() }
    }

    /// Whether the entry at the given position is equivalent to the descriptor.
    fn entry_equiv(&self, i: usize, descriptor: &QueryDescriptor) -> (r: bool)
        requires
            i < self.queries().len(),
            self.queries()[i as int].wf(),
        ensures
            r == equiv_desc(self.queries()[i as int], *descriptor),
    {
        let q = &self.queries[i];
        let n = q.filters.len();
        let mut all_ok = descriptor.all.len() == 0;
        let mut any_ok = descriptor.any.len() == 0;
        let mut none_ok = descriptor.none.len() == 0;
        proof {
            if !has_kind(q.filters@, 0) {
                assert(clause_ids(q.filters@, 0) =~= Seq::<Seq<char>>::empty());
                assert(same_ids(clause_ids(q.filters@, 0), id_views(descriptor.all))
                    == (descriptor.all@.len() == 0));
            }
            if !has_kind(q.filters@, 1) {
                assert(clause_ids(q.filters@, 1) =~= Seq::<Seq<char>>::empty());
                assert(same_ids(clause_ids(q.filters@, 1), id_views(descriptor.any))
                    == (descriptor.any@.len() == 0));
            }
            if !has_kind(q.filters@, 2) {
                assert(clause_ids(q.filters@, 2) =~= Seq::<Seq<char>>::empty());
                assert(same_ids(clause_ids(q.filters@, 2), id_views(descriptor.none))
                    == (descriptor.none@.len() == 0));
            }
        }
        let mut k: usize = 0;
        while k < n
            invariant
                n == q.filters@.len(),
                k <= n,
                q.wf(),
                all_ok == if has_kind(q.filters@.take(k as int), 0) {
                    same_ids(clause_ids(q.filters@, 0), id_views(descriptor.all))
                } else {
                    descriptor.all@.len() == 0
                },
                any_ok == if has_kind(q.filters@.take(k as int), 1) {
                    same_ids(clause_ids(q.filters@, 1), id_views(descriptor.any))
                } else {
                    descriptor.any@.len() == 0
                },
                none_ok == if has_kind(q.filters@.take(k as int), 2) {
                    same_ids(clause_ids(q.filters@, 2), id_views(descriptor.none))
                } else {
                    descriptor.none@.len() == 0
                },
            decreases n - k,
        {
            proof {
                lemma_clause_at(q.filters@, k as int);
                assert(q.filters@.take(k as int + 1)[k as int] == q.filters@[k as int]);
                assert forall|t: int| 0 <= t < k implies kind_rank(
                    #[trigger] q.filters@.take(k as int + 1)[t]) == kind_rank(
                    q.filters@.take(k as int)[t]) by {}
                assert forall|r: int| has_kind(q.filters@.take(k as int + 1), r) implies
                    has_kind(q.filters@.take(k as int), r) || kind_rank(q.filters@[k as int])
                        == r by {
                    let t = choose|t: int|
                        0 <= t < k + 1 && kind_rank(
                            #[trigger] q.filters@.take(k as int + 1)[t]) == r;
                    if t < k {
                        assert(kind_rank(q.filters@.take(k as int)[t]) == r);
                    }
                }
                assert forall|r: int| has_kind(q.filters@.take(k as int), r) implies has_kind(
                    q.filters@.take(k as int + 1), r) by {
                    let t = choose|t: int|
                        0 <= t < k && kind_rank(#[trigger] q.filters@.take(k as int)[t]) == r;
                    assert(kind_rank(q.filters@.take(k as int + 1)[t]) == r);
                }
            }
            match &q.filters[k] {
                QueryFilter::All(v) => {
                    all_ok = same_ids_check(v, &descriptor.all);
                    proof {
                        assert(q.filters@[k as int] == QueryFilter::All(*v));
                        assert(clause_ids(q.filters@, 0) == ids_of(q.filters@[k as int]));
                        assert(ids_of(q.filters@[k as int]) == id_views(*v));
                    }
                },
                QueryFilter::Any(v) => {
                    any_ok = same_ids_check(v, &descriptor.any);
                    proof {
                        assert(q.filters@[k as int] == QueryFilter::Any(*v));
                        assert(clause_ids(q.filters@, 1) == ids_of(q.filters@[k as int]));
                    }
                },
                QueryFilter::NoneOf(v) => {
                    none_ok = same_ids_check(v, &descriptor.none);
                    proof {
                        assert(q.filters@[k as int] == QueryFilter::NoneOf(*v));
                        assert(clause_ids(q.filters@, 2) == ids_of(q.filters@[k as int]));
                    }
                },
            }
            k = k + 1;
        }
        proof {
            assert(q.filters@.take(n as int) =~= q.filters@);
        }
        all_ok && any_ok && none_ok
    }

    /// Finds the first cached query equivalent to the descriptor, or compiles
    /// and caches a new one; returns its position. A descriptor with no
    /// clause is a usage error and yields a fatal result.
    pub fn get(&mut self, descriptor: QueryDescriptor) -> (r: Result<usize, TX2Error>)
        requires
            old(self).wf(),
        ensures
            final(self).wf(),
            r is Ok <==> desc_nonempty(descriptor),
            r is Err ==> *final(self) == *old(self),
            r matches Ok(i) ==> {
                &&& 0 <= i < final(self).queries().len()
                &&& equiv_desc(final(self).queries()[i as int], descriptor)
                &&& forall|k: int|
                    0 <= k < i ==> !equiv_desc(#[trigger] final(self).queries()[k], descriptor)
            },
            r is Ok && cache_has_equiv(old(self).queries(), descriptor) ==> *final(self) == *old(
                self),
            r is Ok && !cache_has_equiv(old(self).queries(), descriptor) ==> {
                &&& final(self).queries().len() == old(self).queries().len() + 1
                &&& forall|k: int|
                    0 <= k < old(self).queries().len() ==> final(self).queries()[k] == old(
                        self).queries()[k]
                &&& r matches Ok(i) && i == old(self).queries().len()
                &&& final(self).queries().last().filters() == filters_of(descriptor)
                &&& final(self).queries().last().dirty()
                &&& final(self).queries().last().cached() is None
            },
    {
        let n = self.queries.len();
        let mut i: usize = 0;
        while i < n
            invariant
                n == self.queries@.len(),
                i <= n,
                self.wf(),
                self == old(self),
                forall|k: int|
                    0 <= k < i ==> !equiv_desc(#[trigger] self.queries@[k], descriptor),
            decreases n - i,
        {
            if self.entry_equiv(i, &descriptor) {
                proof {
                    if !desc_nonempty(descriptor) {
                        lemma_no_equiv_empty(self.queries@[i as int], descriptor);
                    }
                }
                return Ok(i);
            }
            i = i + 1;
        }
        proof {
            assert(!cache_has_equiv(self.queries@, descriptor)) by {
                if cache_has_equiv(self.queries@, descriptor) {
                    let k = choose|k: int|
                        0 <= k < self.queries@.len() && equiv_desc(
                            #[trigger] self.queries@[k], descriptor);
                }
            }
        }
        match Query::new(descriptor) {
            Ok(q) => {
                proof {
                    lemma_new_query_equiv(q, descriptor);
                }
                self.queries.push(q);
                Ok(n)
            },
            Err(e) => Err(e),
        }
    }

    /// Evaluates the cached query at the given position; see `Query::execute`.
    pub(crate) fn execute_at(
        &mut self,
        i: usize,
        store: &ComponentStore,
        universe: &Vec<EntityId>,
    ) -> (r: Vec<EntityId>)
        requires
            old(self).wf(),
            i < old(self).queries().len(),
            store.wf(),
            universe@.no_duplicates(),
            forall|x: EntityId| store.entity_set().contains(x) ==> universe@.contains(x),
        ensures
            final(self).wf(),
            final(self).queries().len() == old(self).queries().len(),
            forall|k: int|
                0 <= k < final(self).queries().len() && k != i ==> final(self).queries()[k]
                    == old(self).queries()[k],
            final(self).queries()[i as int].filters() == old(self).queries()[i as int].filters(),
            !final(self).queries()[i as int].dirty(),
            final(self).queries()[i as int].cached() == Option::Some(r@),
            r@.no_duplicates(),
            (!old(self).queries()[i as int].dirty() && old(self).queries()[i as int].cached()
                is Some) ==> Option::Some(r@) == old(self).queries()[i as int].cached(),
            (old(self).queries()[i as int].dirty() || old(self).queries()[i as int].cached()
                is None) ==> r@.to_set() =~= query_set(old(self).queries()[i as int].filters(),
                *store, universe@.to_set()),
    {
        let ghost pre = self.queries@;
        let mut q = self.queries.remove(i);
        let r = q.execute(store, universe);
        let ghost gq = q;
        self.queries.insert(i, q);
        proof {
            lemma_remove_insert_update(pre, self.queries@, i as int, gq);
        }
        r
    }

    /// Marks every cached query stale; used on entity creation/destruction.
    pub fn mark_all_dirty(&mut self)
        requires
            old(self).wf(),
        ensures
            final(self).wf(),
            all_marked(old(self).queries(), final(self).queries()),
    {
        let n = self.queries.len();
        let mut i: usize = 0;
        while i < n
            invariant
                n == self.queries@.len(),
                old(self).wf(),
                i <= n,
                self.wf(),
                forall|k: int|
                    i <= k < n ==> #[trigger] self.queries@[k] == old(self).queries()[k],
                forall|k: int|
                    0 <= k < i ==> {
                        &&& (#[trigger] self.queries@[k]).filters() == old(
                            self).queries()[k].filters()
                        &&& self.queries@[k].cached() == old(self).queries()[k].cached()
                        &&& self.queries@[k].dirty()
                    },
            decreases n - i,
        {
            let ghost pre = self.queries@;
            proof {
                assert(self.queries()[i as int].wf());
            }
            let mut q = self.queries.remove(i);
            q.mark_dirty();
            let ghost gq = q;
            self.queries.insert(i, q);
            proof {
                lemma_remove_insert_update(pre, self.queries@, i as int, gq);
                assert(self.queries@ =~= pre.update(i as int, gq));
                assert(self.queries@[i as int].wf());
                assert forall|k: int| 0 <= k < n implies (#[trigger] self.queries@[k]).wf() by {
                    if k != i {
                        assert(self.queries@[k] == pre[k]);
                    }
                }
            }
            i = i + 1;
        }
    }

    /// Marks stale every cached query whose clauses mention the type; used on
    /// component addition and removal. Queries that never mention the type
    /// cannot change their result and keep their state.
    pub fn mark_dirty_for_component(&mut self, component_id: &String)
        requires
            old(self).wf(),
        ensures
            final(self).wf(),
            marked_for(old(self).queries(), final(self).queries(), component_id@),
    {
        let n = self.queries.len();
        let mut i: usize = 0;
        while i < n
            invariant
                n == self.queries@.len(),
                old(self).wf(),
                i <= n,
                self.wf(),
                forall|k: int|
                    i <= k < n ==> #[trigger] self.queries@[k] == old(self).queries()[k],
                forall|k: int|
                    0 <= k < i ==> {
                        &&& (#[trigger] self.queries@[k]).filters() == old(
                            self).queries()[k].filters()
                        &&& self.queries@[k].cached() == old(self).queries()[k].cached()
                        &&& self.queries@[k].dirty() == (old(self).queries()[k].dirty()
                            || mentions(old(self).queries()[k].filters(), component_id@))
                    },
            decreases n - i,
        {
            let touch = query_mentions(&self.queries[i], component_id);
            if touch {
                let ghost pre = self.queries@;
                proof {
                    assert(self.queries()[i as int].wf());
                }
                let mut q = self.queries.remove(i);
                q.mark_dirty();
                let ghost gq = q;
                self.queries.insert(i, q);
                proof {
                    lemma_remove_insert_update(pre, self.queries@, i as int, gq);
                    assert(self.queries@ =~= pre.update(i as int, gq));
                    assert(self.queries@[i as int].wf());
                    assert forall|k: int| 0 <= k < n implies (#[trigger] self.queries@[k]).wf()
                        by {
                        if k != i {
                            assert(self.queries@[k] == pre[k]);
                        }
                    }
                }
            }
            i = i + 1;
        }
    }

    /// Drops every cached query.
    pub fn clear(&mut self)
        ensures
            final(self).wf(),
            final(self).queries().len() == 0,
    {
        self.queries = Vec::new();
    }
}

/// A freshly compiled query is equivalent to its own descriptor.
proof fn lemma_new_query_equiv(q: Query, d: QueryDescriptor)
    requires
        q.wf(),
        q.filters() == filters_of(d),
    ensures
        equiv_desc(q, d),
{
    let fs = q.filters();
    if d.all@.len() > 0 {
        let k = choose|k: int| 0 <= k < fs.len() && fs[k] == QueryFilter::All(d.all);
        assert(fs[0] == QueryFilter::All(d.all));
        lemma_clause_at(fs, 0);
        assert(clause_ids(fs, 0) == id_views(d.all));
    } else {
        assert(!has_kind(fs, 0)) by {
            if has_kind(fs, 0) {
                let k = choose|k: int| 0 <= k < fs.len() && kind_rank(#[trigger] fs[k]) == 0;
                assert(fs[k] is All);
                assert(false);
            }
        }
        assert(clause_ids(fs, 0) =~= Seq::<Seq<char>>::empty());
        assert(id_views(d.all).len() == 0);
    }
    if d.any@.len() > 0 {
        let pos: int = if d.all@.len() > 0 { 1 } else { 0 };
        assert(fs[pos] == QueryFilter::Any(d.any));
        lemma_clause_at(fs, pos);
        assert(clause_ids(fs, 1) == id_views(d.any));
    } else {
        assert(!has_kind(fs, 1)) by {
            if has_kind(fs, 1) {
                let k = choose|k: int| 0 <= k < fs.len() && kind_rank(#[trigger] fs[k]) == 1;
                assert(fs[k] is Any);
                assert(false);
            }
        }
        assert(clause_ids(fs, 1) =~= Seq::<Seq<char>>::empty());
        assert(id_views(d.any).len() == 0);
    }
    if d.none@.len() > 0 {
        let pos: int = fs.len() - 1;
        assert(fs[pos] == QueryFilter::NoneOf(d.none));
        lemma_clause_at(fs, pos);
        assert(clause_ids(fs, 2) == id_views(d.none));
    } else {
        assert(!has_kind(fs, 2)) by {
            if has_kind(fs, 2) {
                let k = choose|k: int| 0 <= k < fs.len() && kind_rank(#[trigger] fs[k]) == 2;
                assert(fs[k] is NoneOf);
                assert(false);
            }
        }
        assert(clause_ids(fs, 2) =~= Seq::<Seq<char>>::empty());
        assert(id_views(d.none).len() == 0);
    }
}

/// Whether some clause of the query lists the identifier.
fn query_mentions(q: &Query, c: &String) -> (r: bool)
    ensures
        r == mentions(q.filters(), c@),
{
    let n = q.filters.len();
    let mut k: usize = 0;
    while k < n
        invariant
            n == q.filters@.len(),
            k <= n,
            forall|a: int, t: int|
                0 <= a < k && 0 <= t < ids_of(q.filters@[a]).len() ==> #[trigger] ids_of(
                    q.filters@[a])[t] != c@,
        decreases n - k,
    {
        let ids: &Vec<ComponentId> = match &q.filters[k] {
            QueryFilter::All(v) => v,
            QueryFilter::Any(v) => v,
            QueryFilter::NoneOf(v) => v,
        };
        proof {
            assert(ids_of(q.filters@[k as int]) == id_views(*ids));
        }
        let m = ids.len();
        let mut t: usize = 0;
        while t < m
            invariant
                m == ids@.len(),
                k < n == q.filters@.len(),
                t <= m,
                ids_of(q.filters@[k as int]) == id_views(*ids),
                forall|u: int| 0 <= u < t ==> (#[trigger] ids@[u])@ != c@,
            decreases m - t,
        {
            if ids[t] == *c {
                proof {
                    assert(ids_of(q.filters@[k as int])[t as int] == ids@[t as int]@);
                }
                return true;
            }
            t = t + 1;
        }
        proof {
            assert forall|u: int| 0 <= u < ids_of(q.filters@[k as int]).len() implies
                #[trigger] ids_of(q.filters@[k as int])[u] != c@ by {
                assert(ids_of(q.filters@[k as int])[u] == ids@[u]@);
            }
        }
        k = k + 1;
    }
    proof {
        if mentions(q.filters@, c@) {
            let (a, t) = choose|a: int, t: int|
                0 <= a < q.filters@.len() && 0 <= t < ids_of(q.filters@[a]).len()
                    && #[trigger] ids_of(q.filters@[a])[t] == c@;
            assert(false);
        }
    }
    false
}


/// The position of the clause with the given kind rank.
pub open spec fn rank_pos(filters: Seq<QueryFilter>, rank: int) -> int {
    choose|k: int| 0 <= k < filters.len() && kind_rank(#[trigger] filters[k]) == rank
}

/// A non-empty descriptor compiles to a canonical clause sequence.
pub proof fn lemma_filters_of_canonical(d: QueryDescriptor)
    requires
        desc_nonempty(d),
    ensures
        canonical(filters_of(d)),
{
    let fs = filters_of(d);
    assert forall|k: int| 0 <= k < fs.len() implies ids_of(#[trigger] fs[k]).len() > 0 by {
        assert(ids_of(QueryFilter::All(d.all)).len() == d.all@.len());
        assert(ids_of(QueryFilter::Any(d.any)).len() == d.any@.len());
        assert(ids_of(QueryFilter::NoneOf(d.none)).len() == d.none@.len());
    }
}

/// Two clauses of one kind listing the same identifier multiset accept the
/// same entities.
proof fn lemma_filter_ok_same_ids(f1: QueryFilter, f2: QueryFilter, e: EntityId, s: ComponentStore)
    requires
        kind_rank(f1) == kind_rank(f2),
        same_ids(ids_of(f1), ids_of(f2)),
    ensures
        filter_ok(f1, e, s) == filter_ok(f2, e, s),
{
    let a = ids_of(f1);
    let b = ids_of(f2);
    assert forall|y: Seq<char>| a.contains(y) == b.contains(y) by {
        lemma_id_count_zero(a, y);
        lemma_id_count_zero(b, y);
        assert(id_count(a, y) == id_count(b, y));
    }
    if kind_rank(f1) == 0 || kind_rank(f1) == 2 {
        assert forall|i: int| 0 <= i < a.len() && filter_ok(f2, e, s) implies s.has_spec(e,
            #[trigger] a[i]) == (kind_rank(f1) == 0) by {
            assert(a.contains(a[i]));
            assert(b.contains(a[i]));
            let t = choose|t: int| 0 <= t < b.len() && b[t] == a[i];
            assert(s.has_spec(e, b[t]) == (kind_rank(f1) == 0));
        }
        assert forall|i: int| 0 <= i < b.len() && filter_ok(f1, e, s) implies s.has_spec(e,
            #[trigger] b[i]) == (kind_rank(f1) == 0) by {
            assert(b.contains(b[i]));
            assert(a.contains(b[i]));
            let t = choose|t: int| 0 <= t < a.len() && a[t] == b[i];
            assert(s.has_spec(e, a[t]) == (kind_rank(f1) == 0));
        }
    } else {
        if filter_ok(f1, e, s) {
            let i = choose|i: int| 0 <= i < a.len() && s.has_spec(e, #[trigger] a[i]);
            assert(a.contains(a[i]));
            assert(b.contains(a[i]));
            let t = choose|t: int| 0 <= t < b.len() && b[t] == a[i];
            assert(s.has_spec(e, b[t]));
        }
        if filter_ok(f2, e, s) {
            let i = choose|i: int| 0 <= i < b.len() && s.has_spec(e, #[trigger] b[i]);
            assert(b.contains(b[i]));
            assert(a.contains(b[i]));
            let t = choose|t: int| 0 <= t < a.len() && a[t] == b[i];
            assert(s.has_spec(e, a[t]));
        }
    }
}

/// A canonical query accepts an entity exactly when the clause of each
/// present kind accepts it.
proof fn lemma_matches_by_rank(filters: Seq<QueryFilter>, e: EntityId, s: ComponentStore)
    requires
        canonical(filters),
    ensures
        matches_spec(filters, e, s) == ((has_kind(filters, 0) ==> filter_ok(
            filters[rank_pos(filters, 0)], e, s)) && (has_kind(filters, 1) ==> filter_ok(
            filters[rank_pos(filters, 1)], e, s)) && (has_kind(filters, 2) ==> filter_ok(
            filters[rank_pos(filters, 2)], e, s))),
{
    if (has_kind(filters, 0) ==> filter_ok(filters[rank_pos(filters, 0)], e, s)) && (has_kind(
        filters, 1) ==> filter_ok(filters[rank_pos(filters, 1)], e, s)) && (has_kind(filters, 2)
        ==> filter_ok(filters[rank_pos(filters, 2)], e, s)) {
        assert forall|k: int| 0 <= k < filters.len() implies filter_ok(
            #[trigger] filters[k], e, s) by {
            let r = kind_rank(filters[k]);
            lemma_clause_at(filters, k);
            assert(rank_pos(filters, r) == k) by {
                let j = rank_pos(filters, r);
                if j != k {
                    if j < k {
                        assert(kind_rank(filters[j]) < kind_rank(filters[k]));
                    } else {
                        assert(kind_rank(filters[k]) < kind_rank(filters[j]));
                    }
                }
            }
            assert(0 <= r <= 2);
        }
    }
    if matches_spec(filters, e, s) {
        if has_kind(filters, 0) {
            let k = rank_pos(filters, 0);
            assert(filter_ok(filters[k], e, s));
        }
        if has_kind(filters, 1) {
            let k = rank_pos(filters, 1);
            assert(filter_ok(filters[k], e, s));
        }
        if has_kind(filters, 2) {
            let k = rank_pos(filters, 2);
            assert(filter_ok(filters[k], e, s));
        }
    }
}

/// The clause of each kind, by position, in a canonical sequence.
proof fn lemma_rank_pos_clause(filters: Seq<QueryFilter>, r: int)
    requires
        canonical(filters),
        has_kind(filters, r),
    ensures
        0 <= rank_pos(filters, r) < filters.len(),
        kind_rank(filters[rank_pos(filters, r)]) == r,
        clause_ids(filters, r) == ids_of(filters[rank_pos(filters, r)]),
{
    let k = rank_pos(filters, r);
    lemma_clause_at(filters, k);
}

/// A cached query equivalent to a descriptor accepts exactly the entities
/// the descriptor's own compiled clauses accept.
pub proof fn lemma_equiv_matches(q: Query, d: QueryDescriptor, s: ComponentStore)
    requires
        q.wf(),
        desc_nonempty(d),
        equiv_desc(q, d),
    ensures
        forall|e: EntityId|
            matches_spec(q.filters(), e, s) == matches_spec(filters_of(d), e, s),
{
    let fq = q.filters();
    let fd = filters_of(d);
    lemma_filters_of_canonical(d);
    assert forall|e: EntityId|
        matches_spec(fq, e, s) == matches_spec(fd, e, s) by {
        lemma_matches_by_rank(fq, e, s);
        lemma_matches_by_rank(fd, e, s);
        assert forall|r: int| 0 <= r <= 2 implies has_kind(fq, r) == has_kind(fd, r) && (
            has_kind(fq, r) ==> filter_ok(fq[rank_pos(fq, r)], e, s) == filter_ok(
            fd[rank_pos(fd, r)], e, s)) by {
            let dlen: int = if r == 0 {
                d.all@.len() as int
            } else if r == 1 {
                d.any@.len() as int
            } else {
                d.none@.len() as int
            };
            let dviews = if r == 0 {
                id_views(d.all)
            } else if r == 1 {
                id_views(d.any)
            } else {
                id_views(d.none)
            };
            assert(same_ids(clause_ids(fq, r), dviews));
            assert(has_kind(fd, r) == (dlen > 0)) by {
                if dlen > 0 {
                    lemma_equiv_positions(d, r);
                } else {
                    if has_kind(fd, r) {
                        let k = choose|k: int|
                            0 <= k < fd.len() && kind_rank(#[trigger] fd[k]) == r;
                        lemma_clause_at(fd, k);
                        assert(ids_of(fd[k]).len() > 0);
                        lemma_fd_clause_len(d, r, k);
                    }
                }
            }
            assert(has_kind(fq, r) == (dlen > 0)) by {
                if has_kind(fq, r) {
                    lemma_rank_pos_clause(fq, r);
                    assert(clause_ids(fq, r).len() > 0);
                    assert(dviews.len() == clause_ids(fq, r).len());
                } else {
                    assert(clause_ids(fq, r) =~= Seq::<Seq<char>>::empty());
                    assert(dviews.len() == 0);
                }
            }
            if has_kind(fq, r) {
                lemma_rank_pos_clause(fq, r);
                lemma_rank_pos_clause(fd, r);
                assert(same_ids(clause_ids(fd, r), dviews)) by {
                    lemma_fd_clause(d, r);
                }
                assert(same_ids(ids_of(fq[rank_pos(fq, r)]), ids_of(fd[rank_pos(fd, r)])));
                lemma_filter_ok_same_ids(fq[rank_pos(fq, r)], fd[rank_pos(fd, r)], e, s);
            }
        }
        assert(has_kind(fq, 0) == has_kind(fd, 0));
        assert(has_kind(fq, 1) == has_kind(fd, 1));
        assert(has_kind(fq, 2) == has_kind(fd, 2));
    }
}

/// The compiled clause of each non-empty descriptor list sits in the
/// compiled sequence.
proof fn lemma_equiv_positions(d: QueryDescriptor, r: int)
    requires
        0 <= r <= 2,
        r == 0 ==> d.all@.len() > 0,
        r == 1 ==> d.any@.len() > 0,
        r == 2 ==> d.none@.len() > 0,
    ensures
        has_kind(filters_of(d), r),
{
    let fd = filters_of(d);
    if r == 0 {
        assert(fd[0] == QueryFilter::All(d.all));
        assert(kind_rank(fd[0]) == 0);
    } else if r == 1 {
        let pos: int = if d.all@.len() > 0 { 1 } else { 0 };
        assert(fd[pos] == QueryFilter::Any(d.any));
        assert(kind_rank(fd[pos]) == 1);
    } else {
        let pos: int = fd.len() - 1;
        assert(fd[pos] == QueryFilter::NoneOf(d.none));
        assert(kind_rank(fd[pos]) == 2);
    }
}

/// Clause lengths in a compiled descriptor match the descriptor's lists.
proof fn lemma_fd_clause_len(d: QueryDescriptor, r: int, k: int)
    requires
        0 <= k < filters_of(d).len(),
        kind_rank(filters_of(d)[k]) == r,
    ensures
        r == 0 ==> ids_of(filters_of(d)[k]) == id_views(d.all),
        r == 1 ==> ids_of(filters_of(d)[k]) == id_views(d.any),
        r == 2 ==> ids_of(filters_of(d)[k]) == id_views(d.none),
{
    let fd = filters_of(d);
    if r == 0 {
        assert(fd[k] == QueryFilter::All(d.all));
    } else if r == 1 {
        assert(fd[k] == QueryFilter::Any(d.any));
    } else {
        assert(fd[k] == QueryFilter::NoneOf(d.none));
    }
}

/// The clause of each kind in a compiled descriptor carries exactly the
/// descriptor's identifiers.
proof fn lemma_fd_clause(d: QueryDescriptor, r: int)
    requires
        0 <= r <= 2,
        has_kind(filters_of(d), r),
    ensures
        r == 0 ==> clause_ids(filters_of(d), r) == id_views(d.all),
        r == 1 ==> clause_ids(filters_of(d), r) == id_views(d.any),
        r == 2 ==> clause_ids(filters_of(d), r) == id_views(d.none),
{
    let fd = filters_of(d);
    let k = choose|k: int| 0 <= k < fd.len() && kind_rank(#[trigger] fd[k]) == r;
    lemma_fd_clause_len(d, r, k);
    if desc_nonempty(d) {
        lemma_filters_of_canonical(d);
        lemma_clause_at(fd, k);
    } else {
        assert(fd.len() == 0);
    }
}

/// Queries that never mention a type keep their meaning when the store
/// changes only at that type: the invalidation protocol never needs to mark
/// them.
pub proof fn lemma_matches_frame(
    filters: Seq<QueryFilter>,
    s1: ComponentStore,
    s2: ComponentStore,
    c: Seq<char>,
)
    requires
        forall|x: EntityId, y: Seq<char>|
            y != c ==> #[trigger] s2.has_spec(x, y) == s1.has_spec(x, y),
        !mentions(filters, c),
    ensures
        forall|e: EntityId|
            #[trigger] matches_spec(filters, e, s2) == matches_spec(filters, e, s1),
{
    assert forall|e: EntityId|
        #[trigger] matches_spec(filters, e, s2) == matches_spec(filters, e, s1) by {
        assert forall|k: int| 0 <= k < filters.len() implies filter_ok(
            #[trigger] filters[k], e, s2) == filter_ok(filters[k], e, s1) by {
            assert forall|t: int| 0 <= t < ids_of(filters[k]).len() implies s2.has_spec(e,
                #[trigger] ids_of(filters[k])[t]) == s1.has_spec(e, ids_of(filters[k])[t]) by {
                if ids_of(filters[k])[t] == c {
                    assert(mentions(filters, c));
                }
            }
            match filters[k] {
                QueryFilter::All(_) => {},
                QueryFilter::Any(_) => {
                    if filter_ok(filters[k], e, s2) {
                        let i = choose|i: int|
                            0 <= i < ids_of(filters[k]).len() && s2.has_spec(e,
                            #[trigger] ids_of(filters[k])[i]);
                        assert(s1.has_spec(e, ids_of(filters[k])[i]));
                    }
                    if filter_ok(filters[k], e, s1) {
                        let i = choose|i: int|
                            0 <= i < ids_of(filters[k]).len() && s1.has_spec(e,
                            #[trigger] ids_of(filters[k])[i]);
                        assert(s2.has_spec(e, ids_of(filters[k])[i]));
                    }
                },
                QueryFilter::NoneOf(_) => {},
            }
        }
        if matches_spec(filters, e, s2) {
            assert forall|k: int| 0 <= k < filters.len() implies filter_ok(
                #[trigger] filters[k], e, s1) by {}
        }
        if matches_spec(filters, e, s1) {
            assert forall|k: int| 0 <= k < filters.len() implies filter_ok(
                #[trigger] filters[k], e, s2) by {}
        }
    }
}

} // verus!
