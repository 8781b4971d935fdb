use vstd::prelude::*;
use crate::entity::EntityId;
use crate::value::{value_eq, Value};

verus! {

/// Identifier of a component type: a caller-assigned, stable string tag.
pub type ComponentId = String;

/// A typed data payload attached to an entity: a stable type identifier plus
/// a structured value. An entity may hold many components of one type.
#[derive(Debug)]
pub struct Component {
    pub id: ComponentId,
    pub data: Value,
}

/// Structural equality of two components: same type identifier, same payload.
pub open spec fn comp_eq(a: Component, b: Component) -> bool {
    a.id@ == b.id@ && value_eq(a.data, b.data)
}

impl Component {
    pub fn new(id: ComponentId, data: Value) -> (c: Component)
        ensures
            c.id == id,
            c.data == data,
    {
        Component { id, data }
    }

    /// The stable type identifier of this component.
    pub fn component_id(&self) -> (r: ComponentId)
        ensures
            r == self.id,
    {
        self.id.clone()
    }

    /// A structurally equal copy.
    pub fn duplicate(&self) -> (r: Component)
        ensures
            r.id == self.id,
            value_eq(r.data, self.data),
            comp_eq(r, *self),
    {
        Component { id: self.id.clone(), data: self.data.duplicate() }
    }

    /// The generic value representation consumed by snapshot collaborators.
    pub fn to_value(&self) -> (r: Value)
        ensures
            value_eq(r, self.data),
    {
        self.data.duplicate()
    }
}

/// One forward entry: the ordered instances of one component type on one entity.
struct Row {
    entity: EntityId,
    cid: ComponentId,
    items: Vec<Component>,
}

/// One reverse entry: the entities holding at least one instance of one type.
struct IndexRow {
    cid: ComponentId,
    entities: Vec<EntityId>,
}

spec fn rows_has(rows: Seq<Row>, e: EntityId, c: Seq<char>) -> bool {
    exists|i: int| 0 <= i < rows.len() && rows[i].entity == e && rows[i].cid@ == c
}

spec fn rows_index_of(rows: Seq<Row>, e: EntityId, c: Seq<char>) -> int {
    choose|i: int| 0 <= i < rows.len() && rows[i].entity == e && rows[i].cid@ == c
}

spec fn rows_items(rows: Seq<Row>, e: EntityId, c: Seq<char>) -> Seq<Component> {
    if rows_has(rows, e, c) {
        rows[rows_index_of(rows, e, c)].items@
    } else {
        Seq::empty()
    }
}

spec fn rows_keys_unique(rows: Seq<Row>) -> bool {
    forall|i: int, j: int|
        0 <= i < j < rows.len() ==> !(rows[i].entity == rows[j].entity && rows[i].cid@
            == rows[j].cid@)
}

/// The ordered concatenation of every instance list of one entity, in row order.
spec fn rows_all_items(rows: Seq<Row>, e: EntityId) -> Seq<Component>
    decreases rows.len(),
{
    if rows.len() == 0 {
        Seq::empty()
    } else {
        rows_all_items(rows.drop_last(), e) + if rows.last().entity == e {
            rows.last().items@
        } else {
            Seq::empty()
        }
    }
}

spec fn idx_has(ix: Seq<IndexRow>, c: Seq<char>) -> bool {
    exists|i: int| 0 <= i < ix.len() && ix[i].cid@ == c
}

spec fn idx_index_of(ix: Seq<IndexRow>, c: Seq<char>) -> int {
    choose|i: int| 0 <= i < ix.len() && ix[i].cid@ == c
}

spec fn idx_entities(ix: Seq<IndexRow>, c: Seq<char>) -> Seq<EntityId> {
    if idx_has(ix, c) {
        ix[idx_index_of(ix, c)].entities@
    } else {
        Seq::empty()
    }
}

/// Holds, per entity, the ordered lists of component instances by type, and a
/// reverse index from type to holding entities. Both structures are updated
/// together under every mutation; their bidirectional consistency is the
/// store's well-formedness invariant.
pub struct ComponentStore {
    rows: Vec<Row>,
    index: Vec<IndexRow>,
}

impl ComponentStore {
    /// Whether the entity holds at least one instance of the type.
    pub closed spec fn has_spec(self, e: EntityId, c: Seq<char>) -> bool {
        rows_has(self.rows@, e, c)
    }

    /// The ordered instance list of one type on one entity.
    pub closed spec fn items_spec(self, e: EntityId, c: Seq<char>) -> Seq<Component> {
        rows_items(self.rows@, e, c)
    }

    /// Every instance of every type on one entity, in the store's row order.
    pub closed spec fn all_items(self, e: EntityId) -> Seq<Component> {
        rows_all_items(self.rows@, e)
    }

    /// The entities holding at least one component of any type.
    pub open spec fn entity_set(self) -> Set<EntityId> {
        Set::new(|e: EntityId| exists|c: Seq<char>| self.has_spec(e, c))
    }

    /// The entities holding at least one instance of the type.
    pub open spec fn holders(self, c: Seq<char>) -> Set<EntityId> {
        Set::new(|e: EntityId| self.has_spec(e, c))
    }

    /// Number of (entity, type) pairs present; destruction uses it as a measure.
    pub closed spec fn row_count(self) -> nat {
        self.rows@.len()
    }

    /// Bidirectional consistency of the forward map and the reverse index:
    /// every listed pair appears on both sides, keys are unique, no list and
    /// no index set is ever empty.
    pub closed spec fn wf(self) -> bool {
        store_inv(self.rows@, self.index@)
    }

    pub fn new() -> (r: ComponentStore)
        ensures
            r.wf(),
            forall|e: EntityId, c: Seq<char>| !r.has_spec(e, c),
            r.row_count() == 0,
    {
        ComponentStore { rows: Vec::new(), index: Vec::new() }
    }

    fn find_row(&self, e: EntityId, c: &String) -> (r: Option<usize>)
        ensures
            match r {
                Some(i) => 0 <= i < self.rows@.len() && self.rows@[i as int].entity == e
                    && self.rows@[i as int].cid@ == c@,
                None => !self.has_spec(e, c@),
            },
    {
        let n = self.rows.len();
        let mut i: usize = 0;
        while i < n
            invariant
                n == self.rows@.len(),
                i <= n,
                forall|k: int|
                    0 <= k < i ==> !((#[trigger] self.rows@[k]).entity == e && self.rows@[k].cid@
                        == c@),
            decreases n - i,
        {
            let row = &self.rows[i];
            if row.entity == e && row.cid == *c {
                return Some(i);
            }
            i = i + 1;
        }
        None
    }

    /// Any row of this entity, if one exists.
    fn find_row_of_entity(&self, e: EntityId) -> (r: Option<usize>)
        ensures
            match r {
                Some(i) => 0 <= i < self.rows@.len() && self.rows@[i as int].entity == e,
                None => forall|c: Seq<char>| !self.has_spec(e, c),
            },
    {
        let n = self.rows.len();
        let mut i: usize = 0;
        while i < n
            invariant
                n == self.rows@.len(),
                i <= n,
                forall|k: int| 0 <= k < i ==> (#[trigger] self.rows@[k]).entity != e,
            decreases n - i,
        {
            if self.rows[i].entity == e {
                return Some(i);
            }
            i = i + 1;
        }
        None
    }

    fn find_idx(&self, c: &String) -> (r: Option<usize>)
        ensures
            match r {
                Some(i) => 0 <= i < self.index@.len() && self.index@[i as int].cid@ == c@,
                None => !idx_has(self.index@, c@),
            },
    {
        let n = self.index.len();
        let mut i: usize = 0;
        while i < n
            invariant
                n == self.index@.len(),
                i <= n,
                forall|k: int| 0 <= k < i ==> (#[trigger] self.index@[k]).cid@ != c@,
            decreases n - i,
        {
            if self.index[i].cid == *c {
                return Some(i);
            }
            i = i + 1;
        }
        None
    }

    /// Appends the component to the (entity, type) list, creating entries as
    /// needed, and records the entity in the type's reverse-index set. Never
    /// deduplicates instances of one type.
    pub fn add(&mut self, entity_id: EntityId, component: Component)
        requires
            old(self).wf(),
        ensures
            final(self).wf(),
            forall|x: EntityId, c: Seq<char>|
                final(self).has_spec(x, c) == (old(self).has_spec(x, c) || (x == entity_id && c
                    == component.id@)),
            final(self).items_spec(entity_id, component.id@) =~= old(self).items_spec(entity_id,
                component.id@).push(component),
            forall|x: EntityId, c: Seq<char>|
                !(x == entity_id && c == component.id@) ==> final(self).items_spec(x, c)
                    =~= old(self).items_spec(x, c),
    {
        let ghost pre = self.rows@;
        let ghost pre_ix = self.index@;
        let ghost c = component.id@;
        let cid_str = component.id.clone();
        match self.find_row(entity_id, &cid_str) {
            Some(i) => {
                proof {
                    lemma_rows_witness(pre, i as int);
                    lemma_rows_at(pre, i as int);
                }
                let mut row = self.rows.remove(i);
                row.items.push(component);
                self.rows.insert(i, row);
                proof {
                    assert(forall|k: int|
                        0 <= k < pre.len() && k != i ==> self.rows@[k] == pre[k]);
                    lemma_rows_update_model(pre, self.rows@, i as int);
                    assert(self.rows@[i as int].items@ =~= pre[i as int].items@.push(component));
                    assert(rows_items(self.rows@, entity_id, c) =~= rows_items(pre, entity_id,
                        c).push(component));
                    assert forall|x: EntityId, y: Seq<char>|
                        rows_has(self.rows@, x, y) == (rows_has(pre, x, y) || (x == entity_id && y
                            == c)) by {
                        if x == entity_id && y == c {
                            assert(rows_has(pre, x, y));
                        }
                    }
                    assert forall|k: int| 0 <= k < self.rows@.len() implies
                        (#[trigger] self.rows@[k]).items@.len() > 0 by {
                        if k != i {
                            assert(self.rows@[k] == pre[k]);
                        }
                    }
                }
            },
            None => {
                let mut items: Vec<Component> = Vec::new();
                items.push(component);
                self.rows.push(Row { entity: entity_id, cid: cid_str.clone(), items });
                proof {
                    lemma_rows_push_model(pre, self.rows@, entity_id, c);
                    assert(rows_items(pre, entity_id, c) =~= Seq::<Component>::empty());
                    assert(rows_items(self.rows@, entity_id, c) =~= rows_items(pre, entity_id,
                        c).push(component));
                    assert forall|k: int| 0 <= k < self.rows@.len() implies
                        (#[trigger] self.rows@[k]).items@.len() > 0 by {
                        if k < pre.len() {
                            assert(self.rows@[k] == pre[k]);
                        }
                    }
                }
            },
        }
        proof {
            assert(rows_keys_unique(self.rows@));
            assert(rows_has(self.rows@, entity_id, c));
        }
        match self.find_idx(&cid_str) {
            Some(j) => {
                if !vec_contains_id(&self.index[j].entities, entity_id) {
                    proof {
                        lemma_idx_witness(pre_ix, j as int);
                        lemma_idx_at(pre_ix, j as int);
                    }
                    let mut ir = self.index.remove(j);
                    ir.entities.push(entity_id);
                    self.index.insert(j, ir);
                    proof {
                        assert(forall|k: int|
                            0 <= k < pre_ix.len() && k != j ==> self.index@[k] == pre_ix[k]);
                        lemma_idx_update_model(pre_ix, self.index@, j as int);
                        assert(self.index@[j as int].entities@ =~= pre_ix[j as int].entities@.push(
                            entity_id));
                        lemma_push_contains(pre_ix[j as int].entities@, entity_id);
                        lemma_push_nodup(pre_ix[j as int].entities@, entity_id);
                        assert forall|y: Seq<char>, x: EntityId|
                            idx_entities(self.index@, y).contains(x) == (idx_entities(pre_ix,
                            y).contains(x) || (y == c && x == entity_id)) by {
                            if y == c {
                                assert(idx_entities(self.index@, y)
                                    == self.index@[j as int].entities@);
                                assert(idx_entities(pre_ix, y) == pre_ix[j as int].entities@);
                            }
                        }
                        assert forall|k: int| 0 <= k < self.index@.len() implies
                            (#[trigger] self.index@[k].entities@).no_duplicates() by {
                            if k != j {
                                assert(self.index@[k] == pre_ix[k]);
                            }
                        }
                        assert forall|k: int| 0 <= k < self.index@.len() implies
                            (#[trigger] self.index@[k]).entities@.len() > 0 by {
                            if k != j {
                                assert(self.index@[k] == pre_ix[k]);
                            }
                        }
                    }
                } else {
                    proof {
                        lemma_idx_witness(pre_ix, j as int);
                        lemma_idx_at(pre_ix, j as int);
                        assert(idx_entities(pre_ix, c).contains(entity_id));
                        assert(self.index@ == pre_ix);
                        assert forall|y: Seq<char>, x: EntityId|
                            idx_entities(self.index@, y).contains(x) == (idx_entities(pre_ix,
                            y).contains(x) || (y == c && x == entity_id)) by {
                            assert(idx_entities(self.index@, y) == idx_entities(pre_ix, y));
                            if y == c && x == entity_id {
                                assert(idx_entities(pre_ix, y).contains(x));
                            }
                        }
                    }
                }
            },
            None => {
                let mut es: Vec<EntityId> = Vec::new();
                es.push(entity_id);
                self.index.push(IndexRow { cid: cid_str, entities: es });
                proof {
                    lemma_idx_push_model(pre_ix, self.index@, c);
                    assert(self.index@[pre_ix.len() as int].entities@ =~= Seq::<
                        EntityId>::empty().push(entity_id));
                    lemma_push_contains(Seq::<EntityId>::empty(), entity_id);
                    assert forall|y: Seq<char>, x: EntityId|
                        idx_entities(self.index@, y).contains(x) == (idx_entities(pre_ix,
                        y).contains(x) || (y == c && x == entity_id)) by {
                        if y == c {
                            assert(idx_entities(pre_ix, y) =~= Seq::<EntityId>::empty());
                            assert(!idx_entities(pre_ix, y).contains(x));
                            assert(idx_entities(self.index@, y)
                                == self.index@[pre_ix.len() as int].entities@);
                            assert(idx_entities(self.index@, y).contains(x) == (x == entity_id));
                        }
                    }
                    assert forall|k: int| 0 <= k < self.index@.len() implies
                        (#[trigger] self.index@[k].entities@).no_duplicates() by {
                        if k < pre_ix.len() {
                            assert(self.index@[k] == pre_ix[k]);
                        }
                    }
                    assert forall|k: int| 0 <= k < self.index@.len() implies
                        (#[trigger] self.index@[k]).entities@.len() > 0 by {
                        if k < pre_ix.len() {
                            assert(self.index@[k] == pre_ix[k]);
                        }
                    }
                }
            },
        }
        proof {
            lemma_add_wf(pre, self.rows@, pre_ix, self.index@, entity_id, c);
        }
    }

    /// Presence check for one (entity, type) pair.
    pub fn has(&self, entity_id: EntityId, component_id: &String) -> (r: bool)
        ensures
            r == self.has_spec(entity_id, component_id@),
    {
        match self.find_row(entity_id, component_id) {
            Some(i) => {
                proof {
                    lemma_rows_witness(self.rows@, i as int);
                }
                true
            },
            None => false,
        }
    }

    /// The first instance of the type on the entity, if any.
    pub fn get(&self, entity_id: EntityId, component_id: &String) -> (r: Option<&Component>)
        requires
            self.wf(),
        ensures
            match r {
                Some(c) => self.has_spec(entity_id, component_id@) && *c == self.items_spec(
                    entity_id, component_id@)[0],
                None => !self.has_spec(entity_id, component_id@),
            },
    {
        match self.find_row(entity_id, component_id) {
            Some(i) => {
                proof {
                    lemma_rows_at(self.rows@, i as int);
                }
                let row = &self.rows[i];
                Some(&row.items[0])
            },
            None => None,
        }
    }

    /// Every instance of the type on the entity, in insertion order.
    pub fn get_all_by_type(&self, entity_id: EntityId, component_id: &String) -> (r: Vec<
        &Component>)
        requires
            self.wf(),
        ensures
            r@.len() == self.items_spec(entity_id, component_id@).len(),
            forall|k: int|
                0 <= k < r@.len() ==> *(#[trigger] r@[k]) == self.items_spec(entity_id,
                    component_id@)[k],
    {
        let mut out: Vec<&Component> = Vec::new();
        match self.find_row(entity_id, component_id) {
            Some(i) => {
                proof {
                    lemma_rows_at(self.rows@, i as int);
                }
                let row = &self.rows[i];
                let n = row.items.len();
                let mut k: usize = 0;
                while k < n
                    invariant
                        n == row.items@.len(),
                        k <= n,
                        out@.len() == k,
                        forall|t: int| 0 <= t < k ==> *(#[trigger] out@[t]) == row.items@[t],
                    decreases n - k,
                {
                    out.push(&row.items[k]);
                    k = k + 1;
                }
                out
            },
            None => out,
        }
    }

    /// Every instance of every type on the entity, in the store's row order.
    pub fn get_all(&self, entity_id: EntityId) -> (r: Vec<&Component>)
        ensures
            r@.len() == self.all_items(entity_id).len(),
            forall|k: int|
                0 <= k < r@.len() ==> *(#[trigger] r@[k]) == self.all_items(entity_id)[k],
    {
        let mut out: Vec<&Component> = Vec::new();
        let n = self.rows.len();
        let mut i: usize = 0;
        while i < n
            invariant
                n == self.rows@.len(),
                i <= n,
                out@.len() == rows_all_items(self.rows@.take(i as int), entity_id).len(),
                forall|t: int|
                    0 <= t < out@.len() ==> *(#[trigger] out@[t]) == rows_all_items(
                        self.rows@.take(i as int), entity_id)[t],
            decreases n - i,
        {
            let row = &self.rows[i];
            if row.entity == entity_id {
                let m = row.items.len();
                let mut k: usize = 0;
                while k < m
                    invariant
                        m == row.items@.len(),
                        k <= m,
                        out@.len() == rows_all_items(self.rows@.take(i as int), entity_id).len()
                            + k,
                        forall|t: int|
                            0 <= t < rows_all_items(self.rows@.take(i as int), entity_id).len()
                                ==> *(#[trigger] out@[t]) == rows_all_items(self.rows@.take(
                                i as int), entity_id)[t],
                        forall|t: int|
                            0 <= t < k ==> *(#[trigger] out@[rows_all_items(self.rows@.take(
                                i as int), entity_id).len() + t]) == row.items@[t],
                        row == self.rows@[i as int],
                        i < n,
                        n == self.rows@.len(),
                    decreases m - k,
                {
                    out.push(&row.items[k]);
                    k = k + 1;
                }
            }
            proof {
                lemma_rows_all_items_step(self.rows@, i as int, entity_id);
                let before = rows_all_items(self.rows@.take(i as int), entity_id);
                let after = rows_all_items(self.rows@.take(i as int + 1), entity_id);
                if self.rows@[i as int].entity == entity_id {
                    assert(after =~= before + self.rows@[i as int].items@);
                    assert forall|t: int| 0 <= t < out@.len() implies *(#[trigger] out@[t])
                        == after[t] by {
                        if t < before.len() {
                            assert(after[t] == before[t]);
                        } else {
                            assert(after[t] == self.rows@[i as int].items@[t - before.len()]);
                            assert(*out@[before.len() + (t - before.len())]
                                == self.rows@[i as int].items@[t - before.len()]);
                        }
                    }
                } else {
                    assert(after =~= before + Seq::<Component>::empty());
                    assert(after =~= before);
                }
            }
            i = i + 1;
        }
        proof {
            assert(self.rows@.take(n as int) =~= self.rows@);
        }
        out
    }

    /// The entities holding at least one instance of the type; empty for an
    /// unknown type.
    pub fn get_entities_with_component(&self, component_id: &String) -> (r: Vec<EntityId>)
        requires
            self.wf(),
        ensures
            r@.no_duplicates(),
            forall|x: EntityId| r@.contains(x) == self.has_spec(x, component_id@),
    {
        match self.find_idx(component_id) {
            Some(j) => {
                proof {
                    lemma_idx_at(self.index@, j as int);
                }
                let ir = &self.index[j];
                let n = ir.entities.len();
                let mut out: Vec<EntityId> = Vec::new();
                let mut k: usize = 0;
                while k < n
                    invariant
                        n == ir.entities@.len(),
                        k <= n,
                        out@ =~= ir.entities@.take(k as int),
                    decreases n - k,
                {
                    out.push(ir.entities[k]);
                    k = k + 1;
                }
                proof {
                    assert(out@ =~= ir.entities@);
                    assert forall|x: EntityId| out@.contains(x) implies self.has_spec(x,
                        component_id@) by {
                        let t = choose|t: int| 0 <= t < out@.len() && out@[t] == x;
                        assert(rows_has(self.rows@, self.index@[j as int].entities@[t],
                            self.index@[j as int].cid@));
                    }
                    assert forall|x: EntityId| self.has_spec(x, component_id@) implies
                        out@.contains(x) by {
                        let t = choose|t: int|
                            0 <= t < self.rows@.len() && self.rows@[t].entity == x
                                && self.rows@[t].cid@ == component_id@;
                        assert(idx_has(self.index@, self.rows@[t].cid@));
                        assert(idx_entities(self.index@, self.rows@[t].cid@).contains(x));
                        assert(idx_index_of(self.index@, self.rows@[t].cid@) == j as int);
                    }
                }
                out
            },
            None => {
                let out: Vec<EntityId> = Vec::new();
                proof {
                    assert forall|x: EntityId| !self.has_spec(x, component_id@) by {
                        if self.has_spec(x, component_id@) {
                            let t = choose|t: int|
                                0 <= t < self.rows@.len() && self.rows@[t].entity == x
                                    && self.rows@[t].cid@ == component_id@;
                            assert(idx_has(self.index@, self.rows@[t].cid@));
                        }
                    }
                }
                out
            },
        }
    }

    /// Drops the whole instance list of one type from one entity and removes
    /// the entity from that type's reverse-index set, pruning an emptied set.
    /// Reports whether anything was removed.
    pub fn remove(&mut self, entity_id: EntityId, component_id: &String) -> (r: bool)
        requires
            old(self).wf(),
        ensures
            final(self).wf(),
            r == old(self).has_spec(entity_id, component_id@),
            forall|x: EntityId, c: Seq<char>|
                final(self).has_spec(x, c) == (old(self).has_spec(x, c) && !(x == entity_id && c
                    == component_id@)),
            forall|x: EntityId, c: Seq<char>|
                !(x == entity_id && c == component_id@) ==> final(self).items_spec(x, c)
                    =~= old(self).items_spec(x, c),
            !r ==> *final(self) == *old(self),
            !r ==> final(self).row_count() == old(self).row_count(),
            r ==> final(self).row_count() == old(self).row_count() - 1,
            forall|x: EntityId|
                final(self).entity_set().contains(x) ==> old(self).entity_set().contains(x),
    {
        let ghost pre = self.rows@;
        let ghost pre_ix = self.index@;
        let ghost c = component_id@;
        match self.find_row(entity_id, component_id) {
            Some(i) => {
                proof {
                    lemma_rows_witness(pre, i as int);
                    lemma_rows_at(pre, i as int);
                }
                self.rows.remove(i);
                proof {
                    lemma_rows_remove_model(pre, self.rows@, i as int);
                    pre.remove_ensures(i as int);
                    assert forall|k: int| 0 <= k < self.rows@.len() implies exists|t: int|
                        0 <= t < pre.len() && #[trigger] self.rows@[k] == pre[t] by {
                        if k < i {
                            assert(self.rows@[k] == pre[k]);
                        } else {
                            assert(self.rows@[k] == pre[k + 1]);
                        }
                    }
                }
                match self.find_idx(component_id) {
                    Some(j) => {
                        proof {
                            lemma_idx_witness(pre_ix, j as int);
                            lemma_idx_at(pre_ix, j as int);
                            assert(idx_entities(pre_ix, c).contains(entity_id));
                        }
                        let mut ir = self.index.remove(j);
                        let ghost pre_entities = ir.entities@;
                        let mut removed_pos: usize = 0;
                        match find_id_pos(&ir.entities, entity_id) {
                            Some(p) => {
                                ir.entities.remove(p);
                                removed_pos = p;
                                proof {
                                    lemma_id_seq_remove(pre_entities, p as int);
                                }
                            },
                            None => {
                                proof {
                                    assert(false);
                                }
                            },
                        }
                        proof {
                            assert forall|z: EntityId| ir.entities@.contains(z)
                                == (pre_entities.contains(z) && z != entity_id) by {}
                            assert(ir.entities@.no_duplicates());
                        }
                        if ir.entities.len() > 0 {
                            self.index.insert(j, ir);
                            proof {
                                assert(forall|k: int|
                                    0 <= k < pre_ix.len() && k != j ==> self.index@[k]
                                        == pre_ix[k]);
                                assert(self.index@[j as int].cid@ == pre_ix[j as int].cid@);
                                lemma_idx_update_model(pre_ix, self.index@, j as int);
                                assert forall|y: Seq<char>, x: EntityId|
                                    idx_entities(self.index@, y).contains(x) == (idx_entities(
                                    pre_ix, y).contains(x) && !(y == c && x == entity_id)) by {
                                    if y == c {
                                        assert(idx_entities(self.index@, y)
                                            == self.index@[j as int].entities@);
                                        assert(idx_entities(pre_ix, y) == pre_entities);
                                    }
                                }
                                assert forall|k: int| 0 <= k < self.index@.len() implies
                                    (#[trigger] self.index@[k].entities@).no_duplicates() by {
                                    if k != j {
                                        assert(self.index@[k] == pre_ix[k]);
                                    }
                                }
                                assert forall|k: int| 0 <= k < self.index@.len() implies
                                    (#[trigger] self.index@[k]).entities@.len() > 0 by {
                                    if k != j {
                                        assert(self.index@[k] == pre_ix[k]);
                                    }
                                }
                            }
                        } else {
                            proof {
                                lemma_idx_remove_model(pre_ix, self.index@, j as int);
                                assert forall|y: Seq<char>, x: EntityId|
                                    idx_entities(self.index@, y).contains(x) == (idx_entities(
                                    pre_ix, y).contains(x) && !(y == c && x == entity_id)) by {
                                    if y == c {
                                        assert(!idx_has(self.index@, y));
                                        assert(idx_entities(self.index@, y) =~= Seq::<
                                            EntityId>::empty());
                                        if idx_entities(pre_ix, y).contains(x) && x != entity_id {
                                            assert(pre_entities.contains(x));
                                            assert(ir.entities@.contains(x));
                                        }
                                    } else {
                                        assert(idx_entities(self.index@, y) =~= idx_entities(
                                            pre_ix, y));
                                    }
                                }
                                assert forall|k: int| 0 <= k < self.index@.len() implies
                                    (#[trigger] self.index@[k].entities@).no_duplicates()
                                    && (#[trigger] self.index@[k]).entities@.len() > 0 by {
                                    pre_ix.remove_ensures(j as int);
                                    if k < j {
                                        assert(self.index@[k] == pre_ix[k]);
                                    } else {
                                        assert(self.index@[k] == pre_ix[k + 1]);
                                    }
                                }
                            }
                        }
                    },
                    None => {
                        proof {
                            assert(idx_has(pre_ix, pre[i as int].cid@));
                            assert(false);
                        }
                    },
                }
                proof {
                    lemma_remove_wf(pre, self.rows@, pre_ix, self.index@, entity_id, c);
                    assert forall|x: EntityId|
                        self.entity_set().contains(x) implies old(self).entity_set().contains(
                        x) by {
                        let y = choose|y: Seq<char>| self.has_spec(x, y);
                        assert(rows_has(pre, x, y));
                        assert(old(self).has_spec(x, y));
                        assert(exists|cc: Seq<char>| old(self).has_spec(x, cc));
                    }
                }
                true
            },
            None => false,
        }
    }

    /// Removes the entity from every list and every reverse-index set it
    /// participates in; used by entity destruction.
    pub fn remove_all_components(&mut self, entity_id: EntityId)
        requires
            old(self).wf(),
        ensures
            final(self).wf(),
            forall|c: Seq<char>| !final(self).has_spec(entity_id, c),
            forall|x: EntityId, c: Seq<char>|
                x != entity_id ==> final(self).has_spec(x, c) == old(self).has_spec(x, c),
            forall|x: EntityId, c: Seq<char>|
                x != entity_id ==> final(self).items_spec(x, c) =~= old(self).items_spec(x, c),
            forall|x: EntityId|
                final(self).entity_set().contains(x) ==> old(self).entity_set().contains(x),
    {
        loop
            invariant
                self.wf(),
                forall|x: EntityId, c: Seq<char>|
                    x != entity_id ==> self.has_spec(x, c) == old(self).has_spec(x, c),
                forall|x: EntityId, c: Seq<char>|
                    x != entity_id ==> self.items_spec(x, c) =~= old(self).items_spec(x, c),
                forall|x: EntityId|
                    self.entity_set().contains(x) ==> old(self).entity_set().contains(x),
            decreases self.row_count(),
        {
            match self.find_row_of_entity(entity_id) {
                Some(i) => {
                    let cid = self.rows[i].cid.clone();
                    proof {
                        lemma_rows_witness(self.rows@, i as int);
                    }
                    self.remove(entity_id, &cid);
                },
                None => {
                    proof {
                        assert forall|c: Seq<char>| !self.has_spec(entity_id, c) by {
                            if self.has_spec(entity_id, c) {
                                let t = choose|t: int|
                                    0 <= t < self.rows@.len() && self.rows@[t].entity == entity_id
                                        && self.rows@[t].cid@ == c;
                            }
                        }
                    }
                    return ;
                },
            }
        }
    }

    /// Drops all state.
    pub fn clear(&mut self)
        ensures
            final(self).wf(),
            forall|e: EntityId, c: Seq<char>| !final(self).has_spec(e, c),
            final(self).row_count() == 0,
    {
        self.rows = Vec::new();
        self.index = Vec::new();
    }

    /// The entities holding at least one component, without duplicates.
    pub fn get_all_entities(&self) -> (r: Vec<EntityId>)
        ensures
            r@.no_duplicates(),
            forall|x: EntityId| r@.contains(x) == self.entity_set().contains(x),
    {
        let n = self.rows.len();
        let mut out: Vec<EntityId> = Vec::new();
        let mut i: usize = 0;
        while i < n
            invariant
                n == self.rows@.len(),
                i <= n,
                out@.no_duplicates(),
                forall|x: EntityId|
                    out@.contains(x) == exists|t: int|
                        0 <= t < i && (#[trigger] self.rows@[t]).entity == x,
            decreases n - i,
        {
            let e = self.rows[i].entity;
            let ghost pre_out = out@;
            if !vec_contains_id(&out, e) {
                out.push(e);
                proof {
                    lemma_push_contains(pre_out, e);
                    lemma_push_nodup(pre_out, e);
                    assert forall|x: EntityId|
                        out@.contains(x) == exists|t: int|
                            0 <= t < i + 1 && (#[trigger] self.rows@[t]).entity == x by {
                        if out@.contains(x) {
                            if x == e {
                                assert(self.rows@[i as int].entity == x);
                            } else {
                                assert(pre_out.contains(x));
                                let t = choose|t: int|
                                    0 <= t < i && (#[trigger] self.rows@[t]).entity == x;
                            }
                        }
                        if exists|t: int| 0 <= t < i + 1 && (#[trigger] self.rows@[t]).entity
                            == x {
                            let t = choose|t: int|
                                0 <= t < i + 1 && (#[trigger] self.rows@[t]).entity == x;
                            if t < i {
                                assert(pre_out.contains(x));
                            } else {
                                assert(x == e);
                            }
                            assert(out@.contains(x));
                        }
                    }
                }
            } else {
                proof {
                    assert forall|x: EntityId|
                        out@.contains(x) == exists|t: int|
                            0 <= t < i + 1 && (#[trigger] self.rows@[t]).entity == x by {
                        if out@.contains(x) {
                            let t = choose|t: int|
                                0 <= t < i && (#[trigger] self.rows@[t]).entity == x;
                            assert(0 <= t < i + 1 && self.rows@[t].entity == x);
                        }
                        if exists|t: int| 0 <= t < i + 1 && (#[trigger] self.rows@[t]).entity
                            == x {
                            let t = choose|t: int|
                                0 <= t < i + 1 && (#[trigger] self.rows@[t]).entity == x;
                            if t == i {
                                assert(x == e);
                                assert(out@.contains(x));
                            }
                        }
                    }
                }
            }
            i = i + 1;
        }
        proof {
            assert forall|x: EntityId| out@.contains(x) == self.entity_set().contains(x) by {
                if self.entity_set().contains(x) {
                    let c = choose|c: Seq<char>| self.has_spec(x, c);
                    let t = choose|t: int|
                        0 <= t < self.rows@.len() && self.rows@[t].entity == x && self.rows@[t].cid@
                            == c;
                    assert(0 <= t < n && self.rows@[t].entity == x);
                }
                if out@.contains(x) {
                    let t = choose|t: int|
                        0 <= t < n && (#[trigger] self.rows@[t]).entity == x;
                    assert(rows_has(self.rows@, x, self.rows@[t].cid@));
                    assert(self.has_spec(x, self.rows@[t].cid@));
                    assert(exists|cc: Seq<char>| self.has_spec(x, cc));
                }
            }
        }
        out
    }
}

/// Whether the identifier occurs in the vector.
pub(crate) fn vec_contains_id(v: &Vec<EntityId>, e: EntityId) -> (r: bool)
    ensures
        r == v@.contains(e),
{
    let n = v.len();
    let mut i: usize = 0;
    while i < n
        invariant
            n == v@.len(),
            i <= n,
            forall|k: int| 0 <= k < i ==> v@[k] != e,
        decreases n - i,
    {
        if v[i] == e {
            proof {
                assert(v@[i as int] == e);
            }
            return true;
        }
        i = i + 1;
    }
    false
}

/// The position of the identifier in the vector, if present.
fn find_id_pos(v: &Vec<EntityId>, e: EntityId) -> (r: Option<usize>)
    ensures
        match r {
            Some(i) => 0 <= i < v@.len() && v@[i as int] == e,
            None => !v@.contains(e),
        },
{
    let n = v.len();
    let mut i: usize = 0;
    while i < n
        invariant
            n == v@.len(),
            i <= n,
            forall|k: int| 0 <= k < i ==> v@[k] != e,
        decreases n - i,
    {
        if v[i] == e {
            return Some(i);
        }
        i = i + 1;
    }
    None
}

/// A type an entity does not hold has an empty instance list.
pub proof fn lemma_absent_items_empty(s: ComponentStore, e: EntityId, c: Seq<char>)
    requires
        !s.has_spec(e, c),
    ensures
        s.items_spec(e, c) =~= Seq::<Component>::empty(),
{
}

/// A matching row at a known position witnesses presence.
proof fn lemma_rows_witness(rows: Seq<Row>, i: int)
    requires
        0 <= i < rows.len(),
    ensures
        rows_has(rows, rows[i].entity, rows[i].cid@),
{
}

/// With unique keys, the chosen index of a present pair is its only index.
proof fn lemma_rows_at(rows: Seq<Row>, i: int)
    requires
        rows_keys_unique(rows),
        0 <= i < rows.len(),
    ensures
        rows_has(rows, rows[i].entity, rows[i].cid@),
        rows_index_of(rows, rows[i].entity, rows[i].cid@) == i,
        rows_items(rows, rows[i].entity, rows[i].cid@) == rows[i].items@,
{
    let e = rows[i].entity;
    let c = rows[i].cid@;
    let j = rows_index_of(rows, e, c);
    if j != i {
        assert(rows[j].entity == e && rows[j].cid@ == c);
        if i < j {
            assert(!(rows[i].entity == rows[j].entity && rows[i].cid@ == rows[j].cid@));
        } else {
            assert(!(rows[j].entity == rows[i].entity && rows[j].cid@ == rows[i].cid@));
        }
    }
}

/// Replacing one row with one of the same key leaves every other pair's
/// presence and list unchanged.
proof fn lemma_rows_update_model(pre: Seq<Row>, post: Seq<Row>, i: int)
    requires
        rows_keys_unique(pre),
        0 <= i < pre.len(),
        post.len() == pre.len(),
        post[i].entity == pre[i].entity,
        post[i].cid@ == pre[i].cid@,
        forall|k: int| 0 <= k < pre.len() && k != i ==> post[k] == pre[k],
    ensures
        rows_keys_unique(post),
        forall|x: EntityId, c: Seq<char>| rows_has(post, x, c) == rows_has(pre, x, c),
        forall|x: EntityId, c: Seq<char>|
            !(x == pre[i].entity && c == pre[i].cid@) ==> rows_items(post, x, c) =~= rows_items(
                pre, x, c),
        rows_items(post, pre[i].entity, pre[i].cid@) == post[i].items@,
{
    assert forall|k: int| 0 <= k < post.len() implies post[k].entity == pre[k].entity
        && post[k].cid@ == pre[k].cid@ by {}
    assert forall|x: EntityId, c: Seq<char>| rows_has(post, x, c) == rows_has(pre, x, c) by {
        if rows_has(pre, x, c) {
            let k = choose|k: int| 0 <= k < pre.len() && pre[k].entity == x && pre[k].cid@ == c;
            assert(post[k].entity == x && post[k].cid@ == c);
        }
        if rows_has(post, x, c) {
            let k = choose|k: int| 0 <= k < post.len() && post[k].entity == x && post[k].cid@ == c;
            assert(pre[k].entity == x && pre[k].cid@ == c);
        }
    }
    assert forall|x: EntityId, c: Seq<char>|
        !(x == pre[i].entity && c == pre[i].cid@) && rows_has(pre, x, c) implies rows_items(post,
        x, c) =~= rows_items(pre, x, c) by {
        let k = rows_index_of(pre, x, c);
        assert(k != i);
        lemma_rows_at(post, k);
        lemma_rows_at(pre, k);
    }
    lemma_rows_at(post, i);
}

/// Appending a row with a fresh key adds exactly that pair.
proof fn lemma_rows_push_model(pre: Seq<Row>, post: Seq<Row>, e: EntityId, c: Seq<char>)
    requires
        rows_keys_unique(pre),
        !rows_has(pre, e, c),
        post.len() == pre.len() + 1,
        post[pre.len() as int].entity == e,
        post[pre.len() as int].cid@ == c,
        forall|k: int| 0 <= k < pre.len() ==> post[k] == pre[k],
    ensures
        rows_keys_unique(post),
        forall|x: EntityId, y: Seq<char>|
            rows_has(post, x, y) == (rows_has(pre, x, y) || (x == e && y == c)),
        forall|x: EntityId, y: Seq<char>|
            !(x == e && y == c) ==> rows_items(post, x, y) =~= rows_items(pre, x, y),
        rows_items(post, e, c) == post[pre.len() as int].items@,
{
    let n = pre.len() as int;
    assert(rows_keys_unique(post)) by {
        assert forall|i: int, j: int| 0 <= i < j < post.len() implies !(post[i].entity
            == post[j].entity && post[i].cid@ == post[j].cid@) by {
            if j < n {
            } else {
                assert(j == n);
                if post[i].entity == e && post[i].cid@ == c {
                    assert(rows_has(pre, e, c));
                }
            }
        }
    }
    assert forall|x: EntityId, y: Seq<char>| rows_has(post, x, y) == (rows_has(pre, x, y) || (x
        == e && y == c)) by {
        if rows_has(pre, x, y) {
            let k = choose|k: int| 0 <= k < pre.len() && pre[k].entity == x && pre[k].cid@ == y;
            assert(post[k].entity == x && post[k].cid@ == y);
        }
        if x == e && y == c {
            assert(post[n].entity == x && post[n].cid@ == y);
        }
        if rows_has(post, x, y) && !(x == e && y == c) {
            let k = choose|k: int| 0 <= k < post.len() && post[k].entity == x && post[k].cid@ == y;
            assert(k != n);
            assert(pre[k].entity == x && pre[k].cid@ == y);
        }
    }
    assert forall|x: EntityId, y: Seq<char>|
        !(x == e && y == c) && rows_has(pre, x, y) implies rows_items(post, x, y) =~= rows_items(
        pre, x, y) by {
        let k = rows_index_of(pre, x, y);
        lemma_rows_at(pre, k);
        lemma_rows_at(post, k);
    }
    lemma_rows_at(post, n);
}

/// Removing one row removes exactly its pair.
proof fn lemma_rows_remove_model(pre: Seq<Row>, post: Seq<Row>, i: int)
    requires
        rows_keys_unique(pre),
        0 <= i < pre.len(),
        post =~= pre.remove(i),
    ensures
        rows_keys_unique(post),
        forall|x: EntityId, c: Seq<char>|
            rows_has(post, x, c) == (rows_has(pre, x, c) && !(x == pre[i].entity && c
                == pre[i].cid@)),
        forall|x: EntityId, c: Seq<char>|
            !(x == pre[i].entity && c == pre[i].cid@) ==> rows_items(post, x, c) =~= rows_items(
                pre, x, c),
{
    pre.remove_ensures(i);
    assert forall|k: int| 0 <= k < post.len() implies post[k] == if k < i {
        pre[k]
    } else {
        pre[k + 1]
    } by {}
    assert(rows_keys_unique(post)) by {
        assert forall|a: int, b: int| 0 <= a < b < post.len() implies !(post[a].entity
            == post[b].entity && post[a].cid@ == post[b].cid@) by {
            let a2: int = if a < i {
                a
            } else {
                a + 1
            };
            let b2: int = if b < i {
                b
            } else {
                b + 1
            };
            assert(post[a] == pre[a2] && post[b] == pre[b2]);
            assert(a2 < b2);
        }
    }
    assert forall|x: EntityId, c: Seq<char>|
        rows_has(post, x, c) == (rows_has(pre, x, c) && !(x == pre[i].entity && c
            == pre[i].cid@)) by {
        if rows_has(post, x, c) {
            let k = choose|k: int| 0 <= k < post.len() && post[k].entity == x && post[k].cid@ == c;
            let k2: int = if k < i {
                k
            } else {
                k + 1
            };
            assert(pre[k2].entity == x && pre[k2].cid@ == c);
            assert(k2 != i);
            if x == pre[i].entity && c == pre[i].cid@ {
                assert(!(rows_keys_unique(pre)) || false) by {
                    if k2 < i {
                        assert(!(pre[k2].entity == pre[i].entity && pre[k2].cid@ == pre[i].cid@));
                    } else {
                        assert(!(pre[i].entity == pre[k2].entity && pre[i].cid@ == pre[k2].cid@));
                    }
                }
            }
        }
        if rows_has(pre, x, c) && !(x == pre[i].entity && c == pre[i].cid@) {
            let k = choose|k: int| 0 <= k < pre.len() && pre[k].entity == x && pre[k].cid@ == c;
            assert(k != i);
            if k < i {
                assert(post[k].entity == x && post[k].cid@ == c);
            } else {
                assert(post[k - 1].entity == x && post[k - 1].cid@ == c);
            }
        }
    }
    assert forall|x: EntityId, c: Seq<char>|
        !(x == pre[i].entity && c == pre[i].cid@) && rows_has(pre, x, c) implies rows_items(post,
        x, c) =~= rows_items(pre, x, c) by {
        let k = rows_index_of(pre, x, c);
        lemma_rows_at(pre, k);
        let k2: int = if k < i {
            k
        } else {
            k - 1
        };
        assert(post[k2] == pre[k]);
        lemma_rows_at(post, k2);
    }
}

/// A matching index row at a known position witnesses presence.
proof fn lemma_idx_witness(ix: Seq<IndexRow>, i: int)
    requires
        0 <= i < ix.len(),
    ensures
        idx_has(ix, ix[i].cid@),
{
}

/// With unique keys, the chosen index of a present type is its only index.
proof fn lemma_idx_at(ix: Seq<IndexRow>, i: int)
    requires
        forall|a: int, b: int| 0 <= a < b < ix.len() ==> ix[a].cid@ != ix[b].cid@,
        0 <= i < ix.len(),
    ensures
        idx_has(ix, ix[i].cid@),
        idx_index_of(ix, ix[i].cid@) == i,
        idx_entities(ix, ix[i].cid@) == ix[i].entities@,
{
    let c = ix[i].cid@;
    let j = idx_index_of(ix, c);
    if j != i {
        assert(ix[j].cid@ == c);
        if i < j {
            assert(ix[i].cid@ != ix[j].cid@);
        } else {
            assert(ix[j].cid@ != ix[i].cid@);
        }
    }
}

/// Replacing one index row with one of the same type leaves every other
/// type's entity set unchanged.
proof fn lemma_idx_update_model(pre: Seq<IndexRow>, post: Seq<IndexRow>, i: int)
    requires
        forall|a: int, b: int| 0 <= a < b < pre.len() ==> pre[a].cid@ != pre[b].cid@,
        0 <= i < pre.len(),
        post.len() == pre.len(),
        post[i].cid@ == pre[i].cid@,
        forall|k: int| 0 <= k < pre.len() && k != i ==> post[k] == pre[k],
    ensures
        forall|a: int, b: int| 0 <= a < b < post.len() ==> post[a].cid@ != post[b].cid@,
        forall|c: Seq<char>| idx_has(post, c) == idx_has(pre, c),
        forall|c: Seq<char>|
            c != pre[i].cid@ ==> idx_entities(post, c) =~= idx_entities(pre, c),
        idx_entities(post, pre[i].cid@) == post[i].entities@,
{
    assert forall|k: int| 0 <= k < post.len() implies post[k].cid@ == pre[k].cid@ by {}
    assert forall|c: Seq<char>| idx_has(post, c) == idx_has(pre, c) by {
        if idx_has(pre, c) {
            let k = choose|k: int| 0 <= k < pre.len() && pre[k].cid@ == c;
            assert(post[k].cid@ == c);
        }
        if idx_has(post, c) {
            let k = choose|k: int| 0 <= k < post.len() && post[k].cid@ == c;
            assert(pre[k].cid@ == c);
        }
    }
    assert forall|c: Seq<char>| c != pre[i].cid@ && idx_has(pre, c) implies idx_entities(post, c)
        =~= idx_entities(pre, c) by {
        let k = idx_index_of(pre, c);
        lemma_idx_at(pre, k);
        lemma_idx_at(post, k);
    }
    lemma_idx_at(post, i);
}

/// Appending an index row for a fresh type adds exactly that type.
proof fn lemma_idx_push_model(pre: Seq<IndexRow>, post: Seq<IndexRow>, c: Seq<char>)
    requires
        forall|a: int, b: int| 0 <= a < b < pre.len() ==> pre[a].cid@ != pre[b].cid@,
        !idx_has(pre, c),
        post.len() == pre.len() + 1,
        post[pre.len() as int].cid@ == c,
        forall|k: int| 0 <= k < pre.len() ==> post[k] == pre[k],
    ensures
        forall|a: int, b: int| 0 <= a < b < post.len() ==> post[a].cid@ != post[b].cid@,
        forall|y: Seq<char>| idx_has(post, y) == (idx_has(pre, y) || y == c),
        forall|y: Seq<char>| y != c ==> idx_entities(post, y) =~= idx_entities(pre, y),
        idx_entities(post, c) == post[pre.len() as int].entities@,
{
    let n = pre.len() as int;
    assert forall|a: int, b: int| 0 <= a < b < post.len() implies post[a].cid@ != post[b].cid@ by {
        if b == n {
            if post[a].cid@ == c {
                assert(idx_has(pre, c));
            }
        }
    }
    assert forall|y: Seq<char>| idx_has(post, y) == (idx_has(pre, y) || y == c) by {
        if idx_has(pre, y) {
            let k = choose|k: int| 0 <= k < pre.len() && pre[k].cid@ == y;
            assert(post[k].cid@ == y);
        }
        if y == c {
            assert(post[n].cid@ == y);
        }
        if idx_has(post, y) && y != c {
            let k = choose|k: int| 0 <= k < post.len() && post[k].cid@ == y;
            assert(k != n);
            assert(pre[k].cid@ == y);
        }
    }
    assert forall|y: Seq<char>| y != c && idx_has(pre, y) implies idx_entities(post, y)
        =~= idx_entities(pre, y) by {
        let k = idx_index_of(pre, y);
        lemma_idx_at(pre, k);
        lemma_idx_at(post, k);
    }
    lemma_idx_at(post, n);
}

/// Removing one index row removes exactly its type.
proof fn lemma_idx_remove_model(pre: Seq<IndexRow>, post: Seq<IndexRow>, i: int)
    requires
        forall|a: int, b: int| 0 <= a < b < pre.len() ==> pre[a].cid@ != pre[b].cid@,
        0 <= i < pre.len(),
        post =~= pre.remove(i),
    ensures
        forall|a: int, b: int| 0 <= a < b < post.len() ==> post[a].cid@ != post[b].cid@,
        forall|c: Seq<char>| idx_has(post, c) == (idx_has(pre, c) && c != pre[i].cid@),
        forall|c: Seq<char>| c != pre[i].cid@ ==> idx_entities(post, c) =~= idx_entities(pre, c),
{
    pre.remove_ensures(i);
    assert forall|k: int| 0 <= k < post.len() implies post[k] == if k < i {
        pre[k]
    } else {
        pre[k + 1]
    } by {}
    assert forall|a: int, b: int| 0 <= a < b < post.len() implies post[a].cid@ != post[b].cid@ by {
        let a2: int = if a < i {
            a
        } else {
            a + 1
        };
        let b2: int = if b < i {
            b
        } else {
            b + 1
        };
        assert(post[a] == pre[a2] && post[b] == pre[b2]);
        assert(a2 < b2);
    }
    assert forall|c: Seq<char>| idx_has(post, c) == (idx_has(pre, c) && c != pre[i].cid@) by {
        if idx_has(post, c) {
            let k = choose|k: int| 0 <= k < post.len() && post[k].cid@ == c;
            let k2: int = if k < i {
                k
            } else {
                k + 1
            };
            assert(pre[k2].cid@ == c);
            if c == pre[i].cid@ {
                if k2 < i {
                    assert(pre[k2].cid@ != pre[i].cid@);
                } else {
                    assert(pre[i].cid@ != pre[k2].cid@);
                }
            }
        }
        if idx_has(pre, c) && c != pre[i].cid@ {
            let k = choose|k: int| 0 <= k < pre.len() && pre[k].cid@ == c;
            assert(k != i);
            if k < i {
                assert(post[k].cid@ == c);
            } else {
                assert(post[k - 1].cid@ == c);
            }
        }
    }
    assert forall|c: Seq<char>| c != pre[i].cid@ && idx_has(pre, c) implies idx_entities(post, c)
        =~= idx_entities(pre, c) by {
        let k = idx_index_of(pre, c);
        lemma_idx_at(pre, k);
        let k2: int = if k < i {
            k
        } else {
            k - 1
        };
        assert(post[k2] == pre[k]);
        lemma_idx_at(post, k2);
    }
}

/// The step the forward walk of `get_all` takes at one row.
proof fn lemma_rows_all_items_step(rows: Seq<Row>, i: int, e: EntityId)
    requires
        0 <= i < rows.len(),
    ensures
        rows_all_items(rows.take(i + 1), e) =~= rows_all_items(rows.take(i), e) + if rows[i].entity
            == e {
            rows[i].items@
        } else {
            Seq::empty()
        },
{
    assert(rows.take(i + 1).drop_last() =~= rows.take(i));
    assert(rows.take(i + 1).last() == rows[i]);
}

/// Pushing an element extends membership by exactly that element.
pub(crate) proof fn lemma_push_contains(s: Seq<EntityId>, e: EntityId)
    ensures
        forall|z: EntityId| s.push(e).contains(z) == (s.contains(z) || z == e),
{
    assert forall|z: EntityId| s.push(e).contains(z) == (s.contains(z) || z == e) by {
        if s.contains(z) {
            let k = choose|k: int| 0 <= k < s.len() && s[k] == z;
            assert(s.push(e)[k] == z);
        }
        assert(s.push(e)[s.len() as int] == e);
        if s.push(e).contains(z) && z != e {
            let k = choose|k: int| 0 <= k < s.push(e).len() && s.push(e)[k] == z;
            assert(s[k] == z);
        }
    }
}

/// Pushing a fresh element keeps a sequence duplicate-free.
pub(crate) proof fn lemma_push_nodup(s: Seq<EntityId>, e: EntityId)
    requires
        s.no_duplicates(),
        !s.contains(e),
    ensures
        s.push(e).no_duplicates(),
{
    let t = s.push(e);
    assert forall|a: int, b: int| 0 <= a < t.len() && 0 <= b < t.len() && a != b implies t[a]
        != t[b] by {
        if a < s.len() && b < s.len() {
        } else if a < s.len() {
            assert(t[b] == e && t[a] == s[a]);
            if s[a] == e {
                assert(s.contains(e));
            }
        } else {
            assert(t[a] == e && t[b] == s[b]);
            if s[b] == e {
                assert(s.contains(e));
            }
        }
    }
}

/// Removing one position of a duplicate-free sequence removes exactly that
/// element from membership.
proof fn lemma_id_seq_remove(s: Seq<EntityId>, p: int)
    requires
        s.no_duplicates(),
        0 <= p < s.len(),
    ensures
        s.remove(p).no_duplicates(),
        forall|z: EntityId| s.remove(p).contains(z) == (s.contains(z) && z != s[p]),
{
    s.remove_ensures(p);
    let t = s.remove(p);
    assert forall|a: int, b: int| 0 <= a < t.len() && 0 <= b < t.len() && a != b implies t[a]
        != t[b] by {
        let a2: int = if a < p {
            a
        } else {
            a + 1
        };
        let b2: int = if b < p {
            b
        } else {
            b + 1
        };
        assert(t[a] == s[a2] && t[b] == s[b2]);
    }
    assert forall|z: EntityId| t.contains(z) == (s.contains(z) && z != s[p]) by {
        if t.contains(z) {
            let k = choose|k: int| 0 <= k < t.len() && t[k] == z;
            let k2: int = if k < p {
                k
            } else {
                k + 1
            };
            assert(s[k2] == z);
            assert(k2 != p);
            if z == s[p] {
                assert(s[k2] != s[p]);
            }
        }
        if s.contains(z) && z != s[p] {
            let k = choose|k: int| 0 <= k < s.len() && s[k] == z;
            assert(k != p);
            if k < p {
                assert(t[k] == z);
            } else {
                assert(t[k - 1] == z);
            }
        }
    }
}

/// The raw shape of a consistent store, over both structures.
spec fn store_inv(rows: Seq<Row>, ix: Seq<IndexRow>) -> bool {
    &&& rows_keys_unique(rows)
    &&& forall|i: int| 0 <= i < rows.len() ==> (#[trigger] rows[i]).items@.len() > 0
    &&& forall|a: int, b: int| 0 <= a < b < ix.len() ==> ix[a].cid@ != ix[b].cid@
    &&& forall|i: int| 0 <= i < ix.len() ==> (#[trigger] ix[i].entities@).no_duplicates()
    &&& forall|i: int| 0 <= i < ix.len() ==> (#[trigger] ix[i]).entities@.len() > 0
    &&& forall|i: int, k: int|
        0 <= i < ix.len() && 0 <= k < ix[i].entities@.len() ==> rows_has(rows,
            #[trigger] ix[i].entities@[k], ix[i].cid@)
    &&& forall|i: int|
        0 <= i < rows.len() ==> idx_has(ix, (#[trigger] rows[i]).cid@) && idx_entities(ix,
            rows[i].cid@).contains(rows[i].entity)
}

/// Consistency is restored after `add` updates both structures in step.
proof fn lemma_add_wf(
    pre: Seq<Row>,
    post: Seq<Row>,
    pre_ix: Seq<IndexRow>,
    post_ix: Seq<IndexRow>,
    e: EntityId,
    c: Seq<char>,
)
    requires
        store_inv(pre, pre_ix),
        rows_keys_unique(post),
        forall|i: int| 0 <= i < post.len() ==> (#[trigger] post[i]).items@.len() > 0,
        forall|x: EntityId, y: Seq<char>|
            rows_has(post, x, y) == (rows_has(pre, x, y) || (x == e && y == c)),
        forall|a: int, b: int| 0 <= a < b < post_ix.len() ==> post_ix[a].cid@ != post_ix[b].cid@,
        forall|i: int| 0 <= i < post_ix.len() ==> (#[trigger] post_ix[i].entities@).no_duplicates(),
        forall|i: int| 0 <= i < post_ix.len() ==> (#[trigger] post_ix[i]).entities@.len() > 0,
        forall|y: Seq<char>, x: EntityId|
            idx_entities(post_ix, y).contains(x) == (idx_entities(pre_ix, y).contains(x) || (y == c
                && x == e)),
        forall|y: Seq<char>| idx_has(post_ix, y) == (idx_has(pre_ix, y) || y == c),
    ensures
        store_inv(post, post_ix),
{
    assert forall|i: int, k: int|
        0 <= i < post_ix.len() && 0 <= k < post_ix[i].entities@.len() implies rows_has(post,
        #[trigger] post_ix[i].entities@[k], post_ix[i].cid@) by {
        let x = post_ix[i].entities@[k];
        let y = post_ix[i].cid@;
        lemma_idx_at(post_ix, i);
        assert(idx_entities(post_ix, y).contains(x));
        if idx_entities(pre_ix, y).contains(x) {
            assert(idx_has(pre_ix, y));
            let j = idx_index_of(pre_ix, y);
            let t = choose|t: int|
                0 <= t < pre_ix[j].entities@.len() && pre_ix[j].entities@[t] == x;
            assert(rows_has(pre, pre_ix[j].entities@[t], pre_ix[j].cid@));
        }
    }
    assert forall|i: int| 0 <= i < post.len() implies idx_has(post_ix,
        (#[trigger] post[i]).cid@) && idx_entities(post_ix, post[i].cid@).contains(
        post[i].entity) by {
        let x = post[i].entity;
        let y = post[i].cid@;
        assert(rows_has(post, x, y));
        if rows_has(pre, x, y) {
            let t = choose|t: int| 0 <= t < pre.len() && pre[t].entity == x && pre[t].cid@ == y;
            assert(idx_has(pre_ix, pre[t].cid@));
            assert(idx_entities(pre_ix, y).contains(x));
        }
    }
}

/// Consistency is restored after `remove` updates both structures in step.
proof fn lemma_remove_wf(
    pre: Seq<Row>,
    post: Seq<Row>,
    pre_ix: Seq<IndexRow>,
    post_ix: Seq<IndexRow>,
    e: EntityId,
    c: Seq<char>,
)
    requires
        store_inv(pre, pre_ix),
        rows_keys_unique(post),
        forall|i: int|
            0 <= i < post.len() ==> exists|k: int| 0 <= k < pre.len() && #[trigger] post[i] == pre[k],
        forall|x: EntityId, y: Seq<char>|
            rows_has(post, x, y) == (rows_has(pre, x, y) && !(x == e && y == c)),
        forall|a: int, b: int| 0 <= a < b < post_ix.len() ==> post_ix[a].cid@ != post_ix[b].cid@,
        forall|i: int| 0 <= i < post_ix.len() ==> (#[trigger] post_ix[i].entities@).no_duplicates(),
        forall|i: int| 0 <= i < post_ix.len() ==> (#[trigger] post_ix[i]).entities@.len() > 0,
        forall|y: Seq<char>, x: EntityId|
            idx_entities(post_ix, y).contains(x) == (idx_entities(pre_ix, y).contains(x) && !(y
                == c && x == e)),
    ensures
        store_inv(post, post_ix),
{
    assert forall|i: int| 0 <= i < post.len() implies (#[trigger] post[i]).items@.len() > 0 by {
        let k = choose|k: int| 0 <= k < pre.len() && post[i] == pre[k];
        assert(pre[k].items@.len() > 0);
    }
    assert forall|i: int, k: int|
        0 <= i < post_ix.len() && 0 <= k < post_ix[i].entities@.len() implies rows_has(post,
        #[trigger] post_ix[i].entities@[k], post_ix[i].cid@) by {
        let x = post_ix[i].entities@[k];
        let y = post_ix[i].cid@;
        lemma_idx_at(post_ix, i);
        assert(idx_entities(post_ix, y).contains(x));
        assert(idx_entities(pre_ix, y).contains(x) && !(y == c && x == e));
        assert(idx_has(pre_ix, y));
        let j = idx_index_of(pre_ix, y);
        let t = choose|t: int| 0 <= t < pre_ix[j].entities@.len() && pre_ix[j].entities@[t] == x;
        assert(rows_has(pre, pre_ix[j].entities@[t], pre_ix[j].cid@));
    }
    assert forall|i: int| 0 <= i < post.len() implies idx_has(post_ix,
        (#[trigger] post[i]).cid@) && idx_entities(post_ix, post[i].cid@).contains(
        post[i].entity) by {
        let x = post[i].entity;
        let y = post[i].cid@;
        assert(rows_has(post, x, y)) by {
            lemma_rows_witness(post, i);
        }
        assert(rows_has(pre, x, y) && !(x == e && y == c));
        let t = choose|t: int| 0 <= t < pre.len() && pre[t].entity == x && pre[t].cid@ == y;
        assert(idx_has(pre_ix, pre[t].cid@));
        assert(idx_entities(pre_ix, y).contains(x));
        assert(idx_entities(post_ix, y).contains(x));
        if !idx_has(post_ix, y) {
            assert(idx_entities(post_ix, y) =~= Seq::<EntityId>::empty());
        }
    }
}

} // verus!
