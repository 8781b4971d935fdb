use vstd::prelude::*;

verus! {

/// Identifier of an entity. The registry keeps live identifiers unique.
pub type EntityId = u32;

/// A simulation object: an opaque identifier with no data of its own.
#[derive(Debug, Clone, Copy, PartialEq, Eq, Hash, Structural)]
pub struct Entity {
    pub id: EntityId,
}

impl Entity {
    /// Wraps a caller-supplied identifier.
    pub fn with_id(id: EntityId) -> (e: Entity)
        ensures
            e.id == id,
    {
        Entity { id }
    }
}

/// Allocates unique entity identifiers and tracks which ones are live.
///
/// The counter is a field of the registry itself, so identifier allocation is
/// deterministic and can be reset for replay scenarios.
pub struct EntityRegistry {
    next_id: EntityId,
    entities: Vec<Entity>,
}

impl EntityRegistry {
    /// The live identifiers, in creation order.
    pub closed spec fn ids(self) -> Seq<EntityId> {
        self.entities@.map_values(|e: Entity| e.id)
    }

    /// The value the counter will hand out next.
    pub closed spec fn next(self) -> EntityId {
        self.next_id
    }

    /// Live identifiers are unique and below the counter; the counter starts at 1.
    pub open spec fn wf(self) -> bool {
        &&& self.ids().no_duplicates()
        &&& forall|i: int| 0 <= i < self.ids().len() ==> self.ids()[i] < self.next()
        &&& self.next() >= 1
    }

    pub open spec fn is_live(self, id: EntityId) -> bool {
        self.ids().contains(id)
    }

    pub fn new() -> (r: EntityRegistry)
        ensures
            r.wf(),
            r.ids() =~= Seq::<EntityId>::empty(),
            r.next() == 1,
    {
        EntityRegistry { next_id: 1, entities: Vec::new() }
    }

    /// Allocates a fresh identifier: strictly increasing, never reusing a live one.
    pub fn create(&mut self) -> (e: Entity)
        requires
            old(self).wf(),
            old(self).next() < EntityId::MAX,
        ensures
            final(self).wf(),
            e.id == old(self).next(),
            !old(self).is_live(e.id),
            final(self).ids() =~= old(self).ids().push(e.id),
            final(self).next() == old(self).next() + 1,
    {
        let e = Entity { id: self.next_id };
        proof {
            assert forall|i: int| 0 <= i < self.ids().len() implies self.ids()[i] != e.id by {
                assert(self.ids()[i] < self.next_id);
            }
        }
        self.entities.push(e);
        self.next_id = self.next_id + 1;
        proof {
            assert(self.ids() =~= old(self).ids().push(e.id));
        }
        e
    }

    /// Registers a caller-supplied identifier; fails if it is already live.
    /// The counter is raised past the new identifier so `create` stays fresh.
    pub fn create_with_id(&mut self, id: EntityId) -> (r: Result<Entity, crate::error::TX2Error>)
        requires
            old(self).wf(),
            id < EntityId::MAX,
        ensures
            final(self).wf(),
            r is Ok <==> !old(self).is_live(id),
            r is Ok ==> r->Ok_0.id == id && final(self).ids() =~= old(self).ids().push(id),
            r is Ok ==> final(self).next() == if id >= old(self).next() {
                (id + 1) as EntityId
            } else {
                old(self).next()
            },
            r is Err ==> *final(self) == *old(self),
    {
        if self.contains_id(id) {
            return Err(crate::error::TX2Error::duplicate_entity());
        }
        let e = Entity { id };
        self.entities.push(e);
        if id >= self.next_id {
            self.next_id = id + 1;
        }
        proof {
            assert(self.ids() =~= old(self).ids().push(id));
        }
        Ok(e)
    }

    /// Removes an identifier; reports whether it was live.
    pub fn destroy(&mut self, id: EntityId) -> (r: bool)
        requires
            old(self).wf(),
        ensures
            final(self).wf(),
            r == old(self).is_live(id),
            !final(self).is_live(id),
            forall|x: EntityId| x != id ==> (final(self).is_live(x) == old(self).is_live(x)),
            r ==> exists|i: int|
                0 <= i < old(self).ids().len() && old(self).ids()[i] == id && final(self).ids()
                    =~= old(self).ids().remove(i),
            final(self).next() == old(self).next(),
            !r ==> *final(self) == *old(self),
    {
        let n = self.entities.len();
        let mut i: usize = 0;
        while i < n
            invariant
                self == old(self),
                old(self).wf(),
                i <= n,
                n == self.entities@.len(),
                forall|k: int| 0 <= k < i ==> self.ids()[k] != id,
            decreases n - i,
        {
            if self.entities[i].id == id {
                proof {
                    assert(old(self).ids()[i as int] == id);
                }
                self.entities.remove(i);
                proof {
                    let olds = old(self).ids();
                    assert(self.ids() =~= olds.remove(i as int));
                    olds.remove_ensures(i as int);
                    assert(olds.contains(id));
                    assert(olds.no_duplicates());
                    assert(self.ids().no_duplicates()) by {
                        assert forall|a: int, b: int|
                            0 <= a < self.ids().len() && 0 <= b < self.ids().len() && a != b implies
                            self.ids()[a] != self.ids()[b] by {
                            let a2: int = if a < i as int { a } else { a + 1 };
                            let b2: int = if b < i as int { b } else { b + 1 };
                            assert(a2 != b2);
                            assert(0 <= a2 < olds.len() && 0 <= b2 < olds.len());
                            assert(self.ids()[a] == olds[a2]);
                            assert(self.ids()[b] == olds[b2]);
                            assert(olds[a2] != olds[b2]);
                        }
                    }
                    assert(!self.ids().contains(id)) by {
                        if self.ids().contains(id) {
                            let k = choose|k: int|
                                0 <= k < self.ids().len() && self.ids()[k] == id;
                            if k < i as int {
                                assert(olds[k] == id);
                            } else {
                                assert(olds[k + 1] == id);
                                assert(olds[i as int] == id);
                                assert(k + 1 != i as int);
                                assert(olds[k + 1] != olds[i as int]);
                            }
                        }
                    }
                    assert forall|x: EntityId| x != id && old(self).is_live(x) implies
                        #[trigger] self.is_live(x) by {
                        let k = choose|k: int| 0 <= k < olds.len() && olds[k] == x;
                        if k < i {
                            assert(self.ids()[k] == x);
                        } else if k > i {
                            assert(self.ids()[k - 1] == x);
                        } else {
                            assert(olds[i as int] == id);
                        }
                    }
                    assert forall|x: EntityId| #[trigger] self.ids().contains(x) implies
                        olds.contains(x) by {
                        let k = choose|k: int| 0 <= k < self.ids().len() && self.ids()[k] == x;
                        if k < i {
                            assert(olds[k] == x);
                        } else {
                            assert(olds[k + 1] == x);
                        }
                    }
                }
                proof {
                    assert(0 <= i < old(self).ids().len() && old(self).ids()[i as int] == id
                        && self.ids() =~= old(self).ids().remove(i as int));
                }
                return true;
            }
            i = i + 1;
        }
        false
    }

    /// Whether the identifier is live.
    pub fn contains_id(&self, id: EntityId) -> (r: bool)
        ensures
            r == self.is_live(id),
    {
        let n = self.entities.len();
        let mut i: usize = 0;
        while i < n
            invariant
                n == self.entities@.len(),
                forall|k: int| 0 <= k < i ==> self.ids()[k] != id,
            decreases n - i,
        {
            if self.entities[i].id == id {
                proof {
                    assert(self.ids()[i as int] == id);
                }
                return true;
            }
            i = i + 1;
        }
        false
    }

    /// The live identifiers, in creation order.
    pub fn all(&self) -> (r: Vec<EntityId>)
        ensures
            r@ =~= self.ids(),
    {
        let n = self.entities.len();
        let mut out: Vec<EntityId> = Vec::new();
        let mut i: usize = 0;
        while i < n
            invariant
                n == self.entities@.len(),
                out@ =~= self.ids().take(i as int),
                i <= n,
            decreases n - i,
        {
            out.push(self.entities[i].id);
            i = i + 1;
        }
        proof {
            assert(self.ids().take(n as int) =~= self.ids());
        }
        out
    }

    /// The live entities themselves, in creation order.
    pub fn all_entities(&self) -> (r: Vec<Entity>)
        ensures
            r@.map_values(|e: Entity| e.id) =~= self.ids(),
    {
        let n = self.entities.len();
        let mut out: Vec<Entity> = Vec::new();
        let mut i: usize = 0;
        while i < n
            invariant
                n == self.entities@.len(),
                out@ =~= self.entities@.take(i as int),
                i <= n,
            decreases n - i,
        {
            out.push(self.entities[i]);
            i = i + 1;
        }
        proof {
            assert(self.entities@.take(n as int) =~= self.entities@);
        }
        out
    }

    /// The identifier the counter will hand out next.
    pub fn next_id_value(&self) -> (r: EntityId)
        ensures
            r == self.next(),
    {
        self.next_id
    }

    /// Removes every live identifier; the counter keeps its value.
    pub fn clear(&mut self)
        requires
            old(self).wf(),
        ensures
            final(self).wf(),
            final(self).ids() =~= Seq::<EntityId>::empty(),
            final(self).next() == old(self).next(),
    {
        self.entities = Vec::new();
    }

    /// Rewinds or advances the counter for deterministic replay. All live
    /// identifiers must already sit below the new starting point.
    pub fn reset_entity_id_counter(&mut self, start: u32)
        requires
            old(self).wf(),
            start >= 1,
            forall|i: int| 0 <= i < old(self).ids().len() ==> old(self).ids()[i] < start,
        ensures
            final(self).wf(),
            final(self).next() == start,
            final(self).ids() =~= old(self).ids(),
    {
        self.next_id = start;
    }
}

} // verus!
