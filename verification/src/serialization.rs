use vstd::prelude::*;
use crate::component::ComponentId;
use crate::entity::EntityId;
use crate::value::{value_eq, Value};
use crate::world::World;

verus! {

/// One component as a snapshot exposes it: its stable type identifier and
/// its generic value representation.
#[derive(Debug)]
pub struct SerializedComponent {
    pub id: ComponentId,
    pub data: Value,
}

/// One entity as a snapshot exposes it: its identifier and the full ordered
/// list of its serialized components.
#[derive(Debug)]
pub struct SerializedEntity {
    pub id: EntityId,
    pub components: Vec<SerializedComponent>,
}

/// A complete, order-stable view of a world: every live entity in creation
/// order, each with every component instance in store order, under a format
/// version tag.
#[derive(Debug)]
pub struct WorldSnapshot {
    pub entities: Vec<SerializedEntity>,
    pub timestamp: u64,
    pub version: String,
}

/// Whether a snapshot faithfully captures a world: entities in creation
/// order, and per entity each stored component instance, in store order,
/// serialized structurally unchanged.
pub open spec fn snapshot_of(s: WorldSnapshot, w: World) -> bool {
    &&& s.entities@.len() == w.ids().len()
    &&& forall|i: int|
        0 <= i < s.entities@.len() ==> (#[trigger] s.entities@[i]).id == w.ids()[i]
    &&& forall|i: int|
        0 <= i < s.entities@.len() ==> (#[trigger] s.entities@[i]).components@.len()
            == w.store().all_items(w.ids()[i]).len()
    &&& forall|i: int, j: int|
        0 <= i < s.entities@.len() && 0 <= j < s.entities@[i].components@.len() ==> {
            let sc = #[trigger] s.entities@[i].components@[j];
            let c = w.store().all_items(w.ids()[i])[j];
            sc.id@ == c.id@ && value_eq(sc.data, c.data)
        }
}

/// Builds complete, order-stable snapshots for diffing collaborators.
pub struct Serializer;

impl Serializer {
    /// Serializes the whole world: every live entity in creation order,
    /// each with every component instance in store order.
    pub fn create_snapshot(world: &World) -> (s: WorldSnapshot)
        requires
            world.wf(),
        ensures
            snapshot_of(s, *world),
            s.timestamp == 0,
            s.version@ == "1.0.0"@,
    {
        let live = world.get_all_entities();
        let n = live.len();
        let mut entities: Vec<SerializedEntity> = Vec::new();
        let mut i: usize = 0;
        while i < n
            invariant
                world.wf(),
                n == live@.len(),
                live@.map_values(|e: crate::entity::Entity| e.id) == world.ids(),
                i <= n,
                entities@.len() == i,
                forall|t: int|
                    0 <= t < i ==> (#[trigger] entities@[t]).id == world.ids()[t],
                forall|t: int|
                    0 <= t < i ==> (#[trigger] entities@[t]).components@.len() == world.store()
                        .all_items(world.ids()[t]).len(),
                forall|t: int, j: int|
                    0 <= t < i && 0 <= j < entities@[t].components@.len() ==> {
                        let sc = #[trigger] entities@[t].components@[j];
                        let c = world.store().all_items(world.ids()[t])[j];
                        sc.id@ == c.id@ && value_eq(sc.data, c.data)
                    },
            decreases n - i,
        {
            let e = live[i];
            proof {
                assert(live@.map_values(|x: crate::entity::Entity| x.id)[i as int] == e.id);
            }
            let comps = world.get_all_components(e.id);
            let m = comps.len();
            let mut out: Vec<SerializedComponent> = Vec::new();
            let mut j: usize = 0;
            while j < m
                invariant
                    world.wf(),
                    m == comps@.len(),
                    comps@.len() == world.store().all_items(e.id).len(),
                    forall|k: int|
                        0 <= k < comps@.len() ==> *(#[trigger] comps@[k]) == world.store()
                            .all_items(e.id)[k],
                    j <= m,
                    out@.len() == j,
                    forall|k: int|
                        0 <= k < j ==> {
                            let sc = #[trigger] out@[k];
                            let c = world.store().all_items(e.id)[k];
                            sc.id@ == c.id@ && value_eq(sc.data, c.data)
                        },
                decreases m - j,
            {
                let c = comps[j];
                out.push(SerializedComponent { id: c.component_id(), data: c.to_value() });
                j = j + 1;
            }
            entities.push(SerializedEntity { id: e.id, components: out });
            i = i + 1;
        }
        WorldSnapshot { entities, timestamp: 0, version: "1.0.0".to_owned() }
    }
}

} // verus!
