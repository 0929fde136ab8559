use vstd::prelude::*;
use crate::entity::{ComponentId, Entity, EventKey};

verus! {

/// Descriptor attached to an observer entity: which entities, component kinds
/// and event kinds it watches, plus a counter of how many watched subjects
/// have already been removed from the world.
pub struct Observer {
    /// Watched-entity ids this observer is registered against.
    pub entities: Vec<Entity>,
    /// Component kinds this observer is scoped to; empty means the observer
    /// watches its subjects as whole entities.
    pub components: Vec<ComponentId>,
    /// Event kinds this observer reacts to.
    pub events: Vec<EventKey>,
    /// How many entries of `entities` have already been removed from the
    /// world. Always at most `entities.len()`.
    pub despawned_watched_entities: usize,
}

} // verus!
