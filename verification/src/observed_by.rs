use vstd::prelude::*;
use crate::entity::Entity;

verus! {

/// Tracks the list of entity observers for the entity this record is attached
/// to. Order is append order; it is kept for determinism only. The record is
/// populated by the registration path and drained exactly once, at removal
/// time, by the despawn cascade.
pub struct ObservedBy(pub Vec<Entity>);

impl View for ObservedBy {
    type V = Seq<Entity>;

    open spec fn view(&self) -> Seq<Entity> {
        self.0@
    }
}

impl ObservedBy {
    /// Provides a read-only view of the list of entities observing this entity.
    pub fn get(&self) -> (r: &[Entity])
        ensures
            r@ == self@,
    {
        self.0.as_slice()
    }
}

impl Default for ObservedBy {
    /// A freshly attached back-reference record lists no observers.
    fn default() -> (r: Self)
        ensures
            r@ == Seq::<Entity>::empty(),
    {
        ObservedBy(Vec::new())
    }
}

} // verus!
