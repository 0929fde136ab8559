use vstd::prelude::*;
use crate::entity::Entity;
use crate::world::{
    alive_in, backrefs_in, dead_count, has_backrefs_in, is_observer_in, lemma_dead_count_le,
    lemma_dead_count_partial_implies_alive, observer_in, pending_in, watched_in, World,
};

verus! {

/// Law: the watch relation is bidirectional. For every alive entity `e` with
/// a back-reference record and every alive observer `o`, `o` appears in `e`'s
/// back-reference list exactly when `e` appears in `o`'s watched-entity list;
/// the relation is never one-sided once an operation has completed.
pub proof fn lemma_bidirectional(w: World, e: Entity, o: Entity)
    requires
        w.wf(),
        alive_in(w.records@, e),
        has_backrefs_in(w.records@, e),
        alive_in(w.records@, o),
        is_observer_in(w.records@, o),
    ensures
        backrefs_in(w.records@, e).contains(o) <==> watched_in(w.records@, o).contains(e),
{
}

/// Law: the despawn cascade is complete. Between operations, no alive
/// observer has outlived all of its watched entities: every alive observer
/// with a non-empty subject list still watches at least one alive entity.
/// (An observer whose last subject is removed is despawned by the cascade
/// before the removal returns; that it is not despawned earlier — while a
/// subject is still alive — is stated by `World::despawn`'s contract.)
pub proof fn lemma_cascade_completeness(w: World, o: Entity)
    requires
        w.wf(),
        alive_in(w.records@, o),
        is_observer_in(w.records@, o),
        watched_in(w.records@, o).len() > 0,
    ensures
        exists|i: int|
            0 <= i < watched_in(w.records@, o).len() && alive_in(
                w.records@,
                #[trigger] watched_in(w.records@, o)[i],
            ),
{
    assert(!pending_in(w.records@, o));
    assert(observer_in(w.records@, o).despawned_watched_entities == dead_count(
        w.records@,
        watched_in(w.records@, o),
    ));
    lemma_dead_count_le(w.records@, watched_in(w.records@, o));
    assert(dead_count(w.records@, watched_in(w.records@, o)) < watched_in(w.records@, o).len());
    lemma_dead_count_partial_implies_alive(w.records@, watched_in(w.records@, o));
}

/// Law: removals are never double-counted. Between operations, every alive
/// observer's removed-subject counter equals the number of its watched
/// entities that are no longer alive — each watched entity contributes at
/// most once, however often a removal is attempted. (Removing an entity that
/// is already gone changes nothing at all: see `World::despawn`'s contract.)
pub proof fn lemma_no_double_counting(w: World, o: Entity)
    requires
        w.wf(),
        alive_in(w.records@, o),
        is_observer_in(w.records@, o),
    ensures
        observer_in(w.records@, o).despawned_watched_entities == dead_count(
            w.records@,
            watched_in(w.records@, o),
        ),
        observer_in(w.records@, o).despawned_watched_entities <= watched_in(w.records@, o).len(),
{
    lemma_dead_count_le(w.records@, watched_in(w.records@, o));
}

} // verus!
