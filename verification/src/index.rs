use vstd::prelude::*;
use crate::entity::{ComponentId, Entity, EventKey};

verus! {

/// One binding of the global index for whole-entity observers: for the given
/// event kind, the set of observer entities registered on the given watched
/// entity. The index is a front-insertion association list: the entry nearest
/// the front for a key is its current binding and shadows older ones.
pub struct EntityObsEntry {
    pub event: EventKey,
    pub entity: Entity,
    pub observers: Vec<Entity>,
}

/// One binding of the global index for component-scoped observers: for the
/// given event kind and component kind, the set of observer entities scoped to
/// that component on the given watched entity.
pub struct ComponentObsEntry {
    pub event: EventKey,
    pub component: ComponentId,
    pub entity: Entity,
    pub observers: Vec<Entity>,
}

/// The current binding of the whole-entity index for `(ev, e)`: the observer
/// set of the frontmost matching entry, if any.
pub open spec fn eo_lookup(es: Seq<EntityObsEntry>, ev: EventKey, e: Entity) -> Option<Seq<Entity>>
    decreases es.len(),
{
    if es.len() == 0 {
        None
    } else if es[0].event == ev && es[0].entity == e {
        Some(es[0].observers@)
    } else {
        eo_lookup(es.drop_first(), ev, e)
    }
}

/// The current binding of the component-scoped index for `(ev, c, e)`.
pub open spec fn co_lookup(
    es: Seq<ComponentObsEntry>,
    ev: EventKey,
    c: ComponentId,
    e: Entity,
) -> Option<Seq<Entity>>
    decreases es.len(),
{
    if es.len() == 0 {
        None
    } else if es[0].event == ev && es[0].component == c && es[0].entity == e {
        Some(es[0].observers@)
    } else {
        co_lookup(es.drop_first(), ev, c, e)
    }
}

/// Finds the current whole-entity binding for `(ev, e)`.
pub fn eo_get<'a>(es: &'a Vec<EntityObsEntry>, ev: EventKey, e: Entity) -> (r: Option<
    &'a Vec<Entity>,
>)
    ensures
        match r {
            Some(b) => eo_lookup(es@, ev, e) == Some(b@),
            None => eo_lookup(es@, ev, e) is None,
        },
{
    let mut i: usize = 0;
    assert(es@.skip(0) =~= es@);
    while i < es.len()
        invariant
            i <= es@.len(),
            eo_lookup(es@.skip(i as int), ev, e) == eo_lookup(es@, ev, e),
        decreases es@.len() - i,
    {
        let entry = &es[i];
        assert(es@.skip(i as int)[0] == es@[i as int]);
        if entry.event == ev && entry.entity == e {
            return Some(&entry.observers);
        }
        assert(es@.skip(i as int).drop_first() =~= es@.skip(i as int + 1));
        i = i + 1;
    }
    assert(es@.skip(i as int) =~= Seq::<EntityObsEntry>::empty());
    None
}

/// Finds the current component-scoped binding for `(ev, c, e)`.
pub fn co_get<'a>(es: &'a Vec<ComponentObsEntry>, ev: EventKey, c: ComponentId, e: Entity) -> (r:
    Option<&'a Vec<Entity>>)
    ensures
        match r {
            Some(b) => co_lookup(es@, ev, c, e) == Some(b@),
            None => co_lookup(es@, ev, c, e) is None,
        },
{
    let mut i: usize = 0;
    assert(es@.skip(0) =~= es@);
    while i < es.len()
        invariant
            i <= es@.len(),
            co_lookup(es@.skip(i as int), ev, c, e) == co_lookup(es@, ev, c, e),
        decreases es@.len() - i,
    {
        let entry = &es[i];
        assert(es@.skip(i as int)[0] == es@[i as int]);
        if entry.event == ev && entry.component == c && entry.entity == e {
            return Some(&entry.observers);
        }
        assert(es@.skip(i as int).drop_first() =~= es@.skip(i as int + 1));
        i = i + 1;
    }
    assert(es@.skip(i as int) =~= Seq::<ComponentObsEntry>::empty());
    None
}

/// Binds `(ev, e)` to `bucket` in the whole-entity index, shadowing any older
/// binding; every other key keeps its binding.
pub fn eo_insert(es: &mut Vec<EntityObsEntry>, ev: EventKey, e: Entity, bucket: Vec<Entity>)
    ensures
        forall|ev2: EventKey, e2: Entity|
            #[trigger] eo_lookup(final(es)@, ev2, e2) == if ev2 == ev && e2 == e {
                Some(bucket@)
            } else {
                eo_lookup(old(es)@, ev2, e2)
            },
{
    let ghost pre = es@;
    let ghost b = bucket@;
    es.insert(0, EntityObsEntry { event: ev, entity: e, observers: bucket });
    proof {
        assert(es@.drop_first() =~= pre);
        assert forall|ev2: EventKey, e2: Entity|
            #[trigger] eo_lookup(es@, ev2, e2) == if ev2 == ev && e2 == e {
                Some(b)
            } else {
                eo_lookup(pre, ev2, e2)
            } by {
            assert(es@[0].event == ev && es@[0].entity == e && es@[0].observers@ == b);
        }
    }
}

/// Binds `(ev, c, e)` to `bucket` in the component-scoped index, shadowing any
/// older binding; every other key keeps its binding.
pub fn co_insert(
    es: &mut Vec<ComponentObsEntry>,
    ev: EventKey,
    c: ComponentId,
    e: Entity,
    bucket: Vec<Entity>,
)
    ensures
        forall|ev2: EventKey, c2: ComponentId, e2: Entity|
            #[trigger] co_lookup(final(es)@, ev2, c2, e2) == if ev2 == ev && c2 == c && e2 == e {
                Some(bucket@)
            } else {
                co_lookup(old(es)@, ev2, c2, e2)
            },
{
    let ghost pre = es@;
    let ghost b = bucket@;
    es.insert(0, ComponentObsEntry { event: ev, component: c, entity: e, observers: bucket });
    proof {
        assert(es@.drop_first() =~= pre);
        assert forall|ev2: EventKey, c2: ComponentId, e2: Entity|
            #[trigger] co_lookup(es@, ev2, c2, e2) == if ev2 == ev && c2 == c && e2 == e {
                Some(b)
            } else {
                co_lookup(pre, ev2, c2, e2)
            } by {
            assert(es@[0].event == ev && es@[0].component == c && es@[0].entity == e
                && es@[0].observers@ == b);
        }
    }
}

} // verus!
