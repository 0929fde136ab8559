use vstd::prelude::*;
use crate::entity::{ComponentId, Entity, EventKey};
use crate::index::{
    co_lookup, eo_lookup, ComponentObsEntry, EntityObsEntry,
};
use crate::observed_by::ObservedBy;
use crate::observer::Observer;

verus! {

/// Per-entity slot of the world: whether the entity is alive and which of the
/// two records of this subsystem are attached to it.
pub struct EntityRecord {
    pub alive: bool,
    pub observed_by: Option<ObservedBy>,
    pub observer: Option<Observer>,
}

/// A deferred structural mutation. Reactions to a structural change may not
/// perform another structural change inline, so they enqueue one of these; the
/// queue is drained, in FIFO order, at a flush point.
#[derive(Clone, Copy, PartialEq, Eq, Structural, Debug)]
pub enum Command {
    /// Despawn the given entity (used for observers left with no live subject).
    Despawn(Entity),
    /// Replicate the first entity's observer registrations onto the second.
    PropagateObservers(Entity, Entity),
}

/// `e` names a slot of the record store.
pub open spec fn in_world(rs: Seq<EntityRecord>, e: Entity) -> bool {
    e.id < rs.len()
}

/// `e` names a slot that currently holds a live entity.
pub open spec fn alive_in(rs: Seq<EntityRecord>, e: Entity) -> bool {
    in_world(rs, e) && rs[e.id as int].alive
}

/// `e` has a back-reference record attached.
pub open spec fn has_backrefs_in(rs: Seq<EntityRecord>, e: Entity) -> bool {
    in_world(rs, e) && rs[e.id as int].observed_by is Some
}

/// The observers listed in `e`'s back-reference record.
pub open spec fn backrefs_in(rs: Seq<EntityRecord>, e: Entity) -> Seq<Entity> {
    (rs[e.id as int].observed_by->Some_0)@
}

/// `e` has an observer descriptor attached.
pub open spec fn is_observer_in(rs: Seq<EntityRecord>, e: Entity) -> bool {
    in_world(rs, e) && rs[e.id as int].observer is Some
}

/// `e`'s observer descriptor.
pub open spec fn observer_in(rs: Seq<EntityRecord>, e: Entity) -> Observer {
    rs[e.id as int].observer->Some_0
}

/// The watched-entity list of observer `o`.
pub open spec fn watched_in(rs: Seq<EntityRecord>, o: Entity) -> Seq<Entity> {
    observer_in(rs, o).entities@
}

/// How many entities of `s` are not alive in `rs`.
pub open spec fn dead_count(rs: Seq<EntityRecord>, s: Seq<Entity>) -> nat
    decreases s.len(),
{
    if s.len() == 0 {
        0
    } else {
        dead_count(rs, s.drop_last()) + (if alive_in(rs, s.last()) {
            0nat
        } else {
            1nat
        })
    }
}

/// The back-reference list of `x` with observer `o` appended, starting from an
/// empty list where no record was attached yet.
pub open spec fn appended_backrefs(rs: Seq<EntityRecord>, x: Entity, o: Entity) -> Seq<Entity> {
    (if has_backrefs_in(rs, x) {
        backrefs_in(rs, x)
    } else {
        Seq::<Entity>::empty()
    }).push(o)
}

/// The whole-entity index binding for `(ev, x)`, or the empty set where none
/// exists.
pub open spec fn bucket_or_empty(es: Seq<EntityObsEntry>, ev: EventKey, x: Entity) -> Seq<Entity> {
    match eo_lookup(es, ev, x) {
        Some(b) => b,
        None => Seq::<Entity>::empty(),
    }
}

/// The component-scoped index binding for `(ev, c, x)`, or the empty set where
/// none exists.
pub open spec fn co_bucket_or_empty(
    es: Seq<ComponentObsEntry>,
    ev: EventKey,
    c: ComponentId,
    x: Entity,
) -> Seq<Entity> {
    match co_lookup(es, ev, c, x) {
        Some(b) => b,
        None => Seq::<Entity>::empty(),
    }
}

/// Every alive observer's descriptor is well shaped: the watched list has no
/// duplicates and names only slots of the world.
pub open spec fn observers_shape(rs: Seq<EntityRecord>) -> bool {
    forall|o: Entity|
        #[trigger] is_observer_in(rs, o) && alive_in(rs, o) ==> {
            &&& watched_in(rs, o).no_duplicates()
            &&& forall|i: int|
                0 <= i < watched_in(rs, o).len() ==> in_world(rs, #[trigger] watched_in(rs, o)[i])
        }
}

/// Every alive observer's removed-subject counter equals the number of its
/// watched entities that are no longer alive: each removal is counted exactly
/// once.
pub open spec fn observers_counts(rs: Seq<EntityRecord>) -> bool {
    forall|o: Entity|
        #[trigger] is_observer_in(rs, o) && alive_in(rs, o)
            ==> observer_in(rs, o).despawned_watched_entities == dead_count(rs, watched_in(rs, o))
}

/// Every alive entity's back-reference list has no duplicates, names only
/// slots of the world, and lists only entities that (while alive) carry an
/// observer descriptor.
pub open spec fn backrefs_shape(rs: Seq<EntityRecord>) -> bool {
    forall|e: Entity|
        alive_in(rs, e) && #[trigger] has_backrefs_in(rs, e) ==> {
            &&& backrefs_in(rs, e).no_duplicates()
            &&& forall|i: int|
                0 <= i < backrefs_in(rs, e).len() ==> {
                    &&& in_world(rs, #[trigger] backrefs_in(rs, e)[i])
                    &&& (alive_in(rs, backrefs_in(rs, e)[i]) ==> is_observer_in(
                        rs,
                        backrefs_in(rs, e)[i],
                    ))
                }
        }
}

/// One direction of the bidirectional invariant: an alive observer listed in
/// an alive entity's back-reference record lists that entity among its watched
/// subjects.
pub open spec fn bidir_back_to_watch(rs: Seq<EntityRecord>) -> bool {
    forall|e: Entity, o: Entity|
        alive_in(rs, e) && has_backrefs_in(rs, e) && #[trigger] backrefs_in(rs, e).contains(o)
            && alive_in(rs, o) ==> is_observer_in(rs, o) && watched_in(rs, o).contains(e)
}

/// The other direction: an alive watched subject of an alive observer carries
/// a back-reference record that lists the observer.
pub open spec fn bidir_watch_to_back(rs: Seq<EntityRecord>) -> bool {
    forall|o: Entity, e: Entity|
        alive_in(rs, o) && is_observer_in(rs, o) && #[trigger] watched_in(rs, o).contains(e)
            && alive_in(rs, e) ==> has_backrefs_in(rs, e) && backrefs_in(rs, e).contains(o)
}

/// The record store's invariant.
pub open spec fn records_inv(rs: Seq<EntityRecord>) -> bool {
    &&& observers_shape(rs)
    &&& observers_counts(rs)
    &&& backrefs_shape(rs)
    &&& bidir_back_to_watch(rs)
    &&& bidir_watch_to_back(rs)
}

/// Observer `o` is due for the despawn cascade: it is alive, watches at least
/// one entity, and every watched entity has been removed.
pub open spec fn pending_in(rs: Seq<EntityRecord>, o: Entity) -> bool {
    &&& alive_in(rs, o)
    &&& is_observer_in(rs, o)
    &&& watched_in(rs, o).len() > 0
    &&& observer_in(rs, o).despawned_watched_entities == watched_in(rs, o).len()
}

/// No observer is due for the despawn cascade; holds between flushes.
pub open spec fn no_pending(rs: Seq<EntityRecord>) -> bool {
    forall|o: Entity| !#[trigger] pending_in(rs, o)
}

/// The world: the record store, the two global index maps, and the deferred
/// command queue.
pub struct World {
    pub records: Vec<EntityRecord>,
    pub entity_observers: Vec<EntityObsEntry>,
    pub component_observers: Vec<ComponentObsEntry>,
    pub queue: Vec<Command>,
}

impl World {
    /// The record store's invariant, as seen on this world.
    pub open spec fn inv(self) -> bool {
        records_inv(self.records@)
    }

    /// Well-formedness between operations: the invariant holds, no deferred
    /// command is outstanding, and no observer is left due for the cascade.
    pub open spec fn wf(self) -> bool {
        &&& self.inv()
        &&& self.queue@.len() == 0
        &&& no_pending(self.records@)
    }

    pub open spec fn spec_is_alive(self, e: Entity) -> bool {
        alive_in(self.records@, e)
    }

    pub open spec fn spec_has_backrefs(self, e: Entity) -> bool {
        has_backrefs_in(self.records@, e)
    }

    pub open spec fn spec_backrefs(self, e: Entity) -> Seq<Entity> {
        backrefs_in(self.records@, e)
    }

    pub open spec fn spec_is_observer(self, e: Entity) -> bool {
        is_observer_in(self.records@, e)
    }

    pub open spec fn spec_observer(self, e: Entity) -> Observer {
        observer_in(self.records@, e)
    }

    pub open spec fn spec_watched(self, o: Entity) -> Seq<Entity> {
        watched_in(self.records@, o)
    }

    /// The current whole-entity index binding for `(ev, e)`.
    pub open spec fn spec_entity_bucket(self, ev: EventKey, e: Entity) -> Option<Seq<Entity>> {
        eo_lookup(self.entity_observers@, ev, e)
    }

    /// The current component-scoped index binding for `(ev, c, e)`.
    pub open spec fn spec_component_bucket(self, ev: EventKey, c: ComponentId, e: Entity) -> Option<
        Seq<Entity>,
    > {
        co_lookup(self.component_observers@, ev, c, e)
    }

    /// An empty world: no entities, no index entries, no deferred commands.
    pub fn new() -> (w: World)
        ensures
            w.wf(),
            w.records@.len() == 0,
            forall|ev: EventKey, e: Entity| #[trigger] w.spec_entity_bucket(ev, e) is None,
            forall|ev: EventKey, c: ComponentId, e: Entity|
                #[trigger] w.spec_component_bucket(ev, c, e) is None,
    {
        World {
            records: Vec::new(),
            entity_observers: Vec::new(),
            component_observers: Vec::new(),
            queue: Vec::new(),
        }
    }

    /// How many entity slots the world has issued.
    pub fn num_entities(&self) -> (n: usize)
        ensures
            n == self.records@.len(),
    {
        self.records.len()
    }

    /// Whether `e` currently names a live entity.
    pub fn is_alive(&self, e: Entity) -> (r: bool)
        ensures
            r == self.spec_is_alive(e),
    {
        e.id < self.records.len() && self.records[e.id].alive
    }

    /// The back-reference record of `e`, if one is attached.
    pub fn get_observed_by(&self, e: Entity) -> (r: Option<&ObservedBy>)
        ensures
            match r {
                Some(b) => self.spec_has_backrefs(e) && b@ == self.spec_backrefs(e),
                None => !self.spec_has_backrefs(e),
            },
    {
        if e.id < self.records.len() {
            self.records[e.id].observed_by.as_ref()
        } else {
            None
        }
    }

    /// The observer descriptor of `e`, if one is attached.
    pub fn get_observer(&self, e: Entity) -> (r: Option<&Observer>)
        ensures
            match r {
                Some(d) => self.spec_is_observer(e) && *d == self.spec_observer(e),
                None => !self.spec_is_observer(e),
            },
    {
        if e.id < self.records.len() {
            self.records[e.id].observer.as_ref()
        } else {
            None
        }
    }

    /// The set of whole-entity observers the index currently binds to
    /// `(ev, e)`.
    pub fn entity_bucket(&self, ev: EventKey, e: Entity) -> (r: Option<&Vec<Entity>>)
        ensures
            match r {
                Some(b) => self.spec_entity_bucket(ev, e) == Some(b@),
                None => self.spec_entity_bucket(ev, e) is None,
            },
    {
        crate::index::eo_get(&self.entity_observers, ev, e)
    }

    /// The set of component-scoped observers the index currently binds to
    /// `(ev, c, e)`.
    pub fn component_bucket(&self, ev: EventKey, c: ComponentId, e: Entity) -> (r: Option<
        &Vec<Entity>,
    >)
        ensures
            match r {
                Some(b) => self.spec_component_bucket(ev, c, e) == Some(b@),
                None => self.spec_component_bucket(ev, c, e) is None,
            },
    {
        crate::index::co_get(&self.component_observers, ev, c, e)
    }

    /// Issues a fresh live entity with no records attached.
    pub fn spawn_empty(&mut self) -> (e: Entity)
        requires
            old(self).wf(),
        ensures
            final(self).wf(),
            e.id == old(self).records@.len(),
            final(self).spec_is_alive(e),
            !final(self).spec_has_backrefs(e),
            !final(self).spec_is_observer(e),
            final(self).records@ == old(self).records@.push(
                (EntityRecord { alive: true, observed_by: None, observer: None }),
            ),
            final(self).entity_observers@ == old(self).entity_observers@,
            final(self).component_observers@ == old(self).component_observers@,
            final(self).queue@ == old(self).queue@,
    {
        let e = Entity { id: self.records.len() };
        self.records.push(EntityRecord { alive: true, observed_by: None, observer: None });
        proof {
            lemma_records_inv_grow(old(self).records@, self.records@);
            assert forall|o: Entity| !#[trigger] pending_in(self.records@, o) by {
                if pending_in(self.records@, o) {
                    assert(o.id != old(self).records@.len());
                    assert(pending_in(old(self).records@, o));
                }
            }
        }
        e
    }

    /// Registers a fresh observer entity watching every entity of `targets`
    /// (duplicate-free, all alive) for event kind `event`, as a whole-entity
    /// observer. Each target's back-reference record gains the observer, and
    /// the whole-entity index binding of `(event, target)` gains it too; the
    /// relation stays bidirectional.
    pub fn observe_many(&mut self, targets: &Vec<Entity>, event: EventKey) -> (o: Entity)
        requires
            old(self).wf(),
            targets@.no_duplicates(),
            forall|i: int| 0 <= i < targets@.len() ==> old(self).spec_is_alive(#[trigger] targets@[i]),
        ensures
            final(self).wf(),
            o.id == old(self).records@.len(),
            final(self).records@.len() == old(self).records@.len() + 1,
            final(self).spec_is_alive(o),
            final(self).spec_is_observer(o),
            !final(self).spec_has_backrefs(o),
            final(self).spec_watched(o) == targets@,
            final(self).spec_observer(o).events@ == seq![event],
            final(self).spec_observer(o).components@ == Seq::<ComponentId>::empty(),
            final(self).spec_observer(o).despawned_watched_entities == 0,
            forall|x: Entity|
                x.id < old(self).records@.len() ==> final(self).spec_is_alive(x) == old(self).spec_is_alive(x) && (#[trigger] final(self).records@[x.id as int]).observer
                    == old(self).records@[x.id as int].observer,
            forall|x: Entity|
                x.id < old(self).records@.len() && !targets@.contains(x) ==> (
                #[trigger] final(self).records@[x.id as int]).observed_by == old(self).records@[x.id as int].observed_by,
            forall|i: int|
                0 <= i < targets@.len() ==> final(self).spec_has_backrefs(#[trigger] targets@[i])
                    && final(self).spec_backrefs(targets@[i]) == appended_backrefs(
                    old(self).records@,
                    targets@[i],
                    o,
                ),
            forall|ev: EventKey, x: Entity|
                #[trigger] final(self).spec_entity_bucket(ev, x) == if ev == event
                    && targets@.contains(x) {
                    Some(bucket_or_empty(old(self).entity_observers@, ev, x).push(o))
                } else {
                    old(self).spec_entity_bucket(ev, x)
                },
            final(self).component_observers@ == old(self).component_observers@,
            final(self).queue@ == old(self).queue@,
    {
        let o = Entity { id: self.records.len() };
        let watched = crate::entity::copy_list(targets);
        let mut events: Vec<EventKey> = Vec::new();
        events.push(event);
        self.records.push(
            EntityRecord {
                alive: true,
                observed_by: None,
                observer: Some(
                    Observer {
                        entities: watched,
                        components: Vec::new(),
                        events,
                        despawned_watched_entities: 0,
                    },
                ),
            },
        );
        let ghost rs0 = old(self).records@;
        let ghost rs1 = self.records@;
        let ghost es0 = old(self).entity_observers@;
        proof {
            assert forall|i: int| 0 <= i < targets@.len() implies in_world(
                rs0,
                #[trigger] targets@[i],
            ) by {
                assert(alive_in(rs0, targets@[i]));
            }
            assert(targets@.take(0) =~= Seq::<Entity>::empty());
            assert((rs1[o.id as int].observer->Some_0).events@ =~= seq![event]);
            assert((rs1[o.id as int].observer->Some_0).components@ =~= Seq::<ComponentId>::empty());
        }
        let mut k: usize = 0;
        while k < targets.len()
            invariant
                k <= targets@.len(),
                o.id == rs0.len(),
                targets@.no_duplicates(),
                forall|i: int| 0 <= i < targets@.len() ==> alive_in(rs0, #[trigger] targets@[i]),
                rs1.len() == rs0.len() + 1,
                forall|j: int| 0 <= j < rs0.len() ==> #[trigger] rs1[j] == rs0[j],
                rs1[o.id as int].alive,
                rs1[o.id as int].observed_by is None,
                rs1[o.id as int].observer is Some,
                (rs1[o.id as int].observer->Some_0).entities@ == targets@,
                (rs1[o.id as int].observer->Some_0).components@ == Seq::<ComponentId>::empty(),
                (rs1[o.id as int].observer->Some_0).events@ == seq![event],
                (rs1[o.id as int].observer->Some_0).despawned_watched_entities == 0,
                self.records@.len() == rs1.len(),
                forall|j: int|
                    0 <= j < rs1.len() ==> (#[trigger] self.records@[j]).alive == rs1[j].alive
                        && self.records@[j].observer == rs1[j].observer,
                forall|x: Entity|
                    x.id < rs1.len() && !targets@.take(k as int).contains(x) ==> (
                    #[trigger] self.records@[x.id as int]).observed_by == rs1[x.id as int].observed_by,
                forall|i: int|
                    0 <= i < k ==> has_backrefs_in(self.records@, #[trigger] targets@[i])
                        && backrefs_in(self.records@, targets@[i]) == appended_backrefs(
                        rs0,
                        targets@[i],
                        o,
                    ),
                forall|ev: EventKey, x: Entity|
                    #[trigger] eo_lookup(self.entity_observers@, ev, x) == if ev == event
                        && targets@.take(k as int).contains(x) {
                        Some(bucket_or_empty(es0, ev, x).push(o))
                    } else {
                        eo_lookup(es0, ev, x)
                    },
                self.component_observers@ == old(self).component_observers@,
                self.queue@ == old(self).queue@,
            decreases targets@.len() - k,
        {
            let ghost rs_pre = self.records@;
            let ghost es_pre = self.entity_observers@;
            let t = targets[k];
            proof {
                assert(alive_in(rs0, t));
                assert(!targets@.take(k as int).contains(t)) by {
                    if targets@.take(k as int).contains(t) {
                        let i = choose|i: int|
                            0 <= i < k && #[trigger] targets@.take(k as int)[i] == t;
                        assert(targets@[i] == targets@[k as int]);
                    }
                }
                assert(rs_pre[t.id as int].observed_by == rs1[t.id as int].observed_by);
                assert(rs1[t.id as int].observed_by == rs0[t.id as int].observed_by);
            }
            let rec = &mut self.records[t.id];
            let taken = rec.observed_by.take();
            let mut list = match taken {
                Some(ob) => ob.0,
                None => Vec::new(),
            };
            list.push(o);
            rec.observed_by = Some(ObservedBy(list));
            let bucket_old = crate::index::eo_get(&self.entity_observers, event, t);
            let mut bucket = match bucket_old {
                Some(b) => crate::entity::copy_list(b),
                None => Vec::new(),
            };
            bucket.push(o);
            crate::index::eo_insert(&mut self.entity_observers, event, t, bucket);
            proof {
                assert(backrefs_in(self.records@, t) == appended_backrefs(rs0, t, o));
                assert forall|x: Entity|
                    x.id < rs1.len() && !targets@.take(k as int + 1).contains(x) implies (
                #[trigger] self.records@[x.id as int]).observed_by
                    == rs1[x.id as int].observed_by by {
                    crate::entity::lemma_take_succ_contains(targets@, k as int, x);
                    assert(x != t);
                    assert(self.records@[x.id as int].observed_by
                        == rs_pre[x.id as int].observed_by);
                }
                assert forall|i: int|
                    0 <= i < k + 1 implies has_backrefs_in(self.records@, #[trigger] targets@[i])
                    && backrefs_in(self.records@, targets@[i]) == appended_backrefs(
                    rs0,
                    targets@[i],
                    o,
                ) by {
                    if i < k {
                        assert(targets@[i] != t);
                    }
                }
                assert forall|ev: EventKey, x: Entity|
                    #[trigger] eo_lookup(self.entity_observers@, ev, x) == if ev == event
                        && targets@.take(k as int + 1).contains(x) {
                        Some(bucket_or_empty(es0, ev, x).push(o))
                    } else {
                        eo_lookup(es0, ev, x)
                    } by {
                    crate::entity::lemma_take_succ_contains(targets@, k as int, x);
                }
            }
            k = k + 1;
        }
        proof {
            assert(targets@.take(targets@.len() as int) =~= targets@);
            lemma_records_inv_register(rs0, self.records@, targets@, o);
            assert(watched_in(self.records@, o) == targets@);
        }
        o
    }

    /// Registers a fresh whole-entity observer watching `target` for event
    /// kind `event`.
    pub fn observe(&mut self, target: Entity, event: EventKey) -> (o: Entity)
        requires
            old(self).wf(),
            old(self).spec_is_alive(target),
        ensures
            final(self).wf(),
            o.id == old(self).records@.len(),
            final(self).records@.len() == old(self).records@.len() + 1,
            final(self).spec_is_alive(o),
            final(self).spec_is_observer(o),
            !final(self).spec_has_backrefs(o),
            final(self).spec_watched(o) == seq![target],
            final(self).spec_observer(o).events@ == seq![event],
            final(self).spec_observer(o).components@ == Seq::<ComponentId>::empty(),
            final(self).spec_observer(o).despawned_watched_entities == 0,
            forall|x: Entity|
                x.id < old(self).records@.len() ==> final(self).spec_is_alive(x) == old(self).spec_is_alive(x) && (#[trigger] final(self).records@[x.id as int]).observer
                    == old(self).records@[x.id as int].observer,
            forall|x: Entity|
                x.id < old(self).records@.len() && x != target ==> (
                #[trigger] final(self).records@[x.id as int]).observed_by == old(self).records@[x.id as int].observed_by,
            final(self).spec_has_backrefs(target),
            final(self).spec_backrefs(target) == appended_backrefs(old(self).records@, target, o),
            forall|ev: EventKey, x: Entity|
                #[trigger] final(self).spec_entity_bucket(ev, x) == if ev == event && x == target {
                    Some(bucket_or_empty(old(self).entity_observers@, ev, x).push(o))
                } else {
                    old(self).spec_entity_bucket(ev, x)
                },
            final(self).component_observers@ == old(self).component_observers@,
            final(self).queue@ == old(self).queue@,
    {
        let targets = vec![target];
        proof {
            assert(targets@ =~= seq![target]);
            assert(targets@.no_duplicates());
            assert(targets@[0] == target);
            assert forall|x: Entity| #[trigger] targets@.contains(x) implies x == target by {
                let i = choose|i: int| 0 <= i < targets@.len() && targets@[i] == x;
            }
        }
        let o = self.observe_many(&targets, event);
        o
    }

    /// Registers a fresh component-scoped observer watching `target` for event
    /// kind `event`, scoped to component kind `component`. The binding goes
    /// into the component-scoped index; the whole-entity index is untouched.
    pub fn observe_scoped(&mut self, target: Entity, event: EventKey, component: ComponentId) -> (o:
        Entity)
        requires
            old(self).wf(),
            old(self).spec_is_alive(target),
        ensures
            final(self).wf(),
            o.id == old(self).records@.len(),
            final(self).records@.len() == old(self).records@.len() + 1,
            final(self).spec_is_alive(o),
            final(self).spec_is_observer(o),
            !final(self).spec_has_backrefs(o),
            final(self).spec_watched(o) == seq![target],
            final(self).spec_observer(o).events@ == seq![event],
            final(self).spec_observer(o).components@ == seq![component],
            final(self).spec_observer(o).despawned_watched_entities == 0,
            forall|x: Entity|
                x.id < old(self).records@.len() ==> final(self).spec_is_alive(x) == old(self).spec_is_alive(x) && (#[trigger] final(self).records@[x.id as int]).observer
                    == old(self).records@[x.id as int].observer,
            forall|x: Entity|
                x.id < old(self).records@.len() && x != target ==> (
                #[trigger] final(self).records@[x.id as int]).observed_by == old(self).records@[x.id as int].observed_by,
            final(self).spec_has_backrefs(target),
            final(self).spec_backrefs(target) == appended_backrefs(old(self).records@, target, o),
            forall|ev: EventKey, c: ComponentId, x: Entity|
                #[trigger] final(self).spec_component_bucket(ev, c, x) == if ev == event && c
                    == component && x == target {
                    Some(co_bucket_or_empty(old(self).component_observers@, ev, c, x).push(o))
                } else {
                    old(self).spec_component_bucket(ev, c, x)
                },
            final(self).entity_observers@ == old(self).entity_observers@,
            final(self).queue@ == old(self).queue@,
    {
        let o = Entity { id: self.records.len() };
        let mut entities: Vec<Entity> = Vec::new();
        entities.push(target);
        let mut events: Vec<EventKey> = Vec::new();
        events.push(event);
        let mut components: Vec<ComponentId> = Vec::new();
        components.push(component);
        self.records.push(
            EntityRecord {
                alive: true,
                observed_by: None,
                observer: Some(
                    Observer { entities, components, events, despawned_watched_entities: 0 },
                ),
            },
        );
        let ghost rs0 = old(self).records@;
        let ghost rs1 = self.records@;
        proof {
            assert(alive_in(rs0, target));
            assert((rs1[o.id as int].observer->Some_0).entities@ =~= seq![target]);
            assert((rs1[o.id as int].observer->Some_0).events@ =~= seq![event]);
            assert((rs1[o.id as int].observer->Some_0).components@ =~= seq![component]);
        }
        let rec = &mut self.records[target.id];
        let taken = rec.observed_by.take();
        let mut list = match taken {
            Some(ob) => ob.0,
            None => Vec::new(),
        };
        list.push(o);
        rec.observed_by = Some(ObservedBy(list));
        let bucket_old = crate::index::co_get(&self.component_observers, event, component, target);
        let mut bucket = match bucket_old {
            Some(b) => crate::entity::copy_list(b),
            None => Vec::new(),
        };
        bucket.push(o);
        crate::index::co_insert(&mut self.component_observers, event, component, target, bucket);
        proof {
            let tg = seq![target];
            assert(tg[0] == target);
            assert(tg.no_duplicates());
            assert forall|x: Entity| #[trigger] tg.contains(x) implies x == target by {
                let i = choose|i: int| 0 <= i < tg.len() && tg[i] == x;
            }
            assert(tg.contains(target));
            assert(rs1[target.id as int].observed_by == rs0[target.id as int].observed_by);
            assert(backrefs_in(self.records@, target) == appended_backrefs(rs0, target, o));
            assert(watched_in(self.records@, o) == tg);
            assert forall|i: int| 0 <= i < tg.len() implies alive_in(rs0, #[trigger] tg[i]) by {
                assert(tg[i] == target);
            }
            lemma_records_inv_register(rs0, self.records@, tg, o);
        }
        o
    }

    /// The removal hook for the back-reference record: takes ownership of
    /// `e`'s observer list, removes `e`, and walks the list. An observer that
    /// no longer exists is a benign race and is skipped; every other observer's
    /// removed-subject counter grows by one, and an observer left with no live
    /// subject gets a deferred despawn command enqueued — never executed
    /// inline.
    fn despawn_inner(&mut self, e: Entity)
        requires
            old(self).inv(),
        ensures
            final(self).inv(),
            final(self).records@.len() == old(self).records@.len(),
            final(self).entity_observers@ == old(self).entity_observers@,
            final(self).component_observers@ == old(self).component_observers@,
            !alive_in(final(self).records@, e),
            !alive_in(old(self).records@, e) ==> final(self).records@ == old(self).records@ && final(self).queue@ == old(self).queue@,
            alive_in(old(self).records@, e) ==> final(self).records@[e.id as int].observer
                is None && final(self).records@[e.id as int].observed_by is None,
            alive_in(old(self).records@, e) ==> alive_count(final(self).records@) + 1 == alive_count(
                old(self).records@,
            ),
            forall|x: Entity|
                x != e ==> alive_in(final(self).records@, x) == alive_in(old(self).records@, x),
            forall|x: Entity|
                x != e && x.id < old(self).records@.len() ==> (#[trigger] final(self).records@[x.id as int]).observed_by == old(self).records@[x.id as int].observed_by
                    && (final(self).records@[x.id as int].observer is Some <==> old(self).records@[x.id as int].observer is Some),
            forall|x: Entity|
                x != e && !alive_in(old(self).records@, x) && x.id < old(self).records@.len() ==> (
                #[trigger] final(self).records@[x.id as int]) == old(self).records@[x.id as int],
            forall|x: Entity|
                x != e && #[trigger] is_observer_in(old(self).records@, x) ==> {
                    &&& observer_in(final(self).records@, x).entities@ == observer_in(
                        old(self).records@,
                        x,
                    ).entities@
                    &&& observer_in(final(self).records@, x).events@ == observer_in(
                        old(self).records@,
                        x,
                    ).events@
                    &&& observer_in(final(self).records@, x).components@ == observer_in(
                        old(self).records@,
                        x,
                    ).components@
                    &&& observer_in(final(self).records@, x).despawned_watched_entities
                        == observer_in(old(self).records@, x).despawned_watched_entities + (
                    if cascade_hits(old(self).records@, e, x) {
                        1int
                    } else {
                        0int
                    })
                },
            old(self).queue@.len() <= final(self).queue@.len(),
            final(self).queue@.subrange(0, old(self).queue@.len() as int) == old(self).queue@,
            forall|j: int|
                old(self).queue@.len() <= j < final(self).queue@.len() ==> {
                    &&& (#[trigger] final(self).queue@[j]) is Despawn
                    &&& pending_in(final(self).records@, final(self).queue@[j]->Despawn_0)
                    &&& is_observer_in(old(self).records@, final(self).queue@[j]->Despawn_0)
                    &&& final(self).queue@[j]->Despawn_0 != e
                },
            forall|x: Entity|
                pending_in(final(self).records@, x) && !pending_in(old(self).records@, x)
                    ==> exists|j: int|
                    old(self).queue@.len() <= j < final(self).queue@.len() && final(self).queue@[j]
                        == Command::Despawn(x),
    {
        let ghost rs0 = old(self).records@;
        let ghost q0 = old(self).queue@;
        if e.id >= self.records.len() {
            proof {
                assert(self.queue@.subrange(0, q0.len() as int) =~= q0);
            }
            return ;
        }
        if !self.records[e.id].alive {
            proof {
                assert(self.queue@.subrange(0, q0.len() as int) =~= q0);
            }
            return ;
        }
        let rec = &mut self.records[e.id];
        rec.alive = false;
        rec.observer = None;
        let taken = rec.observed_by.take();
        let list = match taken {
            Some(ob) => ob.0,
            None => Vec::new(),
        };
        let ghost l = list@;
        proof {
            assert(l == if has_backrefs_in(rs0, e) {
                backrefs_in(rs0, e)
            } else {
                Seq::<Entity>::empty()
            });
            assert(l.no_duplicates() && (forall|i: int|
                0 <= i < l.len() ==> in_world(rs0, #[trigger] l[i]))) by {
                if has_backrefs_in(rs0, e) {
                    assert(alive_in(rs0, e) && has_backrefs_in(rs0, e));
                }
            }
            assert(l.take(0) =~= Seq::<Entity>::empty());
            assert(self.queue@.subrange(0, q0.len() as int) =~= q0);
            lemma_alive_count_kill(rs0, self.records@, e.id as int);
        }
        let mut k: usize = 0;
        while k < list.len()
            invariant
                k <= l.len(),
                list@ == l,
                records_inv(rs0),
                e.id < rs0.len(),
                alive_in(rs0, e),
                l == (if has_backrefs_in(rs0, e) {
                    backrefs_in(rs0, e)
                } else {
                    Seq::<Entity>::empty()
                }),
                l.no_duplicates(),
                forall|i: int| 0 <= i < l.len() ==> in_world(rs0, #[trigger] l[i]),
                self.records@.len() == rs0.len(),
                !self.records@[e.id as int].alive,
                self.records@[e.id as int].observed_by is None,
                self.records@[e.id as int].observer is None,
                forall|x: Entity|
                    x != e && x.id < rs0.len() ==> (#[trigger] self.records@[x.id as int]).alive
                        == rs0[x.id as int].alive && self.records@[x.id as int].observed_by
                        == rs0[x.id as int].observed_by && (self.records@[x.id as int].observer
                        is Some <==> rs0[x.id as int].observer is Some),
                forall|x: Entity|
                    x != e && !alive_in(rs0, x) && x.id < rs0.len() ==> (
                    #[trigger] self.records@[x.id as int]) == rs0[x.id as int],
                forall|x: Entity|
                    x != e && #[trigger] is_observer_in(rs0, x) ==> {
                        &&& observer_in(self.records@, x).entities@ == observer_in(rs0, x).entities@
                        &&& observer_in(self.records@, x).events@ == observer_in(rs0, x).events@
                        &&& observer_in(self.records@, x).components@ == observer_in(
                            rs0,
                            x,
                        ).components@
                        &&& observer_in(self.records@, x).despawned_watched_entities == observer_in(
                            rs0,
                            x,
                        ).despawned_watched_entities + (if l.take(k as int).contains(x) && alive_in(
                            rs0,
                            x,
                        ) {
                            1int
                        } else {
                            0int
                        })
                    },
                alive_count(self.records@) + 1 == alive_count(rs0),
                self.entity_observers@ == old(self).entity_observers@,
                self.component_observers@ == old(self).component_observers@,
                q0.len() <= self.queue@.len(),
                self.queue@.subrange(0, q0.len() as int) == q0,
                forall|j: int|
                    q0.len() <= j < self.queue@.len() ==> {
                        &&& (#[trigger] self.queue@[j]) is Despawn
                        &&& self.queue@[j]->Despawn_0 != e
                        &&& l.take(k as int).contains(self.queue@[j]->Despawn_0)
                        &&& alive_in(self.records@, self.queue@[j]->Despawn_0)
                        &&& is_observer_in(self.records@, self.queue@[j]->Despawn_0)
                        &&& observer_in(
                            self.records@,
                            self.queue@[j]->Despawn_0,
                        ).despawned_watched_entities == watched_in(
                            self.records@,
                            self.queue@[j]->Despawn_0,
                        ).len()
                        &&& watched_in(self.records@, self.queue@[j]->Despawn_0).len() > 0
                    },
                forall|x: Entity|
                    #[trigger] l.take(k as int).contains(x) && alive_in(self.records@, x)
                        && is_observer_in(self.records@, x) && observer_in(
                        self.records@,
                        x,
                    ).despawned_watched_entities == watched_in(self.records@, x).len()
                        && watched_in(self.records@, x).len() > 0 ==> exists|j: int|
                        q0.len() <= j < self.queue@.len() && self.queue@[j] == Command::Despawn(x),
            decreases l.len() - k,
        {
            let o = list[k];
            let ghost rs_pre = self.records@;
            let ghost q_pre = self.queue@;
            proof {
                assert(in_world(rs0, o));
                assert(!l.take(k as int).contains(o)) by {
                    if l.take(k as int).contains(o) {
                        let i = choose|i: int| 0 <= i < k && #[trigger] l.take(k as int)[i] == o;
                        assert(l[i] == l[k as int]);
                    }
                }
            }
            let mut enqueue = false;
            if o.id < self.records.len() {
                let ghost rec_pre = self.records@[o.id as int];
                let orec = &mut self.records[o.id];
                if orec.alive {
                    match &mut orec.observer {
                        Some(st) => {
                            let total = st.entities.len();
                            proof {
                                assert(rec_pre.alive);
                                assert(o != e) by {
                                    if o == e {
                                        assert(rec_pre == rs_pre[e.id as int]);
                                        assert(!rs_pre[e.id as int].alive);
                                    }
                                }
                                assert(alive_in(rs0, o) && is_observer_in(rs0, o));
                                assert(backrefs_in(rs0, e).contains(o)) by {
                                    assert(l[k as int] == o);
                                }
                                assert(watched_in(rs0, o).contains(e));
                                lemma_dead_count_lt(rs0, watched_in(rs0, o), e);
                                assert(st.despawned_watched_entities == observer_in(
                                    rs0,
                                    o,
                                ).despawned_watched_entities);
                                assert(observer_in(rs0, o).despawned_watched_entities == dead_count(
                                    rs0,
                                    watched_in(rs0, o),
                                ));
                                assert(st.entities@ == watched_in(rs0, o).subrange(
                                    0,
                                    watched_in(rs0, o).len() as int,
                                )) by {
                                    assert(st.entities@ == watched_in(rs0, o));
                                    assert(watched_in(rs0, o).subrange(
                                        0,
                                        watched_in(rs0, o).len() as int,
                                    ) =~= watched_in(rs0, o));
                                }
                                assert(st.despawned_watched_entities < total);
                            }
                            st.despawned_watched_entities = st.despawned_watched_entities + 1;
                            if st.despawned_watched_entities == total {
                                enqueue = true;
                            }
                        },
                        None => {},
                    }
                }
            }
            if enqueue {
                self.queue.push(Command::Despawn(o));
            }
            proof {
                assert(self.queue@.subrange(0, q0.len() as int) =~= q0);
                lemma_alive_count_frame(rs_pre, self.records@);
                assert forall|x: Entity|
                    x != e && #[trigger] is_observer_in(rs0, x) implies {
                    &&& observer_in(self.records@, x).entities@ == observer_in(rs0, x).entities@
                    &&& observer_in(self.records@, x).events@ == observer_in(rs0, x).events@
                    &&& observer_in(self.records@, x).components@ == observer_in(rs0, x).components@
                    &&& observer_in(self.records@, x).despawned_watched_entities == observer_in(
                        rs0,
                        x,
                    ).despawned_watched_entities + (if l.take(k as int + 1).contains(x) && alive_in(
                        rs0,
                        x,
                    ) {
                        1int
                    } else {
                        0int
                    })
                } by {
                    crate::entity::lemma_take_succ_contains(l, k as int, x);
                    if x != o {
                        assert(self.records@[x.id as int] == rs_pre[x.id as int]);
                    }
                }
                assert forall|j: int| q0.len() <= j < self.queue@.len() implies {
                    &&& (#[trigger] self.queue@[j]) is Despawn
                    &&& self.queue@[j]->Despawn_0 != e
                    &&& l.take(k as int + 1).contains(self.queue@[j]->Despawn_0)
                    &&& alive_in(self.records@, self.queue@[j]->Despawn_0)
                    &&& is_observer_in(self.records@, self.queue@[j]->Despawn_0)
                    &&& observer_in(
                        self.records@,
                        self.queue@[j]->Despawn_0,
                    ).despawned_watched_entities == watched_in(
                        self.records@,
                        self.queue@[j]->Despawn_0,
                    ).len()
                    &&& watched_in(self.records@, self.queue@[j]->Despawn_0).len() > 0
                } by {
                    if j < q_pre.len() {
                        let x = self.queue@[j]->Despawn_0;
                        crate::entity::lemma_take_succ_contains(l, k as int, x);
                        if x != o {
                            assert(self.records@[x.id as int] == rs_pre[x.id as int]);
                        }
                    } else {
                        assert(self.queue@[j] == Command::Despawn(o));
                        crate::entity::lemma_take_succ_contains(l, k as int, o);
                    }
                }
                assert forall|x: Entity|
                    #[trigger] l.take(k as int + 1).contains(x) && alive_in(self.records@, x)
                        && is_observer_in(self.records@, x) && observer_in(
                        self.records@,
                        x,
                    ).despawned_watched_entities == watched_in(self.records@, x).len()
                        && watched_in(self.records@, x).len() > 0 implies exists|j: int|
                        q0.len() <= j < self.queue@.len() && self.queue@[j] == Command::Despawn(
                        x,
                    ) by {
                    crate::entity::lemma_take_succ_contains(l, k as int, x);
                    if x == o {
                        if !enqueue {
                            assert(false);
                        }
                        assert(self.queue@[self.queue@.len() - 1] == Command::Despawn(o));
                    } else {
                        assert(l.take(k as int).contains(x));
                        assert(self.records@[x.id as int] == rs_pre[x.id as int]);
                        let j = choose|j: int|
                            q0.len() <= j < q_pre.len() && q_pre[j] == Command::Despawn(x);
                        assert(self.queue@[j] == Command::Despawn(x));
                    }
                }
            }
            k = k + 1;
        }
        proof {
            assert(l.take(l.len() as int) =~= l);
            let rs2 = self.records@;
            // the record store's invariant is restored
            assert forall|x: Entity| #[trigger] is_observer_in(rs2, x) && alive_in(rs2, x) implies {
                &&& watched_in(rs2, x).no_duplicates()
                &&& (forall|i: int|
                    0 <= i < watched_in(rs2, x).len() ==> in_world(
                        rs2,
                        #[trigger] watched_in(rs2, x)[i],
                    ))
                &&& observer_in(rs2, x).despawned_watched_entities == dead_count(
                    rs2,
                    watched_in(rs2, x),
                )
            } by {
                assert(x != e);
                assert(is_observer_in(rs0, x) && alive_in(rs0, x));
                assert(watched_in(rs2, x) == watched_in(rs0, x));
                assert forall|i: int|
                    0 <= i < watched_in(rs0, x).len() && watched_in(rs0, x)[i] != e implies
                    alive_in(rs2, #[trigger] watched_in(rs0, x)[i]) == alive_in(
                        rs0,
                        watched_in(rs0, x)[i],
                    ) by {
                    assert(in_world(rs0, watched_in(rs0, x)[i]));
                }
                lemma_dead_count_kill(rs0, rs2, watched_in(rs0, x), e);
                if watched_in(rs0, x).contains(e) {
                    assert(backrefs_in(rs0, e).contains(x));
                    assert(l.contains(x));
                } else {
                    if l.contains(x) {
                        assert(backrefs_in(rs0, e).contains(x));
                        assert(watched_in(rs0, x).contains(e));
                    }
                }
            }
            assert forall|x: Entity| alive_in(rs2, x) && #[trigger] has_backrefs_in(rs2, x) implies {
                &&& backrefs_in(rs2, x).no_duplicates()
                &&& (forall|i: int|
                    0 <= i < backrefs_in(rs2, x).len() ==> {
                        &&& in_world(rs2, #[trigger] backrefs_in(rs2, x)[i])
                        &&& (alive_in(rs2, backrefs_in(rs2, x)[i]) ==> is_observer_in(
                            rs2,
                            backrefs_in(rs2, x)[i],
                        ))
                    })
            } by {
                assert(x != e);
                assert(alive_in(rs0, x) && has_backrefs_in(rs0, x));
                assert(backrefs_in(rs2, x) == backrefs_in(rs0, x));
                assert forall|i: int| 0 <= i < backrefs_in(rs0, x).len() implies {
                    &&& in_world(rs2, #[trigger] backrefs_in(rs0, x)[i])
                    &&& (alive_in(rs2, backrefs_in(rs0, x)[i]) ==> is_observer_in(
                        rs2,
                        backrefs_in(rs0, x)[i],
                    ))
                } by {
                    let m = backrefs_in(rs0, x)[i];
                    assert(in_world(rs0, m));
                    if alive_in(rs2, m) {
                        assert(m != e);
                        assert(alive_in(rs0, m));
                        assert(is_observer_in(rs0, m));
                    }
                }
            }
            assert forall|x: Entity, o2: Entity|
                alive_in(rs2, x) && has_backrefs_in(rs2, x) && #[trigger] backrefs_in(
                    rs2,
                    x,
                ).contains(o2) && alive_in(rs2, o2) implies is_observer_in(rs2, o2) && watched_in(
                rs2,
                o2,
            ).contains(x) by {
                assert(x != e && o2 != e);
                assert(backrefs_in(rs0, x).contains(o2));
                assert(alive_in(rs0, x) && has_backrefs_in(rs0, x) && alive_in(rs0, o2));
                assert(is_observer_in(rs0, o2) && watched_in(rs0, o2).contains(x));
                assert(watched_in(rs2, o2) == watched_in(rs0, o2));
            }
            assert forall|o2: Entity, x: Entity|
                alive_in(rs2, o2) && is_observer_in(rs2, o2) && #[trigger] watched_in(
                    rs2,
                    o2,
                ).contains(x) && alive_in(rs2, x) implies has_backrefs_in(rs2, x) && backrefs_in(
                rs2,
                x,
            ).contains(o2) by {
                assert(o2 != e && x != e);
                assert(is_observer_in(rs0, o2));
                assert(watched_in(rs2, o2) == watched_in(rs0, o2));
                assert(watched_in(rs0, o2).contains(x));
                assert(alive_in(rs0, o2) && is_observer_in(rs0, o2) && alive_in(rs0, x));
                assert(has_backrefs_in(rs0, x) && backrefs_in(rs0, x).contains(o2));
            }
            // every newly due observer has a command
            assert forall|x: Entity|
                pending_in(rs2, x) && !pending_in(rs0, x) implies exists|j: int|
                    q0.len() <= j < self.queue@.len() && self.queue@[j] == Command::Despawn(
                    x,
                ) by {
                assert(x != e);
                assert(alive_in(rs0, x) && is_observer_in(rs0, x));
                assert(watched_in(rs2, x) == watched_in(rs0, x));
                if !l.contains(x) {
                    assert(observer_in(rs2, x).despawned_watched_entities == observer_in(
                        rs0,
                        x,
                    ).despawned_watched_entities);
                    assert(pending_in(rs0, x));
                } else {
                    assert(l.take(l.len() as int).contains(x));
                }
            }
        }
    }

    /// Drains the deferred command queue in FIFO order. Each despawn command
    /// re-enters the removal hook, so cascades (observers watching observers)
    /// resolve in this single pass; commands enqueued while draining run after
    /// the ones already queued.
    fn drain_despawns(&mut self)
        requires
            old(self).inv(),
            forall|j: int|
                0 <= j < old(self).queue@.len() ==> (#[trigger] old(self).queue@[j]) is Despawn
                    && is_observer_in(old(self).records@, old(self).queue@[j]->Despawn_0),
            forall|x: Entity|
                pending_in(old(self).records@, x) ==> exists|j: int|
                    0 <= j < old(self).queue@.len() && old(self).queue@[j] == Command::Despawn(x),
        ensures
            final(self).wf(),
            final(self).records@.len() == old(self).records@.len(),
            final(self).entity_observers@ == old(self).entity_observers@,
            final(self).component_observers@ == old(self).component_observers@,
            final(self).queue@.len() == 0,
            old(self).queue@.len() == 0 ==> final(self).records@ == old(self).records@,
            forall|x: Entity|
                alive_in(final(self).records@, x) ==> alive_in(old(self).records@, x),
            forall|x: Entity|
                is_observer_in(final(self).records@, x) ==> is_observer_in(old(self).records@, x),
            forall|x: Entity|
                alive_in(old(self).records@, x) && !is_observer_in(old(self).records@, x) ==> (#[trigger] final(self).records@[x.id as int]) == old(self).records@[x.id as int],
            forall|x: Entity|
                alive_in(final(self).records@, x) && #[trigger] is_observer_in(final(self).records@, x) ==> {
                    &&& observer_in(final(self).records@, x).entities@ == observer_in(
                        old(self).records@,
                        x,
                    ).entities@
                    &&& observer_in(final(self).records@, x).events@ == observer_in(
                        old(self).records@,
                        x,
                    ).events@
                    &&& observer_in(final(self).records@, x).components@ == observer_in(
                        old(self).records@,
                        x,
                    ).components@
                },
            forall|o2: Entity|
                #[trigger] safe_observer(*old(self), o2) ==> alive_in(final(self).records@, o2)
                    && is_observer_in(final(self).records@, o2),
    {
        let mut i: usize = 0;
        while i < self.queue.len()
            invariant
                i <= self.queue@.len(),
                self.inv(),
                old(self).queue@.len() == 0 ==> i == 0 && self.queue@.len() == 0
                    && self.records@ == old(self).records@,
                self.records@.len() == old(self).records@.len(),
                self.entity_observers@ == old(self).entity_observers@,
                self.component_observers@ == old(self).component_observers@,
                forall|j: int|
                    0 <= j < self.queue@.len() ==> (#[trigger] self.queue@[j]) is Despawn
                        && is_observer_in(old(self).records@, self.queue@[j]->Despawn_0),
                forall|x: Entity|
                    pending_in(self.records@, x) ==> exists|j: int|
                        i <= j < self.queue@.len() && self.queue@[j] == Command::Despawn(x),
                forall|x: Entity| alive_in(self.records@, x) ==> alive_in(old(self).records@, x),
                forall|x: Entity|
                    is_observer_in(self.records@, x) ==> is_observer_in(old(self).records@, x),
                forall|x: Entity|
                    alive_in(old(self).records@, x) && !is_observer_in(old(self).records@, x)
                        ==> (#[trigger] self.records@[x.id as int]) == old(self).records@[x.id as int],
                forall|x: Entity|
                    alive_in(self.records@, x) && #[trigger] is_observer_in(self.records@, x)
                        ==> {
                        &&& observer_in(self.records@, x).entities@ == observer_in(
                            old(self).records@,
                            x,
                        ).entities@
                        &&& observer_in(self.records@, x).events@ == observer_in(
                            old(self).records@,
                            x,
                        ).events@
                        &&& observer_in(self.records@, x).components@ == observer_in(
                            old(self).records@,
                            x,
                        ).components@
                    },
                forall|o2: Entity|
                    #[trigger] safe_observer(*old(self), o2) ==> alive_in(self.records@, o2)
                        && is_observer_in(self.records@, o2) && (forall|j: int|
                        i <= j < self.queue@.len() ==> #[trigger] self.queue@[j]
                            != Command::Despawn(o2)),
            decreases alive_count(self.records@), self.queue@.len() - i,
        {
            let cmd = self.queue[i];
            let ghost pre = *self;
            match cmd {
                Command::Despawn(y) => {
                    self.despawn_inner(y);
                    proof {
                        assert forall|j: int| 0 <= j < pre.queue@.len() implies self.queue@[j]
                            == pre.queue@[j] by {
                            assert(self.queue@.subrange(0, pre.queue@.len() as int)[j]
                                == self.queue@[j]);
                        }
                        assert forall|j: int|
                            0 <= j < self.queue@.len() implies (#[trigger] self.queue@[j])
                            is Despawn && is_observer_in(
                            old(self).records@,
                            self.queue@[j]->Despawn_0,
                        ) by {
                            if j >= pre.queue@.len() {
                                assert(pending_in(self.records@, self.queue@[j]->Despawn_0));
                                assert(is_observer_in(pre.records@, self.queue@[j]->Despawn_0));
                            } else {
                                assert(self.queue@[j] == pre.queue@[j]);
                                assert(pre.queue@[j] is Despawn);
                                assert(is_observer_in(
                                    old(self).records@,
                                    pre.queue@[j]->Despawn_0,
                                ));
                            }
                        }
                        assert forall|x: Entity| pending_in(self.records@, x) implies exists|j: int|
                            i + 1 <= j < self.queue@.len() && self.queue@[j] == Command::Despawn(
                            x,
                        ) by {
                            if pending_in(pre.records@, x) {
                                let j = choose|j: int|
                                    i <= j < pre.queue@.len() && pre.queue@[j] == Command::Despawn(
                                    x,
                                    );
                                assert(x != y) by {
                                    if x == y {
                                        assert(!alive_in(self.records@, y));
                                    }
                                }
                                assert(j != i);
                                assert(self.queue@[j] == Command::Despawn(x));
                            } else {
                                let j = choose|j: int|
                                    pre.queue@.len() <= j < self.queue@.len() && self.queue@[j]
                                        == Command::Despawn(x);
                                assert(i + 1 <= j);
                            }
                        }
                        assert forall|o2: Entity| #[trigger] safe_observer(*old(self), o2) implies
                            alive_in(self.records@, o2) && is_observer_in(self.records@, o2) && (
                        forall|j: int|
                            i + 1 <= j < self.queue@.len() ==> #[trigger] self.queue@[j]
                                != Command::Despawn(o2)) by {
                            assert(alive_in(pre.records@, o2) && is_observer_in(pre.records@, o2));
                            assert(pre.queue@[i as int] != Command::Despawn(o2));
                            assert(y != o2);
                            assert(alive_in(self.records@, o2));
                            assert(is_observer_in(self.records@, o2));
                            let s = choose|s: Entity|
                                #[trigger] watched_in(old(self).records@, o2).contains(s)
                                    && alive_in(old(self).records@, s) && !is_observer_in(
                                    old(self).records@,
                                    s,
                                );
                            assert(pre.records@[s.id as int] == old(self).records@[s.id as int]);
                            assert(!is_observer_in(pre.records@, s)) by {
                                if is_observer_in(pre.records@, s) {
                                    assert(is_observer_in(old(self).records@, s));
                                }
                            }
                            assert(s != y) by {
                                if s == y {
                                    assert(is_observer_in(old(self).records@, y));
                                }
                            }
                            assert(self.records@[s.id as int].observed_by
                                == pre.records@[s.id as int].observed_by);
                            assert(alive_in(self.records@, s) == alive_in(pre.records@, s));
                            assert(alive_in(self.records@, s));
                            assert(is_observer_in(pre.records@, o2) && alive_in(pre.records@, o2));
                            assert(observer_in(self.records@, o2).entities@ == observer_in(
                                pre.records@,
                                o2,
                            ).entities@);
                            assert(observer_in(pre.records@, o2).entities@ == observer_in(
                                old(self).records@,
                                o2,
                            ).entities@);
                            assert(watched_in(self.records@, o2) == watched_in(
                                old(self).records@,
                                o2,
                            ));
                            assert(watched_in(self.records@, o2).contains(s));
                            lemma_dead_count_lt(self.records@, watched_in(self.records@, o2), s);
                            assert(!pending_in(self.records@, o2));
                            assert forall|j: int|
                                i + 1 <= j < self.queue@.len() implies #[trigger] self.queue@[j]
                                != Command::Despawn(o2) by {
                                if j < pre.queue@.len() {
                                    assert(self.queue@[j] == pre.queue@[j]);
                                } else {
                                    assert(pending_in(
                                        self.records@,
                                        self.queue@[j]->Despawn_0,
                                    ));
                                }
                            }
                        }
                        assert forall|x: Entity| alive_in(self.records@, x) implies alive_in(
                            old(self).records@,
                            x,
                        ) by {
                            if x != y {
                                assert(alive_in(self.records@, x) == alive_in(pre.records@, x));
                            } else {
                                assert(!alive_in(self.records@, y));
                            }
                        }
                        assert forall|x: Entity|
                            is_observer_in(self.records@, x) implies is_observer_in(
                            old(self).records@,
                            x,
                        ) by {
                            if x != y {
                                assert(is_observer_in(self.records@, x) <==> is_observer_in(
                                    pre.records@,
                                    x,
                                ));
                            } else {
                                if alive_in(pre.records@, y) {
                                    assert(self.records@[y.id as int].observer is None);
                                } else {
                                    assert(self.records@ == pre.records@);
                                }
                            }
                        }
                        assert forall|x: Entity|
                            alive_in(old(self).records@, x) && !is_observer_in(
                                old(self).records@,
                                x,
                            ) implies (#[trigger] self.records@[x.id as int]) == old(self).records@[x.id as int] by {
                            assert(pre.records@[x.id as int] == old(self).records@[x.id as int]);
                            assert(x != y) by {
                                if x == y {
                                    assert(is_observer_in(old(self).records@, y));
                                }
                            }
                            assert(self.records@[x.id as int].observed_by
                                == pre.records@[x.id as int].observed_by);
                            assert(alive_in(self.records@, x) == alive_in(pre.records@, x));
                            assert(!is_observer_in(pre.records@, x));
                            assert(pre.records@[x.id as int].observer is None);
                            assert(self.records@[x.id as int].observer is None);
                            assert(self.records@[x.id as int].alive
                                == pre.records@[x.id as int].alive);
                        }
                        assert forall|x: Entity|
                            alive_in(self.records@, x) && #[trigger] is_observer_in(
                                self.records@,
                                x,
                            ) implies {
                            &&& observer_in(self.records@, x).entities@ == observer_in(
                                old(self).records@,
                                x,
                            ).entities@
                            &&& observer_in(self.records@, x).events@ == observer_in(
                                old(self).records@,
                                x,
                            ).events@
                            &&& observer_in(self.records@, x).components@ == observer_in(
                                old(self).records@,
                                x,
                            ).components@
                        } by {
                            assert(x != y) by {
                                if x == y {
                                    assert(!alive_in(self.records@, y));
                                }
                            }
                            assert(is_observer_in(pre.records@, x));
                            assert(alive_in(pre.records@, x));
                        }
                    }
                },
                Command::PropagateObservers(_, _) => {
                    proof {
                        assert(self.queue@[i as int] is Despawn);
                        assert(false);
                    }
                },
            }
            i = i + 1;
        }
        proof {
            assert forall|x: Entity| !#[trigger] pending_in(self.records@, x) by {
                if pending_in(self.records@, x) {
                    let j = choose|j: int|
                        i <= j < self.queue@.len() && self.queue@[j] == Command::Despawn(x);
                }
            }
        }
        self.queue.clear();
    }

    /// Removes entity `e` from the world. The removal hook runs the despawn
    /// cascade on `e`'s back-reference record, and the deferred commands it
    /// enqueued — despawns of observers left with no live subject — are
    /// drained, in order, before this returns; each of those despawns
    /// re-enters the hook, so chains of observers watching observers resolve
    /// here too. Removing an entity that is already gone is a benign no-op.
    pub fn despawn(&mut self, e: Entity)
        requires
            old(self).wf(),
        ensures
            final(self).wf(),
            !final(self).spec_is_alive(e),
            final(self).records@.len() == old(self).records@.len(),
            final(self).entity_observers@ == old(self).entity_observers@,
            final(self).component_observers@ == old(self).component_observers@,
            !old(self).spec_is_alive(e) ==> final(self).records@ == old(self).records@,
            forall|x: Entity| final(self).spec_is_alive(x) ==> old(self).spec_is_alive(x),
            forall|x: Entity|
                final(self).spec_is_observer(x) ==> old(self).spec_is_observer(x),
            forall|x: Entity|
                x != e && old(self).spec_is_alive(x) && !old(self).spec_is_observer(x) ==> (
                #[trigger] final(self).records@[x.id as int]) == old(self).records@[x.id as int]
                    && final(self).spec_is_alive(x),
            forall|o2: Entity, s: Entity|
                old(self).spec_is_alive(o2) && old(self).spec_is_observer(o2) && o2 != e && (
                #[trigger] old(self).spec_watched(o2).contains(s)) && old(self).spec_is_alive(s)
                    && !old(self).spec_is_observer(s) && s != e ==> final(self).spec_is_alive(o2)
                    && final(self).spec_is_observer(o2) && final(self).spec_watched(o2) == old(self).spec_watched(o2),
    {
        let ghost w0 = *old(self);
        self.despawn_inner(e);
        let ghost mid = *self;
        proof {
            assert forall|j: int|
                0 <= j < self.queue@.len() implies (#[trigger] self.queue@[j]) is Despawn
                && is_observer_in(self.records@, self.queue@[j]->Despawn_0) by {
                assert(pending_in(self.records@, self.queue@[j]->Despawn_0));
            }
            assert forall|x: Entity| pending_in(self.records@, x) implies exists|j: int|
                0 <= j < self.queue@.len() && self.queue@[j] == Command::Despawn(x) by {
                assert(!pending_in(w0.records@, x));
            }
        }
        self.drain_despawns();
        proof {
            assert forall|x: Entity|
                is_observer_in(self.records@, x) implies is_observer_in(w0.records@, x) by {
                assert(is_observer_in(mid.records@, x));
                if x == e {
                    if alive_in(w0.records@, e) {
                        assert(mid.records@[e.id as int].observer is None);
                    } else {
                        assert(mid.records@ == w0.records@);
                    }
                }
            }
            assert forall|x: Entity|
                alive_in(self.records@, x) implies alive_in(w0.records@, x) by {
                assert(alive_in(mid.records@, x));
                if x == e {
                    assert(!alive_in(mid.records@, e));
                }
            }
            assert forall|o2: Entity, s: Entity|
                alive_in(w0.records@, o2) && is_observer_in(w0.records@, o2) && o2 != e && (
                #[trigger] watched_in(w0.records@, o2).contains(s)) && alive_in(w0.records@, s)
                    && !is_observer_in(w0.records@, s) && s != e implies alive_in(
                self.records@,
                o2,
            ) && is_observer_in(self.records@, o2) && watched_in(self.records@, o2) == watched_in(
                w0.records@,
                o2,
            ) by {
                assert(alive_in(mid.records@, o2) && is_observer_in(mid.records@, o2));
                assert(watched_in(mid.records@, o2) == watched_in(w0.records@, o2));
                assert(mid.records@[s.id as int].observed_by
                    == w0.records@[s.id as int].observed_by);
                assert(alive_in(mid.records@, s));
                assert(!is_observer_in(mid.records@, s));
                assert(safe_observer(mid, o2)) by {
                    assert(watched_in(mid.records@, o2).contains(s));
                    assert forall|j: int| 0 <= j < mid.queue@.len() implies #[trigger] mid.queue@[j]
                        != Command::Despawn(o2) by {
                        assert(pending_in(mid.records@, mid.queue@[j]->Despawn_0));
                        lemma_dead_count_lt(mid.records@, watched_in(mid.records@, o2), s);
                        assert(!pending_in(mid.records@, o2));
                    }
                }
                assert(watched_in(self.records@, o2) == watched_in(mid.records@, o2));
            }
            assert forall|x: Entity|
                x != e && alive_in(w0.records@, x) && !is_observer_in(w0.records@, x) implies (
            #[trigger] self.records@[x.id as int]) == w0.records@[x.id as int] && alive_in(
                self.records@,
                x,
            ) by {
                assert(mid.records@[x.id as int].observed_by == w0.records@[x.id as int].observed_by);
                assert(alive_in(mid.records@, x) == alive_in(w0.records@, x));
                assert(!is_observer_in(mid.records@, x));
                assert(mid.records@[x.id as int].observer is None);
                assert(w0.records@[x.id as int].observer is None);
                assert(mid.records@[x.id as int].alive == w0.records@[x.id as int].alive);
                assert(mid.records@[x.id as int] == w0.records@[x.id as int]);
                assert(self.records@[x.id as int] == mid.records@[x.id as int]);
            }
        }
    }

    /// Drains any outstanding deferred commands. Every operation of this
    /// subsystem drains its own commands before returning, so between
    /// operations the queue is empty and this is a no-op; it marks the flush
    /// points at which the owning runtime would apply deferred work.
    pub fn flush(&mut self)
        requires
            old(self).wf(),
        ensures
            final(self).wf(),
            final(self).records@ == old(self).records@,
            final(self).entity_observers@ == old(self).entity_observers@,
            final(self).component_observers@ == old(self).component_observers@,
            final(self).queue@ == old(self).queue@,
    {
        self.drain_despawns();
        proof {
            assert(self.queue@ =~= old(self).queue@);
        }
    }
}

/// Appending a fresh empty record preserves the record store's invariant:
/// every existing record is unchanged, and the new slot carries no observer
/// descriptor and no back-reference record.
pub proof fn lemma_records_inv_grow(rs: Seq<EntityRecord>, rs2: Seq<EntityRecord>)
    requires
        records_inv(rs),
        rs2 == rs.push((EntityRecord { alive: true, observed_by: None, observer: None })),
    ensures
        records_inv(rs2),
{
    assert forall|o: Entity| #[trigger] is_observer_in(rs2, o) && alive_in(rs2, o) implies {
        &&& watched_in(rs2, o).no_duplicates()
        &&& (forall|i: int|
            0 <= i < watched_in(rs2, o).len() ==> in_world(rs2, #[trigger] watched_in(rs2, o)[i]))
        &&& observer_in(rs2, o).despawned_watched_entities == dead_count(rs2, watched_in(rs2, o))
    } by {
        assert(o.id != rs.len());
        assert(is_observer_in(rs, o) && alive_in(rs, o));
        assert(watched_in(rs2, o) == watched_in(rs, o));
        assert forall|i: int| 0 <= i < watched_in(rs, o).len() implies alive_in(
            rs2,
            watched_in(rs, o)[i],
        ) == alive_in(rs, watched_in(rs, o)[i]) by {
            assert(in_world(rs, watched_in(rs, o)[i]));
        }
        lemma_dead_count_frame(rs, rs2, watched_in(rs, o));
    }
    assert forall|e: Entity| alive_in(rs2, e) && #[trigger] has_backrefs_in(rs2, e) implies {
        &&& backrefs_in(rs2, e).no_duplicates()
        &&& (forall|i: int|
            0 <= i < backrefs_in(rs2, e).len() ==> {
                &&& in_world(rs2, #[trigger] backrefs_in(rs2, e)[i])
                &&& (alive_in(rs2, backrefs_in(rs2, e)[i]) ==> is_observer_in(
                    rs2,
                    backrefs_in(rs2, e)[i],
                ))
            })
    } by {
        assert(e.id != rs.len());
        assert(alive_in(rs, e) && has_backrefs_in(rs, e));
        assert(backrefs_in(rs2, e) == backrefs_in(rs, e));
        assert forall|i: int| 0 <= i < backrefs_in(rs, e).len() implies {
            &&& in_world(rs2, #[trigger] backrefs_in(rs, e)[i])
            &&& (alive_in(rs2, backrefs_in(rs, e)[i]) ==> is_observer_in(
                rs2,
                backrefs_in(rs, e)[i],
            ))
        } by {
            assert(in_world(rs, backrefs_in(rs, e)[i]));
        }
    }
    assert forall|e: Entity, o: Entity|
        alive_in(rs2, e) && has_backrefs_in(rs2, e) && #[trigger] backrefs_in(rs2, e).contains(o)
            && alive_in(rs2, o) implies is_observer_in(rs2, o) && watched_in(rs2, o).contains(
        e,
    ) by {
        assert(e.id != rs.len());
        assert(backrefs_in(rs, e).contains(o));
        let i = choose|i: int| 0 <= i < backrefs_in(rs, e).len() && backrefs_in(rs, e)[i] == o;
        assert(in_world(rs, o));
        assert(alive_in(rs, o));
        assert(watched_in(rs, o).contains(e));
    }
    assert forall|o: Entity, e: Entity|
        alive_in(rs2, o) && is_observer_in(rs2, o) && #[trigger] watched_in(rs2, o).contains(e)
            && alive_in(rs2, e) implies has_backrefs_in(rs2, e) && backrefs_in(rs2, e).contains(
        o,
    ) by {
        assert(o.id != rs.len());
        assert(is_observer_in(rs, o) && alive_in(rs, o));
        assert(watched_in(rs, o).contains(e));
        let i = choose|i: int| 0 <= i < watched_in(rs, o).len() && watched_in(rs, o)[i] == e;
        assert(in_world(rs, watched_in(rs, o)[i]));
        assert(in_world(rs, e));
        assert(alive_in(rs, e));
        assert(backrefs_in(rs, e).contains(o));
    }
}

/// The removed-subject count of a list never exceeds its length.
pub proof fn lemma_dead_count_le(rs: Seq<EntityRecord>, s: Seq<Entity>)
    ensures
        dead_count(rs, s) <= s.len(),
    decreases s.len(),
{
    if s.len() > 0 {
        lemma_dead_count_le(rs, s.drop_last());
    }
}

/// If every entity of `s` has the same liveness in both stores, the
/// removed-subject count agrees.
pub proof fn lemma_dead_count_frame(rs1: Seq<EntityRecord>, rs2: Seq<EntityRecord>, s: Seq<Entity>)
    requires
        forall|i: int| 0 <= i < s.len() ==> alive_in(rs1, #[trigger] s[i]) == alive_in(rs2, s[i]),
    ensures
        dead_count(rs1, s) == dead_count(rs2, s),
    decreases s.len(),
{
    if s.len() > 0 {
        assert forall|i: int| 0 <= i < s.drop_last().len() implies alive_in(
            rs1,
            #[trigger] s.drop_last()[i],
        ) == alive_in(rs2, s.drop_last()[i]) by {
            assert(s.drop_last()[i] == s[i]);
        }
        assert(s.last() == s[s.len() - 1]);
        lemma_dead_count_frame(rs1, rs2, s.drop_last());
    }
}

/// Appending one entity adds one to the removed-subject count exactly when
/// that entity is not alive.
pub proof fn lemma_dead_count_push(rs: Seq<EntityRecord>, s: Seq<Entity>, e: Entity)
    ensures
        dead_count(rs, s.push(e)) == dead_count(rs, s) + (if alive_in(rs, e) {
            0nat
        } else {
            1nat
        }),
{
    assert(s.push(e).drop_last() =~= s);
    assert(s.push(e).last() == e);
}

/// If a single entity `x` flips from alive to dead and every other member of
/// a duplicate-free list keeps its liveness, the removed-subject count grows
/// by one exactly when the list contains `x`.
pub proof fn lemma_dead_count_kill(
    rs1: Seq<EntityRecord>,
    rs2: Seq<EntityRecord>,
    s: Seq<Entity>,
    x: Entity,
)
    requires
        s.no_duplicates(),
        forall|i: int|
            0 <= i < s.len() && s[i] != x ==> alive_in(rs1, #[trigger] s[i]) == alive_in(rs2, s[i]),
        alive_in(rs1, x),
        !alive_in(rs2, x),
    ensures
        dead_count(rs2, s) == dead_count(rs1, s) + (if s.contains(x) {
            1nat
        } else {
            0nat
        }),
    decreases s.len(),
{
    if s.len() == 0 {
        assert(!s.contains(x));
    } else {
        let d = s.drop_last();
        assert(d.no_duplicates());
        assert forall|i: int| 0 <= i < d.len() && d[i] != x implies alive_in(
            rs1,
            #[trigger] d[i],
        ) == alive_in(rs2, d[i]) by {
            assert(d[i] == s[i]);
        }
        lemma_dead_count_kill(rs1, rs2, d, x);
        assert(s.last() == s[s.len() - 1]);
        if s.last() == x {
            assert(!d.contains(x)) by {
                if d.contains(x) {
                    let i = choose|i: int| 0 <= i < d.len() && d[i] == x;
                    assert(s[i] == s[s.len() - 1]);
                }
            }
            assert(s.contains(x));
        } else {
            assert(s.contains(x) == d.contains(x)) by {
                if s.contains(x) {
                    let i = choose|i: int| 0 <= i < s.len() && s[i] == x;
                    assert(0 <= i < d.len() && d[i] == x);
                }
                if d.contains(x) {
                    let i = choose|i: int| 0 <= i < d.len() && d[i] == x;
                    assert(s[i] == x);
                }
            }
        }
    }
}

/// If every entity of `s` is dead, the removed-subject count is the whole
/// length.
pub proof fn lemma_dead_count_all_dead(rs: Seq<EntityRecord>, s: Seq<Entity>)
    requires
        forall|i: int| 0 <= i < s.len() ==> !alive_in(rs, #[trigger] s[i]),
    ensures
        dead_count(rs, s) == s.len(),
    decreases s.len(),
{
    if s.len() > 0 {
        assert forall|i: int| 0 <= i < s.drop_last().len() implies !alive_in(
            rs,
            #[trigger] s.drop_last()[i],
        ) by {
            assert(s.drop_last()[i] == s[i]);
        }
        assert(s.last() == s[s.len() - 1]);
        lemma_dead_count_all_dead(rs, s.drop_last());
    }
}

/// If every entity of `s` is alive, the removed-subject count is zero.
pub proof fn lemma_dead_count_all_alive(rs: Seq<EntityRecord>, s: Seq<Entity>)
    requires
        forall|i: int| 0 <= i < s.len() ==> alive_in(rs, #[trigger] s[i]),
    ensures
        dead_count(rs, s) == 0,
    decreases s.len(),
{
    if s.len() > 0 {
        assert forall|i: int| 0 <= i < s.drop_last().len() implies alive_in(
            rs,
            #[trigger] s.drop_last()[i],
        ) by {
            assert(s.drop_last()[i] == s[i]);
        }
        assert(s.last() == s[s.len() - 1]);
        lemma_dead_count_all_alive(rs, s.drop_last());
    }
}

/// Registering a fresh observer preserves the record store's invariant: a new
/// slot holds the observer's descriptor watching the (alive, duplicate-free)
/// targets, and each target's back-reference list gains the observer at its
/// end; every other record is unchanged.
pub proof fn lemma_records_inv_register(
    rs: Seq<EntityRecord>,
    rs2: Seq<EntityRecord>,
    tg: Seq<Entity>,
    o: Entity,
)
    requires
        records_inv(rs),
        no_pending(rs),
        tg.no_duplicates(),
        forall|i: int| 0 <= i < tg.len() ==> alive_in(rs, #[trigger] tg[i]),
        o.id == rs.len(),
        rs2.len() == rs.len() + 1,
        alive_in(rs2, o),
        is_observer_in(rs2, o),
        !has_backrefs_in(rs2, o),
        watched_in(rs2, o) == tg,
        observer_in(rs2, o).despawned_watched_entities == 0,
        forall|j: int|
            0 <= j < rs.len() ==> (#[trigger] rs2[j]).alive == rs[j].alive && rs2[j].observer
                == rs[j].observer,
        forall|x: Entity|
            x.id < rs.len() && !tg.contains(x) ==> rs2[x.id as int].observed_by == (
            #[trigger] rs[x.id as int]).observed_by,
        forall|i: int|
            0 <= i < tg.len() ==> has_backrefs_in(rs2, #[trigger] tg[i]) && backrefs_in(rs2, tg[i])
                == appended_backrefs(rs, tg[i], o),
    ensures
        records_inv(rs2),
        no_pending(rs2),
{
    assert forall|i: int| 0 <= i < tg.len() implies in_world(rs, #[trigger] tg[i]) && tg[i].id
        != o.id by {
        assert(alive_in(rs, tg[i]));
    }
    // observer descriptors: shape and counts
    assert forall|o2: Entity| #[trigger] is_observer_in(rs2, o2) && alive_in(rs2, o2) implies {
        &&& watched_in(rs2, o2).no_duplicates()
        &&& (forall|i: int|
            0 <= i < watched_in(rs2, o2).len() ==> in_world(
                rs2,
                #[trigger] watched_in(rs2, o2)[i],
            ))
        &&& observer_in(rs2, o2).despawned_watched_entities == dead_count(rs2, watched_in(rs2, o2))
    } by {
        if o2.id == o.id {
            assert(watched_in(rs2, o2) == tg);
            assert forall|i: int| 0 <= i < tg.len() implies alive_in(rs2, #[trigger] tg[i]) by {
                assert(alive_in(rs, tg[i]));
            }
            lemma_dead_count_all_alive(rs2, tg);
        } else {
            assert(is_observer_in(rs, o2) && alive_in(rs, o2));
            assert(watched_in(rs2, o2) == watched_in(rs, o2));
            assert forall|i: int| 0 <= i < watched_in(rs, o2).len() implies alive_in(
                rs2,
                #[trigger] watched_in(rs, o2)[i],
            ) == alive_in(rs, watched_in(rs, o2)[i]) by {
                assert(in_world(rs, watched_in(rs, o2)[i]));
            }
            lemma_dead_count_frame(rs, rs2, watched_in(rs, o2));
        }
    }
    // back-reference lists: shape
    assert forall|e: Entity| alive_in(rs2, e) && #[trigger] has_backrefs_in(rs2, e) implies {
        &&& backrefs_in(rs2, e).no_duplicates()
        &&& (forall|i: int|
            0 <= i < backrefs_in(rs2, e).len() ==> {
                &&& in_world(rs2, #[trigger] backrefs_in(rs2, e)[i])
                &&& (alive_in(rs2, backrefs_in(rs2, e)[i]) ==> is_observer_in(
                    rs2,
                    backrefs_in(rs2, e)[i],
                ))
            })
    } by {
        assert(e.id != o.id);
        assert(alive_in(rs, e));
        let base = if has_backrefs_in(rs, e) {
            backrefs_in(rs, e)
        } else {
            Seq::<Entity>::empty()
        };
        if tg.contains(e) {
            assert(backrefs_in(rs2, e) == base.push(o));
            assert(base.no_duplicates());
            assert forall|i: int| 0 <= i < base.len() implies in_world(rs, #[trigger] base[i])
                && base[i].id != o.id && (alive_in(rs2, base[i]) ==> is_observer_in(
                rs2,
                base[i],
            )) by {
                assert(has_backrefs_in(rs, e));
                assert(backrefs_in(rs, e)[i] == base[i]);
            }
            assert(!base.contains(o)) by {
                if base.contains(o) {
                    let i = choose|i: int| 0 <= i < base.len() && base[i] == o;
                }
            }
            crate::entity::lemma_push_no_dup(base, o);
            assert forall|i: int| 0 <= i < base.push(o).len() implies {
                &&& in_world(rs2, #[trigger] base.push(o)[i])
                &&& (alive_in(rs2, base.push(o)[i]) ==> is_observer_in(rs2, base.push(o)[i]))
            } by {
                if i < base.len() {
                    assert(base.push(o)[i] == base[i]);
                } else {
                    assert(base.push(o)[i] == o);
                }
            }
        } else {
            assert(backrefs_in(rs2, e) == backrefs_in(rs, e) && has_backrefs_in(rs, e));
            assert forall|i: int| 0 <= i < backrefs_in(rs, e).len() implies {
                &&& in_world(rs2, #[trigger] backrefs_in(rs, e)[i])
                &&& (alive_in(rs2, backrefs_in(rs, e)[i]) ==> is_observer_in(
                    rs2,
                    backrefs_in(rs, e)[i],
                ))
            } by {
                assert(in_world(rs, backrefs_in(rs, e)[i]));
                assert(backrefs_in(rs, e)[i].id != o.id);
            }
        }
    }
    // back-reference membership implies watch membership
    assert forall|e: Entity, o2: Entity|
        alive_in(rs2, e) && has_backrefs_in(rs2, e) && #[trigger] backrefs_in(rs2, e).contains(o2)
            && alive_in(rs2, o2) implies is_observer_in(rs2, o2) && watched_in(rs2, o2).contains(
        e,
    ) by {
        assert(e.id != o.id);
        assert(alive_in(rs, e));
        let base = if has_backrefs_in(rs, e) {
            backrefs_in(rs, e)
        } else {
            Seq::<Entity>::empty()
        };
        if tg.contains(e) {
            assert(backrefs_in(rs2, e) == base.push(o));
            crate::entity::lemma_push_contains(base, o, o2);
            if o2 == o {
                assert(watched_in(rs2, o) == tg);
            } else {
                assert(base.contains(o2));
                assert(has_backrefs_in(rs, e));
                assert(backrefs_in(rs, e).contains(o2));
                let i = choose|i: int| 0 <= i < base.len() && base[i] == o2;
                assert(in_world(rs, backrefs_in(rs, e)[i]));
                assert(alive_in(rs, o2));
                assert(is_observer_in(rs, o2) && watched_in(rs, o2).contains(e));
                assert(watched_in(rs2, o2) == watched_in(rs, o2));
            }
        } else {
            assert(backrefs_in(rs2, e) == backrefs_in(rs, e) && has_backrefs_in(rs, e));
            let i = choose|i: int|
                0 <= i < backrefs_in(rs, e).len() && backrefs_in(rs, e)[i] == o2;
            assert(in_world(rs, backrefs_in(rs, e)[i]));
            assert(alive_in(rs, o2));
            assert(is_observer_in(rs, o2) && watched_in(rs, o2).contains(e));
            assert(watched_in(rs2, o2) == watched_in(rs, o2));
        }
    }
    // watch membership implies back-reference membership
    assert forall|o2: Entity, e: Entity|
        alive_in(rs2, o2) && is_observer_in(rs2, o2) && #[trigger] watched_in(rs2, o2).contains(e)
            && alive_in(rs2, e) implies has_backrefs_in(rs2, e) && backrefs_in(rs2, e).contains(
        o2,
    ) by {
        let base = if has_backrefs_in(rs, e) {
            backrefs_in(rs, e)
        } else {
            Seq::<Entity>::empty()
        };
        if o2.id == o.id {
            assert(watched_in(rs2, o2) == tg);
            assert(tg.contains(e));
            assert(backrefs_in(rs2, e) == base.push(o));
            crate::entity::lemma_push_contains(base, o, o);
        } else {
            assert(is_observer_in(rs, o2) && alive_in(rs, o2));
            assert(watched_in(rs2, o2) == watched_in(rs, o2));
            let i = choose|i: int|
                0 <= i < watched_in(rs, o2).len() && watched_in(rs, o2)[i] == e;
            assert(in_world(rs, watched_in(rs, o2)[i]));
            assert(alive_in(rs, e));
            assert(has_backrefs_in(rs, e) && backrefs_in(rs, e).contains(o2));
            if tg.contains(e) {
                assert(backrefs_in(rs2, e) == base.push(o));
                crate::entity::lemma_push_contains(base, o, o2);
            } else {
                assert(backrefs_in(rs2, e) == backrefs_in(rs, e));
            }
        }
    }
    // no observer became due for the cascade
    assert forall|o2: Entity| !#[trigger] pending_in(rs2, o2) by {
        if pending_in(rs2, o2) {
            if o2.id == o.id {
                assert(watched_in(rs2, o2) == tg);
            } else {
                assert(pending_in(rs, o2));
            }
        }
    }
}

/// If the removed-subject count falls short of the length, some member is
/// still alive.
pub proof fn lemma_dead_count_partial_implies_alive(rs: Seq<EntityRecord>, s: Seq<Entity>)
    requires
        dead_count(rs, s) < s.len(),
    ensures
        exists|i: int| 0 <= i < s.len() && alive_in(rs, #[trigger] s[i]),
    decreases s.len(),
{
    assert(s.len() > 0);
    assert(s.last() == s[s.len() - 1]);
    if alive_in(rs, s.last()) {
    } else {
        lemma_dead_count_partial_implies_alive(rs, s.drop_last());
        let i = choose|i: int| 0 <= i < s.drop_last().len() && alive_in(rs, #[trigger] s.drop_last()[i]);
        assert(s.drop_last()[i] == s[i]);
    }
}

/// The despawn cascade for removed entity `e` reaches observer `x`: `e` was
/// alive with a back-reference record listing `x`, and `x` is alive to receive
/// the count.
pub open spec fn cascade_hits(rs: Seq<EntityRecord>, e: Entity, x: Entity) -> bool {
    alive_in(rs, e) && has_backrefs_in(rs, e) && backrefs_in(rs, e).contains(x) && alive_in(rs, x)
}

/// Observer `o2` is out of the despawn cascade's reach in world `w`: no
/// queued command despawns it, and it watches at least one alive entity that
/// is not itself an observer (so no chain of cascaded despawns can empty its
/// subject list).
pub open spec fn safe_observer(w: World, o2: Entity) -> bool {
    &&& alive_in(w.records@, o2)
    &&& is_observer_in(w.records@, o2)
    &&& (forall|j: int| 0 <= j < w.queue@.len() ==> #[trigger] w.queue@[j] != Command::Despawn(o2))
    &&& exists|s: Entity|
        #[trigger] watched_in(w.records@, o2).contains(s) && alive_in(w.records@, s)
            && !is_observer_in(w.records@, s)
}

/// If `s` contains an alive entity, the removed-subject count falls short of
/// the length.
pub proof fn lemma_dead_count_lt(rs: Seq<EntityRecord>, s: Seq<Entity>, x: Entity)
    requires
        s.contains(x),
        alive_in(rs, x),
    ensures
        dead_count(rs, s) < s.len(),
    decreases s.len(),
{
    assert(s.len() > 0);
    assert(s.last() == s[s.len() - 1]);
    if s.last() == x {
        lemma_dead_count_le(rs, s.drop_last());
    } else {
        let i = choose|i: int| 0 <= i < s.len() && s[i] == x;
        assert(s.drop_last()[i] == x);
        assert(s.drop_last().contains(x));
        lemma_dead_count_lt(rs, s.drop_last(), x);
    }
}

/// How many slots of the store hold a live entity.
pub open spec fn alive_count(rs: Seq<EntityRecord>) -> nat
    decreases rs.len(),
{
    if rs.len() == 0 {
        0
    } else {
        alive_count(rs.drop_last()) + (if rs.last().alive {
            1nat
        } else {
            0nat
        })
    }
}

/// Killing the single slot `i` lowers the live count by one.
pub proof fn lemma_alive_count_kill(rs1: Seq<EntityRecord>, rs2: Seq<EntityRecord>, i: int)
    requires
        rs1.len() == rs2.len(),
        0 <= i < rs1.len(),
        forall|j: int| 0 <= j < rs1.len() && j != i ==> (#[trigger] rs2[j]).alive == rs1[j].alive,
        rs1[i].alive,
        !rs2[i].alive,
    ensures
        alive_count(rs2) + 1 == alive_count(rs1),
    decreases rs1.len(),
{
    if i == rs1.len() - 1 {
        lemma_alive_count_frame(rs1.drop_last(), rs2.drop_last());
    } else {
        assert(rs1.last().alive == rs2.last().alive);
        lemma_alive_count_kill(rs1.drop_last(), rs2.drop_last(), i);
    }
}

/// Stores with slotwise equal liveness have the same live count.
pub proof fn lemma_alive_count_frame(rs1: Seq<EntityRecord>, rs2: Seq<EntityRecord>)
    requires
        rs1.len() == rs2.len(),
        forall|j: int| 0 <= j < rs1.len() ==> (#[trigger] rs2[j]).alive == rs1[j].alive,
    ensures
        alive_count(rs2) == alive_count(rs1),
    decreases rs1.len(),
{
    if rs1.len() > 0 {
        lemma_alive_count_frame(rs1.drop_last(), rs2.drop_last());
    }
}

/// How many of the listed observer entities are alive and still carry their
/// descriptor, so that dispatch would invoke their reactions; stale entries
/// for removed observers are skipped.
pub open spec fn live_observer_count(rs: Seq<EntityRecord>, b: Seq<Entity>) -> nat
    decreases b.len(),
{
    if b.len() == 0 {
        0
    } else {
        live_observer_count(rs, b.drop_last()) + (if alive_in(rs, b.last()) && is_observer_in(
            rs,
            b.last(),
        ) {
            1nat
        } else {
            0nat
        })
    }
}

/// How many observer reactions dispatching event kind `ev` to each target in
/// turn invokes: per target occurrence, the alive descriptor-carrying members
/// of the whole-entity index binding of `(ev, target)`.
pub open spec fn fire_count(w: World, ev: EventKey, targets: Seq<Entity>) -> nat
    decreases targets.len(),
{
    if targets.len() == 0 {
        0
    } else {
        fire_count(w, ev, targets.drop_last()) + live_observer_count(
            w.records@,
            bucket_or_empty(w.entity_observers@, ev, targets.last()),
        )
    }
}

/// Unfolds the live-observer count of a prefix by one entry.
pub proof fn lemma_live_count_take_succ(rs: Seq<EntityRecord>, b: Seq<Entity>, j: int)
    requires
        0 <= j < b.len(),
    ensures
        live_observer_count(rs, b.take(j + 1)) == live_observer_count(rs, b.take(j)) + (if alive_in(
            rs,
            b[j],
        ) && is_observer_in(rs, b[j]) {
            1nat
        } else {
            0nat
        }),
{
    assert(b.take(j + 1).drop_last() =~= b.take(j));
    assert(b.take(j + 1).last() == b[j]);
}

/// A prefix never counts more live observers than the whole list.
pub proof fn lemma_live_count_take_le(rs: Seq<EntityRecord>, b: Seq<Entity>, j: int)
    requires
        0 <= j <= b.len(),
    ensures
        live_observer_count(rs, b.take(j)) <= live_observer_count(rs, b),
    decreases b.len() - j,
{
    if j == b.len() {
        assert(b.take(j) =~= b);
    } else {
        lemma_live_count_take_succ(rs, b, j);
        lemma_live_count_take_le(rs, b, j + 1);
    }
}

/// Unfolds the fire count of a prefix of targets by one entry.
pub proof fn lemma_fire_count_take_succ(w: World, ev: EventKey, t: Seq<Entity>, i: int)
    requires
        0 <= i < t.len(),
    ensures
        fire_count(w, ev, t.take(i + 1)) == fire_count(w, ev, t.take(i)) + live_observer_count(
            w.records@,
            bucket_or_empty(w.entity_observers@, ev, t[i]),
        ),
{
    assert(t.take(i + 1).drop_last() =~= t.take(i));
    assert(t.take(i + 1).last() == t[i]);
}

/// A prefix of targets never fires more reactions than the whole list.
pub proof fn lemma_fire_count_take_le(w: World, ev: EventKey, t: Seq<Entity>, i: int)
    requires
        0 <= i <= t.len(),
    ensures
        fire_count(w, ev, t.take(i)) <= fire_count(w, ev, t),
    decreases t.len() - i,
{
    if i == t.len() {
        assert(t.take(i) =~= t);
    } else {
        lemma_fire_count_take_succ(w, ev, t, i);
        lemma_fire_count_take_le(w, ev, t, i + 1);
    }
}

impl World {
    /// Dispatches event kind `event` to each target in turn and returns how
    /// many observer reactions were invoked: for each target occurrence, one
    /// per alive descriptor-carrying member of the whole-entity index binding
    /// of `(event, target)`. A stale index entry — an observer despawned
    /// since registration, or a binding kept for a removed target — never
    /// fires a reaction: membership is re-checked against the record store.
    pub fn trigger_targets(&self, event: EventKey, targets: &Vec<Entity>) -> (n: u64)
        requires
            fire_count(*self, event, targets@) <= u64::MAX,
        ensures
            n == fire_count(*self, event, targets@),
    {
        let mut n: u64 = 0;
        let mut i: usize = 0;
        proof {
            assert(targets@.take(0) =~= Seq::<Entity>::empty());
        }
        while i < targets.len()
            invariant
                i <= targets@.len(),
                fire_count(*self, event, targets@) <= u64::MAX,
                n == fire_count(*self, event, targets@.take(i as int)),
            decreases targets@.len() - i,
        {
            let t = targets[i];
            let bucket_opt = crate::index::eo_get(&self.entity_observers, event, t);
            match bucket_opt {
                Some(b) => {
                    let ghost bs = b@;
                    proof {
                        assert(bucket_or_empty(self.entity_observers@, event, t) == bs);
                        assert(bs.take(0) =~= Seq::<Entity>::empty());
                    }
                    let mut j: usize = 0;
                    while j < b.len()
                        invariant
                            j <= bs.len(),
                            b@ == bs,
                            i < targets@.len(),
                            t == targets@[i as int],
                            bucket_or_empty(self.entity_observers@, event, t) == bs,
                            fire_count(*self, event, targets@) <= u64::MAX,
                            n == fire_count(*self, event, targets@.take(i as int))
                                + live_observer_count(self.records@, bs.take(j as int)),
                        decreases bs.len() - j,
                    {
                        let o = b[j];
                        let fires = o.id < self.records.len() && self.records[o.id].alive
                            && self.records[o.id].observer.is_some();
                        proof {
                            lemma_live_count_take_succ(self.records@, bs, j as int);
                            lemma_live_count_take_le(self.records@, bs, j as int + 1);
                            lemma_fire_count_take_succ(*self, event, targets@, i as int);
                            lemma_fire_count_take_le(*self, event, targets@, i as int + 1);
                        }
                        if fires {
                            n = n + 1;
                        }
                        j = j + 1;
                    }
                    proof {
                        assert(bs.take(bs.len() as int) =~= bs);
                        lemma_fire_count_take_succ(*self, event, targets@, i as int);
                    }
                },
                None => {
                    proof {
                        assert(bucket_or_empty(self.entity_observers@, event, t)
                            =~= Seq::<Entity>::empty());
                        lemma_fire_count_take_succ(*self, event, targets@, i as int);
                    }
                },
            }
            i = i + 1;
        }
        proof {
            assert(targets@.take(targets@.len() as int) =~= targets@);
        }
        n
    }
}

impl Default for World {
    /// An empty world: no entities, no index entries, no deferred commands.
    fn default() -> (w: World)
        ensures
            w.wf(),
            w.records@.len() == 0,
            forall|ev: EventKey, e: Entity| #[trigger] w.spec_entity_bucket(ev, e) is None,
            forall|ev: EventKey, c: ComponentId, e: Entity|
                #[trigger] w.spec_component_bucket(ev, c, e) is None,
    {
        World::new()
    }
}

} // verus!
