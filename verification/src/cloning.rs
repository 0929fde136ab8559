use vstd::prelude::*;
use crate::entity::{ComponentId, Entity, EventKey};
use crate::index::{co_lookup, eo_lookup};
use crate::observed_by::ObservedBy;
use crate::world::{
    alive_in, backrefs_in, dead_count, has_backrefs_in, in_world, is_observer_in,
    lemma_dead_count_frame, lemma_dead_count_le, lemma_dead_count_push, observer_in, pending_in,
    records_inv, watched_in, Command, EntityRecord, World,
};

verus! {

/// Some observer among the first `k` entries of list `l` is a whole-entity
/// observer reacting to event kind `ev`.
pub open spec fn ent_relevant_upto(
    rs: Seq<EntityRecord>,
    l: Seq<Entity>,
    k: int,
    ev: EventKey,
) -> bool {
    exists|i: int|
        0 <= i < k && is_observer_in(rs, #[trigger] l[i]) && observer_in(rs, l[i]).components@.len()
            == 0 && observer_in(rs, l[i]).events@.contains(ev)
}

/// Some observer watching `s` is a whole-entity observer reacting to event
/// kind `ev`; for those pairs the clone propagation copies `s`'s whole-entity
/// index binding onto the clone.
pub open spec fn ent_relevant(rs: Seq<EntityRecord>, s: Entity, ev: EventKey) -> bool {
    ent_relevant_upto(rs, backrefs_in(rs, s), backrefs_in(rs, s).len() as int, ev)
}

/// Some observer among the first `k` entries of `l` reacts to event kind `ev`
/// scoped to component kind `c`.
pub open spec fn comp_relevant_upto(
    rs: Seq<EntityRecord>,
    l: Seq<Entity>,
    k: int,
    ev: EventKey,
    c: ComponentId,
) -> bool {
    exists|i: int|
        0 <= i < k && is_observer_in(rs, #[trigger] l[i]) && observer_in(rs, l[i]).events@.contains(
            ev,
        ) && observer_in(rs, l[i]).components@.contains(c)
}

/// Some observer watching `s` reacts to event kind `ev` scoped to component
/// kind `c`; for those triples the clone propagation copies `s`'s
/// component-scoped index binding onto the clone.
pub open spec fn comp_relevant(rs: Seq<EntityRecord>, s: Entity, ev: EventKey, c: ComponentId) -> bool {
    comp_relevant_upto(rs, backrefs_in(rs, s), backrefs_in(rs, s).len() as int, ev, c)
}

impl World {
    /// Copies the whole-entity index binding of `(ev, source)`, if any, onto
    /// `(ev, target)`.
    fn propagate_entity_event(&mut self, source: Entity, target: Entity, ev: EventKey)
        ensures
            final(self).records@ == old(self).records@,
            final(self).queue@ == old(self).queue@,
            final(self).component_observers@ == old(self).component_observers@,
            forall|ev2: EventKey, x: Entity|
                #[trigger] eo_lookup(final(self).entity_observers@, ev2, x) == if ev2 == ev && x
                    == target && eo_lookup(old(self).entity_observers@, ev, source) is Some {
                    eo_lookup(old(self).entity_observers@, ev, source)
                } else {
                    eo_lookup(old(self).entity_observers@, ev2, x)
                },
    {
        let found = match crate::index::eo_get(&self.entity_observers, ev, source) {
            Some(b) => Some(crate::entity::copy_list(b)),
            None => None,
        };
        match found {
            Some(b) => {
                crate::index::eo_insert(&mut self.entity_observers, ev, target, b);
            },
            None => {},
        }
    }

    /// Copies the component-scoped index binding of `(ev, c, source)`, if
    /// any, onto `(ev, c, target)`.
    fn propagate_component_event(
        &mut self,
        source: Entity,
        target: Entity,
        ev: EventKey,
        c: ComponentId,
    )
        ensures
            final(self).records@ == old(self).records@,
            final(self).queue@ == old(self).queue@,
            final(self).entity_observers@ == old(self).entity_observers@,
            forall|ev2: EventKey, c2: ComponentId, x: Entity|
                #[trigger] co_lookup(final(self).component_observers@, ev2, c2, x) == if ev2 == ev
                    && c2 == c && x == target && co_lookup(
                    old(self).component_observers@,
                    ev,
                    c,
                    source,
                ) is Some {
                    co_lookup(old(self).component_observers@, ev, c, source)
                } else {
                    co_lookup(old(self).component_observers@, ev2, c2, x)
                },
    {
        let found = match crate::index::co_get(&self.component_observers, ev, c, source) {
            Some(b) => Some(crate::entity::copy_list(b)),
            None => None,
        };
        match found {
            Some(b) => {
                crate::index::co_insert(&mut self.component_observers, ev, c, target, b);
            },
            None => {},
        }
    }

    /// Extends the global index maps for one observer of the cloned entity:
    /// for each event kind the observer reacts to, the binding that covered
    /// `source` — whole-entity where the observer is unscoped, per watched
    /// component kind otherwise — now also covers `target`.
    fn propagate_observer_indexes(
        &mut self,
        source: Entity,
        target: Entity,
        events: &Vec<EventKey>,
        components: &Vec<ComponentId>,
    )
        requires
            source != target,
        ensures
            final(self).records@ == old(self).records@,
            final(self).queue@ == old(self).queue@,
            forall|ev: EventKey, x: Entity|
                #[trigger] eo_lookup(final(self).entity_observers@, ev, x) == if components@.len()
                    == 0 && x == target && events@.contains(ev) && eo_lookup(
                    old(self).entity_observers@,
                    ev,
                    source,
                ) is Some {
                    eo_lookup(old(self).entity_observers@, ev, source)
                } else {
                    eo_lookup(old(self).entity_observers@, ev, x)
                },
            forall|ev: EventKey, c: ComponentId, x: Entity|
                #[trigger] co_lookup(final(self).component_observers@, ev, c, x) == if components@.len()
                    > 0 && x == target && events@.contains(ev) && components@.contains(c)
                    && co_lookup(old(self).component_observers@, ev, c, source) is Some {
                    co_lookup(old(self).component_observers@, ev, c, source)
                } else {
                    co_lookup(old(self).component_observers@, ev, c, x)
                },
    {
        let ghost es0 = old(self).entity_observers@;
        let ghost cs0 = old(self).component_observers@;
        proof {
            assert(events@.take(0) =~= Seq::<EventKey>::empty());
        }
        if components.len() == 0 {
            let mut m: usize = 0;
            while m < events.len()
                invariant
                    m <= events@.len(),
                    source != target,
                    components@.len() == 0,
                    self.records@ == old(self).records@,
                    self.queue@ == old(self).queue@,
                    self.component_observers@ == cs0,
                    forall|ev: EventKey, x: Entity|
                        #[trigger] eo_lookup(self.entity_observers@, ev, x) == if x == target
                            && events@.take(m as int).contains(ev) && eo_lookup(es0, ev, source)
                            is Some {
                            eo_lookup(es0, ev, source)
                        } else {
                            eo_lookup(es0, ev, x)
                        },
                decreases events@.len() - m,
            {
                let ev = events[m];
                let ghost es_pre = self.entity_observers@;
                self.propagate_entity_event(source, target, ev);
                proof {
                    assert(eo_lookup(es_pre, ev, source) == eo_lookup(es0, ev, source));
                    assert forall|ev2: EventKey, x: Entity|
                        #[trigger] eo_lookup(self.entity_observers@, ev2, x) == if x == target
                            && events@.take(m as int + 1).contains(ev2) && eo_lookup(
                            es0,
                            ev2,
                            source,
                        ) is Some {
                            eo_lookup(es0, ev2, source)
                        } else {
                            eo_lookup(es0, ev2, x)
                        } by {
                        crate::entity::lemma_take_succ_contains(events@, m as int, ev2);
                    }
                }
                m = m + 1;
            }
            proof {
                assert(events@.take(events@.len() as int) =~= events@);
            }
        } else {
            let mut m: usize = 0;
            while m < events.len()
                invariant
                    m <= events@.len(),
                    source != target,
                    components@.len() > 0,
                    self.records@ == old(self).records@,
                    self.queue@ == old(self).queue@,
                    self.entity_observers@ == es0,
                    forall|ev: EventKey, c: ComponentId, x: Entity|
                        #[trigger] co_lookup(self.component_observers@, ev, c, x) == if x == target
                            && events@.take(m as int).contains(ev) && components@.contains(c)
                            && co_lookup(cs0, ev, c, source) is Some {
                            co_lookup(cs0, ev, c, source)
                        } else {
                            co_lookup(cs0, ev, c, x)
                        },
                decreases events@.len() - m,
            {
                let ev = events[m];
                proof {
                    assert(components@.take(0) =~= Seq::<ComponentId>::empty());
                }
                let mut p: usize = 0;
                while p < components.len()
                    invariant
                        p <= components@.len(),
                        m < events@.len(),
                        ev == events@[m as int],
                        source != target,
                        self.records@ == old(self).records@,
                        self.queue@ == old(self).queue@,
                        self.entity_observers@ == es0,
                        forall|ev2: EventKey, c: ComponentId, x: Entity|
                            #[trigger] co_lookup(self.component_observers@, ev2, c, x) == if x
                                == target && ((events@.take(m as int).contains(ev2)
                                && components@.contains(c)) || (ev2 == ev && components@.take(
                                p as int,
                            ).contains(c))) && co_lookup(cs0, ev2, c, source) is Some {
                                co_lookup(cs0, ev2, c, source)
                            } else {
                                co_lookup(cs0, ev2, c, x)
                            },
                    decreases components@.len() - p,
                {
                    let c = components[p];
                    let ghost cs_pre = self.component_observers@;
                    self.propagate_component_event(source, target, ev, c);
                    proof {
                        assert(co_lookup(cs_pre, ev, c, source) == co_lookup(cs0, ev, c, source));
                        assert forall|ev2: EventKey, c2: ComponentId, x: Entity|
                            #[trigger] co_lookup(self.component_observers@, ev2, c2, x) == if x
                                == target && ((events@.take(m as int).contains(ev2)
                                && components@.contains(c2)) || (ev2 == ev && components@.take(
                                p as int + 1,
                            ).contains(c2))) && co_lookup(cs0, ev2, c2, source) is Some {
                                co_lookup(cs0, ev2, c2, source)
                            } else {
                                co_lookup(cs0, ev2, c2, x)
                            } by {
                            crate::entity::lemma_take_succ_contains(components@, p as int, c2);
                            if c2 == c && components@.take(p as int + 1).contains(c2) {
                                assert(components@.contains(c)) by {
                                    assert(components@[p as int] == c);
                                }
                            }
                        }
                    }
                    p = p + 1;
                }
                proof {
                    assert(components@.take(components@.len() as int) =~= components@);
                    assert forall|ev2: EventKey, c: ComponentId, x: Entity|
                        #[trigger] co_lookup(self.component_observers@, ev2, c, x) == if x == target
                            && events@.take(m as int + 1).contains(ev2) && components@.contains(c)
                            && co_lookup(cs0, ev2, c, source) is Some {
                            co_lookup(cs0, ev2, c, source)
                        } else {
                            co_lookup(cs0, ev2, c, x)
                        } by {
                        crate::entity::lemma_take_succ_contains(events@, m as int, ev2);
                    }
                }
                m = m + 1;
            }
            proof {
                assert(events@.take(events@.len() as int) =~= events@);
            }
        }
    }
}

/// Unfolds whole-entity relevance by one more list entry.
pub proof fn lemma_ent_relevant_succ(rs: Seq<EntityRecord>, l: Seq<Entity>, k: int, ev: EventKey)
    requires
        0 <= k < l.len(),
    ensures
        ent_relevant_upto(rs, l, k + 1, ev) <==> (ent_relevant_upto(rs, l, k, ev) || (
        is_observer_in(rs, l[k]) && observer_in(rs, l[k]).components@.len() == 0 && observer_in(
            rs,
            l[k],
        ).events@.contains(ev))),
{
    if ent_relevant_upto(rs, l, k + 1, ev) {
        let i = choose|i: int|
            0 <= i < k + 1 && is_observer_in(rs, #[trigger] l[i]) && observer_in(
                rs,
                l[i],
            ).components@.len() == 0 && observer_in(rs, l[i]).events@.contains(ev);
        if i < k {
            assert(ent_relevant_upto(rs, l, k, ev));
        }
    }
    if ent_relevant_upto(rs, l, k, ev) {
        let i = choose|i: int|
            0 <= i < k && is_observer_in(rs, #[trigger] l[i]) && observer_in(
                rs,
                l[i],
            ).components@.len() == 0 && observer_in(rs, l[i]).events@.contains(ev);
        assert(ent_relevant_upto(rs, l, k + 1, ev));
    }
    if is_observer_in(rs, l[k]) && observer_in(rs, l[k]).components@.len() == 0 && observer_in(
        rs,
        l[k],
    ).events@.contains(ev) {
        assert(ent_relevant_upto(rs, l, k + 1, ev));
    }
}

/// Unfolds component-scoped relevance by one more list entry.
pub proof fn lemma_comp_relevant_succ(
    rs: Seq<EntityRecord>,
    l: Seq<Entity>,
    k: int,
    ev: EventKey,
    c: ComponentId,
)
    requires
        0 <= k < l.len(),
    ensures
        comp_relevant_upto(rs, l, k + 1, ev, c) <==> (comp_relevant_upto(rs, l, k, ev, c) || (
        is_observer_in(rs, l[k]) && observer_in(rs, l[k]).events@.contains(ev) && observer_in(
            rs,
            l[k],
        ).components@.contains(c))),
{
    if comp_relevant_upto(rs, l, k + 1, ev, c) {
        let i = choose|i: int|
            0 <= i < k + 1 && is_observer_in(rs, #[trigger] l[i]) && observer_in(
                rs,
                l[i],
            ).events@.contains(ev) && observer_in(rs, l[i]).components@.contains(c);
        if i < k {
            assert(comp_relevant_upto(rs, l, k, ev, c));
        }
    }
    if comp_relevant_upto(rs, l, k, ev, c) {
        let i = choose|i: int|
            0 <= i < k && is_observer_in(rs, #[trigger] l[i]) && observer_in(
                rs,
                l[i],
            ).events@.contains(ev) && observer_in(rs, l[i]).components@.contains(c);
        assert(comp_relevant_upto(rs, l, k + 1, ev, c));
    }
    if is_observer_in(rs, l[k]) && observer_in(rs, l[k]).events@.contains(ev) && observer_in(
        rs,
        l[k],
    ).components@.contains(c) {
        assert(comp_relevant_upto(rs, l, k + 1, ev, c));
    }
}

/// Clone propagation preserves the record store's invariant: the clone gets a
/// value copy of the source's (alive, descriptor-carrying) observer list as
/// its back-reference record, and each listed observer's watched list gains
/// the clone at its end; liveness, counters and all other records are
/// unchanged.
pub proof fn lemma_records_inv_propagate(
    rs: Seq<EntityRecord>,
    rs2: Seq<EntityRecord>,
    l: Seq<Entity>,
    source: Entity,
    target: Entity,
)
    requires
        records_inv(rs),
        alive_in(rs, source),
        has_backrefs_in(rs, source),
        alive_in(rs, target),
        !has_backrefs_in(rs, target),
        l == backrefs_in(rs, source),
        forall|i: int|
            0 <= i < l.len() ==> alive_in(rs, #[trigger] l[i]) && is_observer_in(rs, l[i]),
        rs2.len() == rs.len(),
        forall|j: int| 0 <= j < rs.len() ==> (#[trigger] rs2[j]).alive == rs[j].alive,
        forall|x: Entity|
            x != target && x.id < rs.len() ==> (#[trigger] rs2[x.id as int]).observed_by == rs[x.id as int].observed_by,
        has_backrefs_in(rs2, target),
        backrefs_in(rs2, target) == l,
        forall|j: int|
            0 <= j < rs.len() ==> ((#[trigger] rs2[j]).observer is Some <==> rs[j].observer
                is Some),
        forall|x: Entity|
            #[trigger] is_observer_in(rs, x) ==> {
                &&& observer_in(rs2, x).events@ == observer_in(rs, x).events@
                &&& observer_in(rs2, x).components@ == observer_in(rs, x).components@
                &&& observer_in(rs2, x).despawned_watched_entities == observer_in(
                    rs,
                    x,
                ).despawned_watched_entities
                &&& observer_in(rs2, x).entities@ == (if l.contains(x) {
                    watched_in(rs, x).push(target)
                } else {
                    watched_in(rs, x)
                })
            },
    ensures
        records_inv(rs2),
        forall|x: Entity| #[trigger] pending_in(rs2, x) ==> pending_in(rs, x),
{
    assert(alive_in(rs, source) && has_backrefs_in(rs, source));
    assert(l.no_duplicates());
    // no alive observer watches the (so far unwatched) clone
    assert forall|x: Entity|
        alive_in(rs, x) && #[trigger] is_observer_in(rs, x) implies !watched_in(rs, x).contains(
        target,
    ) by {
        if watched_in(rs, x).contains(target) {
            assert(has_backrefs_in(rs, target));
        }
    }
    // observer descriptors: shape and counts
    assert forall|x: Entity| #[trigger] is_observer_in(rs2, x) && alive_in(rs2, x) implies {
        &&& watched_in(rs2, x).no_duplicates()
        &&& (forall|i: int|
            0 <= i < watched_in(rs2, x).len() ==> in_world(rs2, #[trigger] watched_in(rs2, x)[i]))
        &&& observer_in(rs2, x).despawned_watched_entities == dead_count(rs2, watched_in(rs2, x))
    } by {
        assert(is_observer_in(rs, x) && alive_in(rs, x));
        assert forall|i: int| 0 <= i < watched_in(rs, x).len() implies in_world(
            rs,
            #[trigger] watched_in(rs, x)[i],
        ) by {}
        assert forall|i: int| 0 <= i < watched_in(rs, x).len() implies alive_in(
            rs2,
            #[trigger] watched_in(rs, x)[i],
        ) == alive_in(rs, watched_in(rs, x)[i]) by {
            assert(in_world(rs, watched_in(rs, x)[i]));
        }
        lemma_dead_count_frame(rs, rs2, watched_in(rs, x));
        if l.contains(x) {
            assert(watched_in(rs2, x) == watched_in(rs, x).push(target));
            assert(!watched_in(rs, x).contains(target));
            crate::entity::lemma_push_no_dup(watched_in(rs, x), target);
            lemma_dead_count_push(rs2, watched_in(rs, x), target);
            assert(alive_in(rs2, target));
            assert forall|i: int| 0 <= i < watched_in(rs2, x).len() implies in_world(
                rs2,
                #[trigger] watched_in(rs2, x)[i],
            ) by {
                if i < watched_in(rs, x).len() {
                    assert(watched_in(rs2, x)[i] == watched_in(rs, x)[i]);
                } else {
                    assert(watched_in(rs2, x)[i] == target);
                }
            }
        } else {
            assert(watched_in(rs2, x) == watched_in(rs, x));
        }
    }
    // back-reference lists: shape
    assert forall|e: Entity| alive_in(rs2, e) && #[trigger] has_backrefs_in(rs2, e) implies {
        &&& backrefs_in(rs2, e).no_duplicates()
        &&& (forall|i: int|
            0 <= i < backrefs_in(rs2, e).len() ==> {
                &&& in_world(rs2, #[trigger] backrefs_in(rs2, e)[i])
                &&& (alive_in(rs2, backrefs_in(rs2, e)[i]) ==> is_observer_in(
                    rs2,
                    backrefs_in(rs2, e)[i],
                ))
            })
    } by {
        if e == target {
            assert(backrefs_in(rs2, e) == l);
            assert forall|i: int| 0 <= i < l.len() implies {
                &&& in_world(rs2, #[trigger] l[i])
                &&& (alive_in(rs2, l[i]) ==> is_observer_in(rs2, l[i]))
            } by {
                assert(alive_in(rs, l[i]) && is_observer_in(rs, l[i]));
            }
        } else {
            assert(backrefs_in(rs2, e) == backrefs_in(rs, e));
            assert(alive_in(rs, e) && has_backrefs_in(rs, e));
            assert forall|i: int| 0 <= i < backrefs_in(rs, e).len() implies {
                &&& in_world(rs2, #[trigger] backrefs_in(rs, e)[i])
                &&& (alive_in(rs2, backrefs_in(rs, e)[i]) ==> is_observer_in(
                    rs2,
                    backrefs_in(rs, e)[i],
                ))
            } by {
                assert(in_world(rs, backrefs_in(rs, e)[i]));
            }
        }
    }
    // back-reference membership implies watch membership
    assert forall|e: Entity, o2: Entity|
        alive_in(rs2, e) && has_backrefs_in(rs2, e) && #[trigger] backrefs_in(rs2, e).contains(o2)
            && alive_in(rs2, o2) implies is_observer_in(rs2, o2) && watched_in(rs2, o2).contains(
        e,
    ) by {
        if e == target {
            assert(l.contains(o2));
            let i = choose|i: int| 0 <= i < l.len() && l[i] == o2;
            assert(is_observer_in(rs, o2));
            assert(watched_in(rs2, o2) == watched_in(rs, o2).push(target));
            crate::entity::lemma_push_contains(watched_in(rs, o2), target, target);
        } else {
            assert(backrefs_in(rs, e).contains(o2));
            assert(alive_in(rs, e) && has_backrefs_in(rs, e) && alive_in(rs, o2));
            assert(is_observer_in(rs, o2) && watched_in(rs, o2).contains(e));
            if l.contains(o2) {
                assert(watched_in(rs2, o2) == watched_in(rs, o2).push(target));
                crate::entity::lemma_push_contains(watched_in(rs, o2), target, e);
            } else {
                assert(watched_in(rs2, o2) == watched_in(rs, o2));
            }
        }
    }
    // watch membership implies back-reference membership
    assert forall|o2: Entity, e: Entity|
        alive_in(rs2, o2) && is_observer_in(rs2, o2) && #[trigger] watched_in(rs2, o2).contains(e)
            && alive_in(rs2, e) implies has_backrefs_in(rs2, e) && backrefs_in(rs2, e).contains(
        o2,
    ) by {
        assert(alive_in(rs, o2) && is_observer_in(rs, o2));
        if l.contains(o2) {
            assert(watched_in(rs2, o2) == watched_in(rs, o2).push(target));
            crate::entity::lemma_push_contains(watched_in(rs, o2), target, e);
            if e == target {
                assert(backrefs_in(rs2, target) == l);
            } else {
                assert(watched_in(rs, o2).contains(e));
                assert(alive_in(rs, e));
                assert(has_backrefs_in(rs, e) && backrefs_in(rs, e).contains(o2));
                assert(backrefs_in(rs2, e) == backrefs_in(rs, e));
            }
        } else {
            assert(watched_in(rs2, o2) == watched_in(rs, o2));
            assert(watched_in(rs, o2).contains(e));
            assert(!watched_in(rs, o2).contains(target) || !alive_in(rs, o2));
            assert(e != target);
            assert(alive_in(rs, e));
            assert(has_backrefs_in(rs, e) && backrefs_in(rs, e).contains(o2));
            assert(backrefs_in(rs2, e) == backrefs_in(rs, e));
        }
    }
    // no observer became due for the cascade
    assert forall|x: Entity| #[trigger] pending_in(rs2, x) implies pending_in(rs, x) by {
        assert(is_observer_in(rs, x) && alive_in(rs, x));
        if l.contains(x) {
            assert(watched_in(rs2, x) == watched_in(rs, x).push(target));
            assert(observer_in(rs, x).despawned_watched_entities == dead_count(
                rs,
                watched_in(rs, x),
            ));
            lemma_dead_count_le(rs, watched_in(rs, x));
            assert(false);
        } else {
            assert(watched_in(rs2, x) == watched_in(rs, x));
        }
    }
}

impl World {
    /// The deferred body of the clone propagation: reads the source's
    /// back-reference record, attaches a value copy of it to the clone,
    /// appends the clone to every listed observer's watched list (the
    /// removed-subject counter is untouched: the new subject is alive), and
    /// extends the global index maps for every event kind those observers
    /// react to.
    fn apply_propagation(&mut self, source: Entity, target: Entity)
        requires
            old(self).inv(),
            alive_in(old(self).records@, source),
            has_backrefs_in(old(self).records@, source),
            alive_in(old(self).records@, target),
            !has_backrefs_in(old(self).records@, target),
            forall|i: int|
                0 <= i < backrefs_in(old(self).records@, source).len() ==> alive_in(
                    old(self).records@,
                    #[trigger] backrefs_in(old(self).records@, source)[i],
                ) && is_observer_in(
                    old(self).records@,
                    backrefs_in(old(self).records@, source)[i],
                ),
        ensures
            final(self).inv(),
            final(self).queue@ == old(self).queue@,
            final(self).records@.len() == old(self).records@.len(),
            forall|j: int|
                0 <= j < old(self).records@.len() ==> (#[trigger] final(self).records@[j]).alive
                    == old(self).records@[j].alive,
            forall|x: Entity| #[trigger] pending_in(final(self).records@, x) ==> pending_in(old(self).records@, x),
            has_backrefs_in(final(self).records@, target),
            backrefs_in(final(self).records@, target) == backrefs_in(old(self).records@, source),
            forall|x: Entity|
                x != target && x.id < old(self).records@.len() ==> (#[trigger] final(self).records@[x.id as int]).observed_by == old(self).records@[x.id as int].observed_by,
            forall|j: int|
                0 <= j < old(self).records@.len() ==> ((#[trigger] final(self).records@[j]).observer is Some <==> old(self).records@[j].observer is Some),
            forall|x: Entity|
                #[trigger] is_observer_in(old(self).records@, x) ==> {
                    &&& observer_in(final(self).records@, x).events@ == observer_in(
                        old(self).records@,
                        x,
                    ).events@
                    &&& observer_in(final(self).records@, x).components@ == observer_in(
                        old(self).records@,
                        x,
                    ).components@
                    &&& observer_in(final(self).records@, x).despawned_watched_entities
                        == observer_in(old(self).records@, x).despawned_watched_entities
                    &&& observer_in(final(self).records@, x).entities@ == (if backrefs_in(
                        old(self).records@,
                        source,
                    ).contains(x) {
                        watched_in(old(self).records@, x).push(target)
                    } else {
                        watched_in(old(self).records@, x)
                    })
                },
            forall|ev: EventKey, x: Entity|
                #[trigger] eo_lookup(final(self).entity_observers@, ev, x) == if x == target
                    && ent_relevant(old(self).records@, source, ev) && eo_lookup(
                    old(self).entity_observers@,
                    ev,
                    source,
                ) is Some {
                    eo_lookup(old(self).entity_observers@, ev, source)
                } else {
                    eo_lookup(old(self).entity_observers@, ev, x)
                },
            forall|ev: EventKey, c: ComponentId, x: Entity|
                #[trigger] co_lookup(final(self).component_observers@, ev, c, x) == if x == target
                    && comp_relevant(old(self).records@, source, ev, c) && co_lookup(
                    old(self).component_observers@,
                    ev,
                    c,
                    source,
                ) is Some {
                    co_lookup(old(self).component_observers@, ev, c, source)
                } else {
                    co_lookup(old(self).component_observers@, ev, c, x)
                },
    {
        let ghost rs0 = old(self).records@;
        let ghost es0 = old(self).entity_observers@;
        let ghost cs0 = old(self).component_observers@;
        let ghost l = backrefs_in(rs0, source);
        proof {
            assert(source != target);
            assert(l.no_duplicates() && (forall|i: int|
                0 <= i < l.len() ==> in_world(rs0, #[trigger] l[i])));
            assert(l.take(0) =~= Seq::<Entity>::empty());
        }
        let list = match &self.records[source.id].observed_by {
            Some(ob) => crate::entity::copy_list(&ob.0),
            None => Vec::new(),
        };
        proof {
            assert(list@ == l);
        }
        let copy2 = crate::entity::copy_list(&list);
        let trec = &mut self.records[target.id];
        trec.observed_by = Some(ObservedBy(copy2));
        let mut k: usize = 0;
        while k < list.len()
            invariant
                k <= l.len(),
                list@ == l,
                records_inv(rs0),
                source != target,
                alive_in(rs0, source),
                has_backrefs_in(rs0, source),
                alive_in(rs0, target),
                !has_backrefs_in(rs0, target),
                l == backrefs_in(rs0, source),
                l.no_duplicates(),
                forall|i: int|
                    0 <= i < l.len() ==> alive_in(rs0, #[trigger] l[i]) && is_observer_in(
                        rs0,
                        l[i],
                    ),
                self.records@.len() == rs0.len(),
                self.queue@ == old(self).queue@,
                forall|j: int|
                    0 <= j < rs0.len() ==> (#[trigger] self.records@[j]).alive == rs0[j].alive,
                forall|x: Entity|
                    x != target && x.id < rs0.len() ==> (#[trigger] self.records@[x.id as int]).observed_by == rs0[x.id as int].observed_by,
                has_backrefs_in(self.records@, target),
                backrefs_in(self.records@, target) == l,
                forall|j: int|
                    0 <= j < rs0.len() ==> ((#[trigger] self.records@[j]).observer is Some <==> rs0[j].observer is Some),
                forall|x: Entity|
                    #[trigger] is_observer_in(rs0, x) ==> {
                        &&& observer_in(self.records@, x).events@ == observer_in(rs0, x).events@
                        &&& observer_in(self.records@, x).components@ == observer_in(
                            rs0,
                            x,
                        ).components@
                        &&& observer_in(self.records@, x).despawned_watched_entities
                            == observer_in(rs0, x).despawned_watched_entities
                        &&& observer_in(self.records@, x).entities@ == (if l.take(
                            k as int,
                        ).contains(x) {
                            watched_in(rs0, x).push(target)
                        } else {
                            watched_in(rs0, x)
                        })
                    },
                forall|ev: EventKey, x: Entity|
                    #[trigger] eo_lookup(self.entity_observers@, ev, x) == if x == target
                        && ent_relevant_upto(rs0, l, k as int, ev) && eo_lookup(es0, ev, source)
                        is Some {
                        eo_lookup(es0, ev, source)
                    } else {
                        eo_lookup(es0, ev, x)
                    },
                forall|ev: EventKey, c: ComponentId, x: Entity|
                    #[trigger] co_lookup(self.component_observers@, ev, c, x) == if x == target
                        && comp_relevant_upto(rs0, l, k as int, ev, c) && co_lookup(
                        cs0,
                        ev,
                        c,
                        source,
                    ) is Some {
                        co_lookup(cs0, ev, c, source)
                    } else {
                        co_lookup(cs0, ev, c, x)
                    },
            decreases l.len() - k,
        {
            let o = list[k];
            let ghost rs_pre = self.records@;
            let ghost rec_pre = self.records@[o.id as int];
            proof {
                assert(alive_in(rs0, o) && is_observer_in(rs0, o));
                assert(!l.take(k as int).contains(o)) by {
                    if l.take(k as int).contains(o) {
                        let i = choose|i: int| 0 <= i < k && #[trigger] l.take(k as int)[i] == o;
                        assert(l[i] == l[k as int]);
                    }
                }
                assert(rec_pre.observer is Some);
            }
            let mut evs: Vec<EventKey> = Vec::new();
            let mut comps: Vec<ComponentId> = Vec::new();
            let orec = &mut self.records[o.id];
            match &mut orec.observer {
                Some(st) => {
                    st.entities.push(target);
                    evs = crate::entity::copy_list(&st.events);
                    comps = crate::entity::copy_list(&st.components);
                },
                None => {
                    proof {
                        assert(false);
                    }
                },
            }
            proof {
                assert(evs@ == observer_in(rs0, o).events@);
                assert(comps@ == observer_in(rs0, o).components@);
                assert(observer_in(self.records@, o).entities@ == watched_in(rs0, o).push(target));
            }
            let ghost es_pre = self.entity_observers@;
            let ghost cs_pre = self.component_observers@;
            self.propagate_observer_indexes(source, target, &evs, &comps);
            proof {
                // descriptor bookkeeping for this and every other observer
                assert forall|x: Entity|
                    #[trigger] is_observer_in(rs0, x) implies observer_in(
                    self.records@,
                    x,
                ).entities@ == (if l.take(k as int + 1).contains(x) {
                    watched_in(rs0, x).push(target)
                } else {
                    watched_in(rs0, x)
                }) by {
                    crate::entity::lemma_take_succ_contains(l, k as int, x);
                }
                // whole-entity index bookkeeping
                assert forall|ev: EventKey, x: Entity|
                    #[trigger] eo_lookup(self.entity_observers@, ev, x) == if x == target
                        && ent_relevant_upto(rs0, l, k as int + 1, ev) && eo_lookup(
                        es0,
                        ev,
                        source,
                    ) is Some {
                        eo_lookup(es0, ev, source)
                    } else {
                        eo_lookup(es0, ev, x)
                    } by {
                    lemma_ent_relevant_succ(rs0, l, k as int, ev);
                    assert(eo_lookup(es_pre, ev, source) == eo_lookup(es0, ev, source));
                }
                // component-scoped index bookkeeping
                assert forall|ev: EventKey, c: ComponentId, x: Entity|
                    #[trigger] co_lookup(self.component_observers@, ev, c, x) == if x == target
                        && comp_relevant_upto(rs0, l, k as int + 1, ev, c) && co_lookup(
                        cs0,
                        ev,
                        c,
                        source,
                    ) is Some {
                        co_lookup(cs0, ev, c, source)
                    } else {
                        co_lookup(cs0, ev, c, x)
                    } by {
                    lemma_comp_relevant_succ(rs0, l, k as int, ev, c);
                    assert(co_lookup(cs_pre, ev, c, source) == co_lookup(cs0, ev, c, source));
                }
            }
            k = k + 1;
        }
        proof {
            assert(l.take(l.len() as int) =~= l);
            lemma_records_inv_propagate(rs0, self.records@, l, source, target);
        }
    }
}

/// The custom clone handler for the back-reference record: invoked by the
/// cloning pipeline, with the source and freshly created target entity, when
/// observer propagation was opted into. Cloning is itself an in-progress
/// structural operation, so the handler only enqueues the deferred
/// propagation; the work runs at the cloner's flush point.
pub fn component_clone_observed_by(world: &mut World, source: Entity, target: Entity)
    ensures
        final(world).records@ == old(world).records@,
        final(world).entity_observers@ == old(world).entity_observers@,
        final(world).component_observers@ == old(world).component_observers@,
        final(world).queue@ == old(world).queue@.push(
            Command::PropagateObservers(source, target),
        ),
{
    world.queue.push(Command::PropagateObservers(source, target));
}

/// How the cloning pipeline treats a component when an entity is duplicated.
#[derive(Clone, Copy, PartialEq, Eq, Structural, Debug)]
pub enum CloneBehavior {
    /// The component is not copied onto the clone.
    Ignore,
    /// A custom handler runs for the component.
    Custom,
}

impl ObservedBy {
    /// The default clone behavior of the back-reference record: it is never
    /// copied onto a clone unless observer propagation is explicitly opted
    /// into on the cloner.
    pub fn clone_behavior() -> (b: CloneBehavior)
        ensures
            b is Ignore,
    {
        CloneBehavior::Ignore
    }
}

/// Builder-style configuration of the entity cloner, as far as it concerns
/// this subsystem: whether cloned entities are added to the observers
/// targeting the source entity. The default is not to propagate.
#[derive(Clone, Copy, PartialEq, Eq, Structural, Debug)]
pub struct EntityClonerBuilder {
    pub add_observers: bool,
}

impl EntityClonerBuilder {
    /// A cloner configuration with observer propagation switched off.
    pub fn new() -> (b: EntityClonerBuilder)
        ensures
            !b.add_observers,
    {
        EntityClonerBuilder { add_observers: false }
    }

    /// Sets the option to automatically add cloned entities to the observers
    /// targeting the source entity.
    pub fn add_observers(self, add_observers: bool) -> (b: EntityClonerBuilder)
        ensures
            b.add_observers == add_observers,
    {
        EntityClonerBuilder { add_observers }
    }

    /// Clones `source`'s observer registration onto the (freshly spawned,
    /// so far unwatched) entity `target`, where propagation was opted into
    /// and `source` carries a back-reference record; otherwise the clone's
    /// registration is left absent. The handler enqueues the propagation as
    /// one deferred unit, which is drained at this cloner's flush point
    /// before returning. Every observer listed by `source` must still carry
    /// its descriptor.
    pub fn clone_entity(self, world: &mut World, source: Entity, target: Entity)
        requires
            old(world).wf(),
            alive_in(old(world).records@, source),
            alive_in(old(world).records@, target),
            !has_backrefs_in(old(world).records@, target),
            has_backrefs_in(old(world).records@, source) ==> forall|i: int|
                0 <= i < backrefs_in(old(world).records@, source).len() ==> alive_in(
                    old(world).records@,
                    #[trigger] backrefs_in(old(world).records@, source)[i],
                ) && is_observer_in(
                    old(world).records@,
                    backrefs_in(old(world).records@, source)[i],
                ),
        ensures
            final(world).wf(),
            final(world).records@.len() == old(world).records@.len(),
            forall|j: int|
                0 <= j < old(world).records@.len() ==> (#[trigger] final(world).records@[j]).alive
                    == old(world).records@[j].alive,
            !(self.add_observers && has_backrefs_in(old(world).records@, source)) ==> {
                &&& final(world).records@ == old(world).records@
                &&& final(world).entity_observers@ == old(world).entity_observers@
                &&& final(world).component_observers@ == old(world).component_observers@
            },
            (self.add_observers && has_backrefs_in(old(world).records@, source)) ==> {
                &&& has_backrefs_in(final(world).records@, target)
                &&& backrefs_in(final(world).records@, target) == backrefs_in(
                    old(world).records@,
                    source,
                )
                &&& (forall|x: Entity|
                    x != target && x.id < old(world).records@.len() ==> (#[trigger] final(world).records@[x.id as int]).observed_by
                        == old(world).records@[x.id as int].observed_by)
                &&& (forall|x: Entity|
                    #[trigger] is_observer_in(old(world).records@, x) ==> {
                        &&& observer_in(final(world).records@, x).events@ == observer_in(
                            old(world).records@,
                            x,
                        ).events@
                        &&& observer_in(final(world).records@, x).components@ == observer_in(
                            old(world).records@,
                            x,
                        ).components@
                        &&& observer_in(final(world).records@, x).despawned_watched_entities
                            == observer_in(old(world).records@, x).despawned_watched_entities
                        &&& observer_in(final(world).records@, x).entities@ == (if backrefs_in(
                            old(world).records@,
                            source,
                        ).contains(x) {
                            watched_in(old(world).records@, x).push(target)
                        } else {
                            watched_in(old(world).records@, x)
                        })
                    })
                &&& (forall|ev: EventKey, x: Entity|
                    #[trigger] eo_lookup(final(world).entity_observers@, ev, x) == if x == target
                        && ent_relevant(old(world).records@, source, ev) && eo_lookup(
                        old(world).entity_observers@,
                        ev,
                        source,
                    ) is Some {
                        eo_lookup(old(world).entity_observers@, ev, source)
                    } else {
                        eo_lookup(old(world).entity_observers@, ev, x)
                    })
                &&& (forall|ev: EventKey, c: ComponentId, x: Entity|
                    #[trigger] co_lookup(final(world).component_observers@, ev, c, x) == if x
                        == target && comp_relevant(old(world).records@, source, ev, c)
                        && co_lookup(old(world).component_observers@, ev, c, source) is Some {
                        co_lookup(old(world).component_observers@, ev, c, source)
                    } else {
                        co_lookup(old(world).component_observers@, ev, c, x)
                    })
            },
    {
        if self.add_observers {
            let has = match world.get_observed_by(source) {
                Some(_) => true,
                None => false,
            };
            if has {
                component_clone_observed_by(world, source, target);
                let cmd = world.queue.pop();
                proof {
                    assert(old(world).queue@.len() == 0);
                    assert(cmd == Some(Command::PropagateObservers(source, target)));
                    assert(world.queue@ =~= old(world).queue@);
                }
                match cmd {
                    Some(Command::PropagateObservers(src, tgt)) => {
                        world.apply_propagation(src, tgt);
                    },
                    _ => {},
                }
            }
        }
    }
}

} // verus!
