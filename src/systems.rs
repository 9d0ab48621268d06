use vstd::prelude::*;

use crate::components::{v2_add, Components, Position, Rotation, Velocity};
use crate::realm::Realm;
use crate::snapshot::ReplToken;

verus! {

/// An entity after its input is applied: the movement input is added to the
/// velocity and the aim becomes the rotation.
pub open spec fn after_input(c: Components) -> Components {
    if c.velocity is Some && c.rotation is Some && c.input is Some {
        Components {
            velocity: Some(Velocity { xy: v2_add(c.velocity->Some_0.xy, c.input->Some_0.movement) }),
            rotation: Some(Rotation { rad: c.input->Some_0.aim }),
            ..c
        }
    } else {
        c
    }
}

/// An entity after one step of motion: the velocity is added to the position.
pub open spec fn after_movement(c: Components) -> Components {
    if c.position is Some && c.velocity is Some {
        Components {
            position: Some(
                Position {
                    xy: v2_add(c.position->Some_0.xy, c.velocity->Some_0.xy),
                    ..c.position->Some_0
                },
            ),
            ..c
        }
    } else {
        c
    }
}

/// Whether an entity has run out of health.
pub open spec fn is_dead(c: Components) -> bool {
    c.health is Some && c.health->Some_0.value == 0
}

fn apply_input(c: Components) -> (r: Components)
    ensures
        r == after_input(c),
{
    match (c.velocity, c.rotation, c.input) {
        (Some(v), Some(_), Some(i)) => Components {
            velocity: Some(Velocity { xy: v.xy.wrapping_add(i.movement) }),
            rotation: Some(Rotation { rad: i.aim }),
            ..c
        },
        _ => c,
    }
}

fn apply_movement(c: Components) -> (r: Components)
    ensures
        r == after_movement(c),
{
    match (c.position, c.velocity) {
        (Some(p), Some(v)) => Components {
            position: Some(Position { xy: p.xy.wrapping_add(v.xy), ..p }),
            ..c
        },
        _ => c,
    }
}

/// Applies each entity's input to its velocity and rotation.
pub fn input_system(realm: &mut Realm)
    requires
        old(realm).wf(),
    ensures
        final(realm).wf(),
        final(realm).pairs() == old(realm).pairs(),
        final(realm).pool() == old(realm).pool(),
        final(realm).entities() == old(realm).entities().map_values(|c: Components| after_input(c)),
{
    let ids = realm.entity_handles();
    let ghost e0 = realm.entities();
    let mut i: usize = 0;
    while i < ids.len()
        invariant
            realm.wf(),
            realm.pairs() == old(realm).pairs(),
            realm.pool() == old(realm).pool(),
            e0 == old(realm).entities(),
            i <= ids@.len(),
            ids@.to_set() == e0.dom(),
            ids@.no_duplicates(),
            realm.entities().dom() == e0.dom(),
            forall|k: u64| #[trigger]
                e0.contains_key(k) ==> realm.entities()[k] == if ids@.take(i as int).contains(k) {
                    after_input(e0[k])
                } else {
                    e0[k]
                },
        decreases ids@.len() - i,
    {
        let e = ids[i];
        proof {
            assert(ids@.to_set().contains(e));
            assert(!ids@.take(i as int).contains(e)) by {
                if ids@.take(i as int).contains(e) {
                    let j = ids@.take(i as int).index_of(e);
                    assert(ids@[j] == ids@[i as int]);
                }
            }
        }
        let c = realm.components(e).unwrap();
        let next = apply_input(c);
        realm.set_components(e, next);
        proof {
            assert(ids@.take(i + 1) =~= ids@.take(i as int).push(e));
            assert forall|k: u64| #[trigger] e0.contains_key(k) implies realm.entities()[k] == if ids@.take(
                i + 1,
            ).contains(k) {
                after_input(e0[k])
            } else {
                e0[k]
            } by {
                if k != e {
                    if ids@.take(i + 1).contains(k) {
                        let j = ids@.take(i + 1).index_of(k);
                        assert(ids@.take(i as int)[j] == k);
                    }
                    if ids@.take(i as int).contains(k) {
                        let j = ids@.take(i as int).index_of(k);
                        assert(ids@.take(i + 1)[j] == k);
                    }
                } else {
                    assert(ids@.take(i + 1)[i as int] == k);
                }
            }
        }
        i = i + 1;
    }
    proof {
        assert(ids@.take(i as int) =~= ids@);
        assert forall|k: u64| #[trigger] e0.contains_key(k) implies ids@.contains(k) by {
            assert(ids@.to_set().contains(k));
        }
        assert(realm.entities() =~= e0.map_values(|c: Components| after_input(c)));
    }
}

/// Moves every entity that has a position and a velocity by one step.
pub fn movement_system(realm: &mut Realm)
    requires
        old(realm).wf(),
    ensures
        final(realm).wf(),
        final(realm).pairs() == old(realm).pairs(),
        final(realm).pool() == old(realm).pool(),
        final(realm).entities() == old(realm).entities().map_values(|c: Components| after_movement(c)),
{
    let ids = realm.entity_handles();
    let ghost e0 = realm.entities();
    let mut i: usize = 0;
    while i < ids.len()
        invariant
            realm.wf(),
            realm.pairs() == old(realm).pairs(),
            realm.pool() == old(realm).pool(),
            e0 == old(realm).entities(),
            i <= ids@.len(),
            ids@.to_set() == e0.dom(),
            ids@.no_duplicates(),
            realm.entities().dom() == e0.dom(),
            forall|k: u64| #[trigger]
                e0.contains_key(k) ==> realm.entities()[k] == if ids@.take(i as int).contains(k) {
                    after_movement(e0[k])
                } else {
                    e0[k]
                },
        decreases ids@.len() - i,
    {
        let e = ids[i];
        proof {
            assert(ids@.to_set().contains(e));
            assert(!ids@.take(i as int).contains(e)) by {
                if ids@.take(i as int).contains(e) {
                    let j = ids@.take(i as int).index_of(e);
                    assert(ids@[j] == ids@[i as int]);
                }
            }
        }
        let c = realm.components(e).unwrap();
        let next = apply_movement(c);
        realm.set_components(e, next);
        proof {
            assert(ids@.take(i + 1) =~= ids@.take(i as int).push(e));
            assert forall|k: u64| #[trigger] e0.contains_key(k) implies realm.entities()[k] == if ids@.take(
                i + 1,
            ).contains(k) {
                after_movement(e0[k])
            } else {
                e0[k]
            } by {
                if k != e {
                    if ids@.take(i + 1).contains(k) {
                        let j = ids@.take(i + 1).index_of(k);
                        assert(ids@.take(i as int)[j] == k);
                    }
                    if ids@.take(i as int).contains(k) {
                        let j = ids@.take(i as int).index_of(k);
                        assert(ids@.take(i + 1)[j] == k);
                    }
                } else {
                    assert(ids@.take(i + 1)[i as int] == k);
                }
            }
        }
        i = i + 1;
    }
    proof {
        assert(ids@.take(i as int) =~= ids@);
        assert forall|k: u64| #[trigger] e0.contains_key(k) implies ids@.contains(k) by {
            assert(ids@.to_set().contains(k));
        }
        assert(realm.entities() =~= e0.map_values(|c: Components| after_movement(c)));
    }
}

/// Removes every entity whose health has reached zero, returning the tokens of
/// replicated ones to the pool.
pub fn health_system(realm: &mut Realm)
    requires
        old(realm).wf(),
    ensures
        final(realm).wf(),
        final(realm).entities() == old(realm).entities().restrict(
            old(realm).entities().dom().filter(|k: u64| !is_dead(old(realm).entities()[k])),
        ),
        final(realm).pairs() == old(realm).pairs().restrict(
            old(realm).pairs().dom().filter(
                |t: ReplToken| !is_dead(old(realm).entities()[old(realm).pairs()[t]]),
            ),
        ),
        forall|t: ReplToken| #[trigger]
            old(realm).pairs().contains_key(t) && is_dead(old(realm).entities()[old(realm).pairs()[t]])
                ==> final(realm).pool()@.1.contains(t.0),
{
    let ids = realm.entity_handles();
    let ghost e0 = realm.entities();
    let ghost p0 = realm.pairs();
    let mut i: usize = 0;
    while i < ids.len()
        invariant
            realm.wf(),
            e0 == old(realm).entities(),
            p0 == old(realm).pairs(),
            old(realm).wf(),
            i <= ids@.len(),
            ids@.to_set() == e0.dom(),
            ids@.no_duplicates(),
            realm.entities() == e0.restrict(
                e0.dom().filter(|k: u64| !(ids@.take(i as int).contains(k) && is_dead(e0[k]))),
            ),
            realm.pairs() == p0.restrict(
                p0.dom().filter(
                    |t: ReplToken| !(ids@.take(i as int).contains(p0[t]) && is_dead(e0[p0[t]])),
                ),
            ),
            forall|t: ReplToken| #[trigger]
                p0.contains_key(t) && ids@.take(i as int).contains(p0[t]) && is_dead(e0[p0[t]])
                    ==> realm.pool()@.1.contains(t.0),
        decreases ids@.len() - i,
    {
        let ghost pairs_before = realm.pairs();
        let ghost free_before = realm.pool()@.1;
        let ghost realm_before = *realm;
        let e = ids[i];
        proof {
            assert(ids@.to_set().contains(e));
            assert(!ids@.take(i as int).contains(e)) by {
                if ids@.take(i as int).contains(e) {
                    let j = ids@.take(i as int).index_of(e);
                    assert(ids@[j] == ids@[i as int]);
                }
            }
        }
        let c = realm.components(e).unwrap();
        let dead = match c.health {
            Some(h) => h.value == 0,
            None => false,
        };
        if dead {
            realm.despawn(e);
        }
        proof {
            assert(ids@.take(i + 1) =~= ids@.take(i as int).push(e));
            assert forall|k: u64| #[trigger] ids@.take(i + 1).contains(k) <==> (ids@.take(i as int).contains(k)
                || k == e) by {
                if ids@.take(i + 1).contains(k) && k != e {
                    let j = ids@.take(i + 1).index_of(k);
                    assert(ids@.take(i as int)[j] == k);
                }
                if ids@.take(i as int).contains(k) {
                    let j = ids@.take(i as int).index_of(k);
                    assert(ids@.take(i + 1)[j] == k);
                }
                if k == e {
                    assert(ids@.take(i + 1)[i as int] == k);
                }
            }
            assert(realm.entities() =~= e0.restrict(
                e0.dom().filter(|k: u64| !(ids@.take(i + 1).contains(k) && is_dead(e0[k]))),
            ));
            assert(e0[e] == c);
            if dead && c.replicated is Some {
                let t = choose|t: ReplToken|
                    {
                        &&& #[trigger] pairs_before.contains_key(t)
                        &&& pairs_before[t] == e
                        &&& realm.pairs() == pairs_before.remove(t)
                        &&& realm.pool()@.1 == free_before.insert(t.0)
                    };
                assert forall|u: ReplToken| #[trigger] p0.contains_key(u) && p0[u] == e implies u == t by {
                    assert(pairs_before.contains_key(u));
                    realm_before.lemma_pairs_injective(u, t);
                }
            } else if dead {
                assert forall|u: ReplToken| #[trigger] p0.contains_key(u) implies p0[u] != e by {
                    if p0[u] == e {
                        old(realm).lemma_token_entity(u);
                    }
                }
            }
            assert(realm.pairs() =~= p0.restrict(
                p0.dom().filter(
                    |t: ReplToken| !(ids@.take(i + 1).contains(p0[t]) && is_dead(e0[p0[t]])),
                ),
            ));
        }
        i = i + 1;
    }
    proof {
        assert(ids@.take(i as int) =~= ids@);
        assert forall|k: u64| #[trigger] e0.contains_key(k) implies ids@.contains(k) by {
            assert(ids@.to_set().contains(k));
        }
        assert(realm.entities() =~= e0.restrict(e0.dom().filter(|k: u64| !is_dead(e0[k]))));
        assert forall|t: ReplToken| #[trigger] p0.contains_key(t) implies ids@.contains(p0[t]) by {
            old(realm).lemma_token_entity(t);
            assert(ids@.to_set().contains(p0[t]));
        }
        assert(realm.pairs() =~= p0.restrict(p0.dom().filter(|t: ReplToken| !is_dead(e0[p0[t]]))));
    }
}

/// One state after `e` has gone through input, movement and health, in that order.
pub open spec fn after_systems(e: Map<u64, Components>) -> Map<u64, Components> {
    let moved = e.map_values(|c: Components| after_input(c)).map_values(
        |c: Components| after_movement(c),
    );
    moved.restrict(moved.dom().filter(|k: u64| !is_dead(moved[k])))
}

impl Realm {
    /// Advances the simulation: inputs, then movement, then removal of the dead.
    pub fn run_systems(&mut self)
        requires
            old(self).wf(),
        ensures
            final(self).wf(),
            final(self).entities() == after_systems(old(self).entities()),
    {
        input_system(self);
        movement_system(self);
        health_system(self);
    }
}

} // verus!
