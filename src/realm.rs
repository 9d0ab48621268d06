use vstd::prelude::*;

use bimap::BiBTreeMap;
use hecs::World;

use crate::components::{Blueprint, Components};
use crate::snapshot::{Priority, ReplKey, ReplToken};
use crate::token_pool::{next_generation, PoolToken, TokenPool};
use crate::world::{
    entity_index, token_map_get, token_map_insert, token_map_lefts, token_map_new,
    token_map_remove_by_right, token_pairs, world_despawn, world_entities, world_entity_bits,
    world_get, world_len, world_new, world_ok, world_spawn, world_spawn_at,
};

verus! {

/// The authoritative world: its entities, the tick count, and a token for every
/// replicated entity.
pub struct Realm {
    world: World,
    tick: u64,
    repl_token_pool: TokenPool,
    ent_map: BiBTreeMap<(u32, u32), u64>,
}

/// Priority gained per tick by an object of the given blueprint.
pub open spec fn priority_inc_of(b: Option<Blueprint>) -> Priority {
    match b {
        None => 1,
        Some(Blueprint::Player) => 1000,
        Some(Blueprint::Bullet) => 100,
        Some(Blueprint::Static) => 10,
    }
}

/// Priority gained per tick by a deleted object.
pub open spec fn deleted_priority_inc() -> Priority {
    10
}

impl Realm {
    /// How many ticks the realm has advanced.
    pub closed spec fn spec_tick(&self) -> u64 {
        self.tick
    }

    pub closed spec fn entities(&self) -> Map<u64, Components> {
        world_entities(self.world)
    }

    /// Each replicated entity's token `(key, generation)` and the entity it names.
    pub closed spec fn pairs(&self) -> Map<ReplToken, u64> {
        token_pairs(self.ent_map)
    }

    pub closed spec fn pool(&self) -> TokenPool {
        self.repl_token_pool
    }

    pub closed spec fn wf(&self) -> bool {
        &&& world_ok(self.entities())
        &&& self.entities().dom().finite()
        &&& self.pool().wf()
        &&& forall|t: ReplToken| #[trigger]
            self.pairs().contains_key(t) ==> {
                &&& self.entities().contains_key(self.pairs()[t])
                &&& self.entities()[self.pairs()[t]].replicated is Some
                &&& self.pool().is_live_parts(t.0, t.1)
            }
        &&& forall|a: ReplToken, b: ReplToken| #[trigger]
            self.pairs().contains_key(a) && #[trigger] self.pairs().contains_key(b) && a != b
                ==> self.pairs()[a] != self.pairs()[b]
        &&& forall|e: u64| #[trigger]
            self.entities().contains_key(e) && self.entities()[e].replicated is Some ==> exists|
                t: ReplToken,
            | #[trigger] self.pairs().contains_key(t) && self.pairs()[t] == e
    }

    /// The token currently held by the object under `key`, if any.
    pub open spec fn token_for_key(&self, key: ReplKey) -> Option<ReplToken> {
        if exists|t: ReplToken| #[trigger] self.pairs().contains_key(t) && t.0 == key {
            Some(choose|t: ReplToken| #[trigger] self.pairs().contains_key(t) && t.0 == key)
        } else {
            None
        }
    }

    /// Whether one more entity can be spawned, replicated or not.
    pub open spec fn has_room(&self) -> bool {
        &&& self.entities().len() + 1 < u32::MAX
        &&& self.pool().can_alloc()
    }

    /// Two live tokens with the same key are the same token.
    pub proof fn lemma_key_unique(&self, a: ReplToken, b: ReplToken)
        requires
            self.wf(),
            self.pairs().contains_key(a),
            self.pairs().contains_key(b),
            a.0 == b.0,
        ensures
            a == b,
    {
    }

    /// No two live tokens name the same entity.
    pub proof fn lemma_pairs_injective(&self, a: ReplToken, b: ReplToken)
        requires
            self.wf(),
            self.pairs().contains_key(a),
            self.pairs().contains_key(b),
            self.pairs()[a] == self.pairs()[b],
        ensures
            a == b,
    {
    }

    /// The entity a live token names is live and replicated.
    pub proof fn lemma_token_entity(&self, t: ReplToken)
        requires
            self.wf(),
            self.pairs().contains_key(t),
        ensures
            self.entities().contains_key(self.pairs()[t]),
            self.entities()[self.pairs()[t]].replicated is Some,
    {
    }

    pub fn new() -> (r: Self)
        ensures
            r.wf(),
            r.entities().dom().is_empty(),
            r.pairs().dom().is_empty(),
            r.spec_tick() == 0,
            r.has_room(),
    {
        let r = Realm {
            world: world_new(),
            tick: 0,
            repl_token_pool: TokenPool::new(),
            ent_map: token_map_new(),
        };
        proof {
            assert(r.entities() =~= Map::empty());
            assert(r.pairs() =~= Map::empty());
            assert(r.entities().dom() =~= Set::empty());
            assert(r.pool()@.1 =~= Set::empty());
        }
        r
    }

    /// Adds an entity; a replicated one also gets the lowest unused token key.
    pub fn spawn(&mut self, c: Components) -> (r: u64)
        requires
            old(self).wf(),
            old(self).has_room(),
        ensures
            final(self).wf(),
            !old(self).entities().contains_key(r),
            final(self).entities() == old(self).entities().insert(r, c),
            final(self).spec_tick() == old(self).spec_tick(),
            c.replicated is None ==> final(self).pairs() == old(self).pairs() && final(self).pool()
                == old(self).pool(),
            c.replicated is Some ==> exists|t: ReplToken|
                {
                    &&& !old(self).pairs().contains_key(t)
                    &&& old(self).token_for_key(t.0) is None
                    &&& final(self).pairs() == old(self).pairs().insert(t, r)
                    // the token is the one the pool hands out: its lowest unused key
                    &&& old(self).pool().is_unused(t.0)
                    &&& forall|j: u32| j < t.0 ==> !(#[trigger] old(self).pool().is_unused(j))
                    &&& t.1 == if t.0 < old(self).pool()@.0.len() {
                        old(self).pool()@.0[t.0 as int]
                    } else {
                        0u32
                    }
                    &&& final(self).pool()@.0 == if t.0 < old(self).pool()@.0.len() {
                        old(self).pool()@.0
                    } else {
                        old(self).pool()@.0.push(0u32)
                    }
                    &&& final(self).pool()@.1 == old(self).pool()@.1.remove(t.0)
                    &&& final(self).pool().wf()
                },
    {
        let e = world_spawn(&mut self.world, c);
        proof {
            assert(!old(self).entities().contains_key(e)) by {
                if old(self).entities().contains_key(e) {
                    assert(entity_index(e) != entity_index(e));
                }
            }
        }
        if c.replicated.is_some() {
            let token = self.repl_token_pool.alloc_token();
            let t = (token.key(), token.generation());
            proof {
                assert(!old(self).pairs().contains_key(t));
                assert(!old(self).pairs().values().contains(e));
                assert(old(self).token_for_key(t.0) is None) by {
                    if exists|u: ReplToken| #[trigger] old(self).pairs().contains_key(u) && u.0 == t.0 {
                        let u = choose|u: ReplToken| #[trigger] old(self).pairs().contains_key(u) && u.0 == t.0;
                        assert(old(self).pool().is_live_parts(u.0, u.1));
                    }
                }
            }
            token_map_insert(&mut self.ent_map, t, e);
            proof {
                assert forall|u: ReplToken| #[trigger] self.pairs().contains_key(u) implies {
                    &&& self.entities().contains_key(self.pairs()[u])
                    &&& self.entities()[self.pairs()[u]].replicated is Some
                    &&& self.pool().is_live_parts(u.0, u.1)
                } by {
                    if u != t {
                        assert(old(self).pairs().contains_key(u));
                        assert(old(self).pool().is_live_parts(u.0, u.1));
                    }
                }
                assert forall|x: u64| #[trigger] self.entities().contains_key(x) && self.entities()[x].replicated is Some
                    implies exists|u: ReplToken| #[trigger] self.pairs().contains_key(u) && self.pairs()[u] == x by {
                    if x == e {
                        assert(self.pairs().contains_key(t));
                    } else {
                        let u = choose|u: ReplToken| #[trigger] old(self).pairs().contains_key(u) && old(self).pairs()[u] == x;
                        assert(self.pairs().contains_key(u));
                    }
                }
            }
        } else {
            proof {
                assert forall|x: u64| #[trigger] self.entities().contains_key(x) && self.entities()[x].replicated is Some
                    implies exists|u: ReplToken| #[trigger] self.pairs().contains_key(u) && self.pairs()[u] == x by {
                    let u = choose|u: ReplToken| #[trigger] old(self).pairs().contains_key(u) && old(self).pairs()[u] == x;
                    assert(self.pairs().contains_key(u));
                }
            }
        }
        e
    }
}

} // verus!

verus! {

impl Realm {
    pub fn tick(&self) -> (r: u64)
        ensures
            r == self.spec_tick(),
    {
        self.tick
    }

    /// Removes an entity; a replicated one gives its token back to the pool.
    pub fn despawn(&mut self, ent: u64)
        requires
            old(self).wf(),
            old(self).entities().contains_key(ent),
        ensures
            final(self).wf(),
            final(self).entities() == old(self).entities().remove(ent),
            final(self).spec_tick() == old(self).spec_tick(),
            old(self).entities()[ent].replicated is None ==> final(self).pairs() == old(self).pairs()
                && final(self).pool() == old(self).pool(),
            old(self).entities()[ent].replicated is Some ==> exists|t: ReplToken|
                {
                    &&& #[trigger] old(self).pairs().contains_key(t)
                    &&& old(self).pairs()[t] == ent
                    &&& final(self).pairs() == old(self).pairs().remove(t)
                    // the token goes back to the pool, its key moving to the next generation
                    &&& final(self).pool()@.0 == old(self).pool()@.0.update(
                        t.0 as int,
                        next_generation(t.1),
                    )
                    &&& final(self).pool()@.1 == old(self).pool()@.1.insert(t.0)
                    &&& final(self).pool().wf()
                },
    {
        let c = world_get(&self.world, ent).unwrap();
        if c.replicated.is_some() {
            let removed = token_map_remove_by_right(&mut self.ent_map, ent);
            match removed {
                Some(t) => {
                    proof {
                        assert(old(self).pool().is_live_parts(t.0, t.1));
                    }
                    let token = PoolToken::from_parts(t.0, t.1);
                    self.repl_token_pool.free(token);
                    proof {
                        assert forall|u: ReplToken| #[trigger] self.pairs().contains_key(u) implies
                            self.pool().is_live_parts(u.0, u.1) by {
                            assert(old(self).pairs().contains_key(u));
                            assert(u.0 != t.0) by {
                                if u.0 == t.0 {
                                    assert(old(self).pool().is_live_parts(u.0, u.1));
                                    assert(u == t);
                                }
                            }
                        }
                    }
                },
                None => {
                    proof {
                        let u = choose|u: ReplToken| #[trigger] old(self).pairs().contains_key(u)
                            && old(self).pairs()[u] == ent;
                        assert(old(self).pairs().values().contains(ent));
                    }
                },
            }
        }
        world_despawn(&mut self.world, ent);
        proof {
            assert forall|x: u64| #[trigger] self.entities().contains_key(x) && self.entities()[x].replicated is Some
                implies exists|u: ReplToken| #[trigger] self.pairs().contains_key(u) && self.pairs()[u] == x by {
                let u = choose|u: ReplToken| #[trigger] old(self).pairs().contains_key(u) && old(self).pairs()[u] == x;
                assert(self.pairs().contains_key(u));
            }
        }
    }

    /// Whether one more entity can be spawned.
    pub fn can_spawn(&self) -> (r: bool)
        requires
            self.wf(),
        ensures
            r == self.has_room(),
    {
        let n = world_len(&self.world);
        (n as u64) + 1 < u32::MAX as u64 && self.repl_token_pool.has_capacity()
    }

    /// The components of `ent`, if it is live.
    pub fn components(&self, ent: u64) -> (r: Option<Components>)
        ensures
            r == self.entities().get(ent),
    {
        world_get(&self.world, ent)
    }

    /// The handles of all live entities, each once.
    pub fn entity_handles(&self) -> (r: Vec<u64>)
        ensures
            r@.to_set() == self.entities().dom(),
            r@.no_duplicates(),
    {
        world_entity_bits(&self.world)
    }

    /// Overwrites the components of a live entity, keeping whether it is replicated.
    pub fn set_components(&mut self, ent: u64, c: Components)
        requires
            old(self).wf(),
            old(self).entities().contains_key(ent),
            old(self).entities()[ent].replicated == c.replicated,
        ensures
            final(self).wf(),
            final(self).entities() == old(self).entities().insert(ent, c),
            final(self).pairs() == old(self).pairs(),
            final(self).pool() == old(self).pool(),
            final(self).spec_tick() == old(self).spec_tick(),
    {
        world_spawn_at(&mut self.world, ent, c);
        proof {
            assert(self.entities().dom() =~= old(self).entities().dom());
            assert forall|x: u64| #[trigger] self.entities().contains_key(x) && self.entities()[x].replicated is Some
                implies exists|u: ReplToken| #[trigger] self.pairs().contains_key(u) && self.pairs()[u] == x by {
                let u = choose|u: ReplToken| #[trigger] old(self).pairs().contains_key(u) && old(self).pairs()[u] == x;
                assert(self.pairs().contains_key(u));
            }
        }
    }

    /// Every live token, each once.
    pub fn tokens(&self) -> (r: Vec<ReplToken>)
        ensures
            r@.to_set() == self.pairs().dom(),
            r@.no_duplicates(),
    {
        token_map_lefts(&self.ent_map)
    }

    /// The entity that holds `token`.
    pub fn entity_for_token(&self, token: ReplToken) -> (r: u64)
        requires
            self.pairs().contains_key(token),
        ensures
            r == self.pairs()[token],
    {
        token_map_get(&self.ent_map, token).unwrap()
    }

    /// Priority gained this tick by the replicated entity `ent`.
    pub fn calc_priority_inc(&self, ent: u64) -> (r: Priority)
        requires
            self.entities().contains_key(ent),
            self.entities()[ent].replicated is Some,
        ensures
            r == priority_inc_of(self.entities()[ent].replicated->Some_0.blueprint),
    {
        let c = world_get(&self.world, ent).unwrap();
        let repl = c.replicated.unwrap();
        match repl.blueprint {
            None => 1,
            Some(Blueprint::Player) => 1000,
            Some(Blueprint::Bullet) => 100,
            Some(Blueprint::Static) => 10,
        }
    }

    /// Priority gained this tick by an object that was deleted.
    pub fn calc_deleted_priority_accum(&self) -> (r: Priority)
        ensures
            r == deleted_priority_inc(),
    {
        10
    }
}

} // verus!
