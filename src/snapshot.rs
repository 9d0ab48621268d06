use vstd::prelude::*;

use std::collections::BTreeMap;
use vstd::std_specs::iter::IteratorSpec;

verus! {

broadcast use {vstd::std_specs::btree::group_btree_axioms, vstd::laws_cmp::group_laws_cmp};

/// The keys of `m`, each once.
pub fn keys_of<V>(m: &BTreeMap<u32, V>) -> (r: Vec<u32>)
    ensures
        r@.to_set() == m@.dom(),
        r@.no_duplicates(),
{
    let ghost ks = m.keys().remaining();
    let mut out: Vec<u32> = Vec::new();
    for k in it: m.keys()
        invariant
            it.seq() == ks,
            out@ == it.seq().take(it.index() as int).map_values(|x: &u32| *x),
    {
        out.push(*k);
    }
    proof {
        assert(out@ =~= ks.map_values(|x: &u32| *x));
        assert(ks.unref() == ks.map_values(|x: &u32| *x));
    }
    out
}

} // verus!

verus! {

use crate::components::Components;
use crate::world::{
    entity_index, world_despawn, world_entities, world_entity_bits, world_get, world_len, world_new,
    world_ok, world_spawn, world_spawn_at,
};

/// Replication key: the key part of a token.
pub type ReplKey = u32;

/// How urgently an object waits to be sent.
pub type Priority = u32;

/// A token as `(key, generation)`.
pub type ReplToken = (u32, u32);

/// A copy of a world's entities, with the entity each replication key names in it.
pub struct Snapshot {
    world: hecs::World,
    ent_map: BTreeMap<ReplKey, u64>,
}

impl Snapshot {
    /// Every entity of the snapshot, keyed by handle bits.
    pub closed spec fn entities(&self) -> Map<u64, Components> {
        world_entities(self.world)
    }

    /// The entity each replication key names.
    pub closed spec fn key_map(&self) -> Map<ReplKey, u64> {
        self.ent_map@
    }

    pub closed spec fn wf(&self) -> bool {
        &&& world_ok(self.entities())
        &&& self.entities().dom().finite()
        &&& forall|k: ReplKey| #[trigger]
            self.key_map().contains_key(k) ==> self.entities().contains_key(self.key_map()[k])
        &&& forall|a: ReplKey, b: ReplKey| #[trigger]
            self.key_map().contains_key(a) && #[trigger] self.key_map().contains_key(b) && a != b
                ==> self.key_map()[a] != self.key_map()[b]
    }

    /// The components of the entity under each replication key.
    pub open spec fn replicated(&self) -> Map<ReplKey, Components> {
        Map::new(
            |k: ReplKey| self.key_map().contains_key(k),
            |k: ReplKey| self.entities()[self.key_map()[k]],
        )
    }

    /// The entities that no replication key names.
    pub open spec fn unnamed(&self) -> Map<u64, Components> {
        self.entities().restrict(
            self.entities().dom().filter(|e: u64| !self.key_map().values().contains(e)),
        )
    }

    /// Every entity is either named by exactly one key or unnamed.
    pub proof fn lemma_entities_split(&self)
        requires
            self.wf(),
        ensures
            self.entities().dom() == self.unnamed().dom() + self.key_map().values(),
            self.unnamed().dom().disjoint(self.key_map().values()),
    {
        assert forall|e: u64| #[trigger] self.key_map().values().contains(e) implies self.entities().contains_key(e) by {
            let k = choose|k: ReplKey| self.key_map().contains_key(k) && self.key_map()[k] == e;
        }
        assert(self.entities().dom() =~= self.unnamed().dom() + self.key_map().values());
    }

    /// Whether one more entity can be spawned.
    pub open spec fn has_room(&self) -> bool {
        self.entities().len() + 1 < u32::MAX
    }

    pub fn new() -> (r: Self)
        ensures
            r.wf(),
            r.entities().dom().is_empty(),
            r.key_map().dom().is_empty(),
            r.replicated().dom().is_empty(),
    {
        let r = Snapshot { world: world_new(), ent_map: BTreeMap::new() };
        proof {
            assert(r.entities() =~= Map::empty());
            assert(r.replicated().dom() =~= Set::empty());
        }
        r
    }

    /// Adds an entity that no replication key names.
    pub fn spawn_entity(&mut self, c: Components) -> (r: u64)
        requires
            old(self).wf(),
            old(self).has_room(),
        ensures
            final(self).wf(),
            final(self).entities() == old(self).entities().insert(r, c),
            !old(self).entities().contains_key(r),
            final(self).key_map() == old(self).key_map(),
            final(self).replicated() == old(self).replicated(),
            final(self).unnamed() == old(self).unnamed().insert(r, c),
    {
        let r = world_spawn(&mut self.world, c);
        proof {
            assert(!old(self).entities().contains_key(r)) by {
                if old(self).entities().contains_key(r) {
                    assert(entity_index(r) != entity_index(r));
                }
            }
            assert(self.replicated() =~= old(self).replicated());
            assert(!old(self).key_map().values().contains(r)) by {
                if old(self).key_map().values().contains(r) {
                    let k = choose|k: ReplKey| old(self).key_map().contains_key(k) && old(self).key_map()[k] == r;
                }
            }
            assert(self.unnamed() =~= old(self).unnamed().insert(r, c));
        }
        r
    }

    /// The components of every entity, in no particular order.
    pub fn entity_components(&self) -> (r: Vec<Components>)
        requires
            self.wf(),
        ensures
            r@.len() == self.entities().len(),
            forall|i: int| 0 <= i < r@.len() ==> self.entities().values().contains(#[trigger] r@[i]),
            forall|c: Components| #[trigger] self.entities().values().contains(c) ==> r@.contains(c),
    {
        let ids = world_entity_bits(&self.world);
        proof {
            ids@.unique_seq_to_set();
        }
        let mut out: Vec<Components> = Vec::new();
        let mut i: usize = 0;
        while i < ids.len()
            invariant
                i <= ids@.len(),
                out@.len() == i,
                ids@.to_set() == self.entities().dom(),
                forall|j: int| 0 <= j < i ==> out@[j] == self.entities()[ids@[j]],
            decreases ids@.len() - i,
        {
            let c = world_get(&self.world, ids[i]);
            proof {
                assert(ids@.contains(ids@[i as int]));
            }
            match c {
                Some(c) => out.push(c),
                None => {},
            }
            i = i + 1;
        }
        proof {
            assert forall|j: int| 0 <= j < out@.len() implies self.entities().values().contains(
                #[trigger] out@[j],
            ) by {
                assert(ids@.contains(ids@[j]));
                assert(ids@.to_set().contains(ids@[j]));
                assert(self.entities().contains_key(ids@[j]));
            }
            assert forall|c: Components| #[trigger] self.entities().values().contains(c) implies out@.contains(c) by {
                let k = choose|k: u64| self.entities().contains_key(k) && self.entities()[k] == c;
                assert(ids@.to_set().contains(k));
                let j = ids@.index_of(k);
                assert(out@[j] == c);
            }
        }
        out
    }

    /// How many entities the snapshot holds.
    pub fn entity_count(&self) -> (r: u32)
        ensures
            r == self.entities().len(),
    {
        world_len(&self.world)
    }

    /// The components of the entity under `key`.
    pub fn get_by_key(&self, key: ReplKey) -> (r: Option<Components>)
        requires
            self.wf(),
        ensures
            r == self.replicated().get(key),
    {
        match self.ent_map.get(&key) {
            Some(e) => world_get(&self.world, *e),
            None => None,
        }
    }

    /// Whether `key` names an entity of this snapshot.
    pub fn contains_key(&self, key: ReplKey) -> (r: bool)
        requires
            self.wf(),
        ensures
            r == self.replicated().contains_key(key),
    {
        self.ent_map.contains_key(&key)
    }

    /// Overwrites the components of the entity under `key`.
    pub fn set_by_key(&mut self, key: ReplKey, c: Components)
        requires
            old(self).wf(),
            old(self).replicated().contains_key(key),
        ensures
            final(self).wf(),
            final(self).entities().len() == old(self).entities().len(),
            final(self).replicated() == old(self).replicated().insert(key, c),
            final(self).key_map() == old(self).key_map(),
            final(self).unnamed() == old(self).unnamed(),
    {
        let e = *self.ent_map.get(&key).unwrap();
        proof {
            assert forall|k: u64| #[trigger] self.entities().contains_key(k) && k != e implies entity_index(
                k,
            ) != entity_index(e) by {}
        }
        world_spawn_at(&mut self.world, e, c);
        proof {
            assert(self.entities().dom() =~= old(self).entities().dom());
            assert(self.replicated() =~= old(self).replicated().insert(key, c));
            assert(old(self).key_map().values().contains(e));
            assert(self.unnamed() =~= old(self).unnamed());
        }
    }

    /// Removes the entity under `key` and the key itself.
    pub fn remove_by_key(&mut self, key: ReplKey)
        requires
            old(self).wf(),
            old(self).replicated().contains_key(key),
        ensures
            final(self).wf(),
            final(self).entities().len() < old(self).entities().len(),
            final(self).replicated() == old(self).replicated().remove(key),
            final(self).entities() == old(self).entities().remove(old(self).key_map()[key]),
            final(self).key_map() == old(self).key_map().remove(key),
            final(self).unnamed() == old(self).unnamed(),
    {
        let e = *self.ent_map.get(&key).unwrap();
        world_despawn(&mut self.world, e);
        self.ent_map.remove(&key);
        proof {
            assert(self.replicated() =~= old(self).replicated().remove(key));
            assert forall|x: u64| #[trigger] old(self).key_map().values().contains(x) && x != e implies self.key_map().values().contains(x) by {
                let k = choose|k: ReplKey| old(self).key_map().contains_key(k) && old(self).key_map()[k] == x;
                assert(self.key_map().contains_key(k));
            }
            assert forall|x: u64| #[trigger] self.key_map().values().contains(x) implies old(self).key_map().values().contains(x) by {
                let k = choose|k: ReplKey| self.key_map().contains_key(k) && self.key_map()[k] == x;
                assert(old(self).key_map().contains_key(k));
            }
            assert(old(self).key_map().values().contains(e));
            assert(self.unnamed() =~= old(self).unnamed());
        }
    }

    /// Spawns a fresh entity under `key`, first removing any entity the key named.
    pub fn spawn_by_key(&mut self, key: ReplKey, c: Components)
        requires
            old(self).wf(),
            old(self).has_room(),
        ensures
            final(self).wf(),
            final(self).entities().len() <= old(self).entities().len() + 1,
            final(self).replicated() == old(self).replicated().insert(key, c),
            final(self).unnamed() == old(self).unnamed(),
    {
        if self.ent_map.contains_key(&key) {
            self.remove_by_key(key);
        } else {
            assert(old(self).replicated().remove(key) =~= old(self).replicated());
        }
        let ghost mid = *self;
        assert(mid.replicated() == old(self).replicated().remove(key));
        assert(!mid.replicated().contains_key(key));
        let e = world_spawn(&mut self.world, c);
        proof {
            assert(!mid.entities().contains_key(e)) by {
                if mid.entities().contains_key(e) {
                    assert(entity_index(e) != entity_index(e));
                }
            }
            assert(!mid.key_map().contains_key(key));
            assert forall|k: ReplKey| #[trigger] mid.key_map().contains_key(k) implies mid.key_map()[k]
                != e && self.entities()[mid.key_map()[k]] == mid.entities()[mid.key_map()[k]] by {}
        }
        self.ent_map.insert(key, e);
        proof {
            assert forall|k: ReplKey| #[trigger] self.replicated().contains_key(k) implies self.replicated()[k]
                == mid.replicated().insert(key, c)[k] by {
                if k != key {
                    assert(mid.key_map().contains_key(k));
                    assert(self.key_map()[k] == mid.key_map()[k]);
                }
            }
            assert(self.replicated() =~= mid.replicated().insert(key, c));
            assert(mid.unnamed() == old(self).unnamed());
            assert forall|x: u64| #[trigger] mid.key_map().values().contains(x) implies self.key_map().values().contains(x) by {
                let k = choose|k: ReplKey| mid.key_map().contains_key(k) && mid.key_map()[k] == x;
                assert(self.key_map().contains_key(k));
            }
            assert forall|x: u64| #[trigger] self.key_map().values().contains(x) && x != e implies mid.key_map().values().contains(x) by {
                let k = choose|k: ReplKey| self.key_map().contains_key(k) && self.key_map()[k] == x;
                assert(k != key);
                assert(mid.key_map().contains_key(k));
            }
            assert(self.key_map().values().contains(e)) by {
                assert(self.key_map().contains_key(key));
            }
            assert(self.unnamed() =~= mid.unnamed());
        }
    }

    /// An independent copy holding the same entities under the same handles and
    /// the same replication keys.
    pub fn clone_mut(&self) -> (r: Snapshot)
        requires
            self.wf(),
        ensures
            r.wf(),
            r.entities() == self.entities(),
            r.key_map() == self.key_map(),
            r.replicated() == self.replicated(),
    {
        let ids = world_entity_bits(&self.world);
        proof {
            ids@.unique_seq_to_set();
        }
        let mut world = world_new();
        let mut i: usize = 0;
        while i < ids.len()
            invariant
                i <= ids@.len(),
                ids@.to_set() == self.entities().dom(),
                ids@.no_duplicates(),
                world_ok(self.entities()),
                world_entities(world) == self.entities().restrict(ids@.take(i as int).to_set()),
            decreases ids@.len() - i,
        {
            proof {
                assert(ids@.contains(ids@[i as int]));
            }
            let c = world_get(&self.world, ids[i]).unwrap();
            proof {
                assert forall|k: u64| #[trigger] world_entities(world).contains_key(k) && k != ids@[i as int]
                    implies entity_index(k) != entity_index(ids@[i as int]) by {
                    assert(self.entities().contains_key(k));
                }
            }
            world_spawn_at(&mut world, ids[i], c);
            proof {
                assert(ids@.take(i + 1) =~= ids@.take(i as int).push(ids@[i as int]));
                ids@.take(i as int).lemma_push_to_set_commute(ids@[i as int]);
                assert(world_entities(world) =~= self.entities().restrict(ids@.take(i + 1).to_set()));
            }
            i = i + 1;
        }
        proof {
            assert(ids@.take(i as int) =~= ids@);
            assert(world_entities(world) =~= self.entities());
        }
        let r = Snapshot { world, ent_map: self.ent_map.clone() };
        proof {
            assert(r.replicated() =~= self.replicated());
        }
        r
    }
}

} // verus!

verus! {

/// Per-client replication bookkeeping: the latest token known for each key and
/// the priority gathered by objects that were not sent yet.
pub struct ServerSnapshotMeta {
    token_map: BTreeMap<ReplKey, ReplToken>,
    priority_map: BTreeMap<ReplKey, Priority>,
}

impl ServerSnapshotMeta {
    pub closed spec fn tokens(&self) -> Map<ReplKey, ReplToken> {
        self.token_map@
    }

    pub closed spec fn priorities(&self) -> Map<ReplKey, Priority> {
        self.priority_map@
    }

    pub fn new() -> (r: Self)
        ensures
            r.tokens().dom().is_empty(),
            r.priorities().dom().is_empty(),
    {
        ServerSnapshotMeta { token_map: BTreeMap::new(), priority_map: BTreeMap::new() }
    }

    pub fn from_maps(
        token_map: BTreeMap<ReplKey, ReplToken>,
        priority_map: BTreeMap<ReplKey, Priority>,
    ) -> (r: Self)
        ensures
            r.tokens() == token_map@,
            r.priorities() == priority_map@,
    {
        ServerSnapshotMeta { token_map, priority_map }
    }

    /// A copy with the same maps.
    pub fn copy(&self) -> (r: Self)
        ensures
            r.tokens() == self.tokens(),
            r.priorities() == self.priorities(),
    {
        ServerSnapshotMeta { token_map: self.token_map.clone(), priority_map: self.priority_map.clone() }
    }

    /// The latest token known for `key`.
    pub fn token_for_key(&self, key: ReplKey) -> (r: Option<ReplToken>)
        ensures
            r == self.tokens().get(key),
    {
        match self.token_map.get(&key) {
            Some(t) => Some(*t),
            None => None,
        }
    }

    /// The priority gathered so far by the object under `key`.
    pub fn priority_for_key(&self, key: ReplKey) -> (r: Option<Priority>)
        ensures
            r == self.priorities().get(key),
    {
        match self.priority_map.get(&key) {
            Some(p) => Some(*p),
            None => None,
        }
    }

    /// The keys that have a known token.
    pub fn token_keys(&self) -> (r: Vec<ReplKey>)
        ensures
            r@.to_set() == self.tokens().dom(),
            r@.no_duplicates(),
    {
        keys_of(&self.token_map)
    }
}

/// A snapshot as retained for one client, with its replication bookkeeping.
pub struct ServerSnapshot {
    inner: Snapshot,
    meta: ServerSnapshotMeta,
}

impl ServerSnapshot {
    pub closed spec fn spec_inner(&self) -> Snapshot {
        self.inner
    }

    pub closed spec fn spec_meta(&self) -> ServerSnapshotMeta {
        self.meta
    }

    pub open spec fn wf(&self) -> bool {
        self.spec_inner().wf()
    }

    pub fn new() -> (r: Self)
        ensures
            r.wf(),
            r.spec_inner().replicated().dom().is_empty(),
            r.spec_inner().entities().dom().is_empty(),
            r.spec_meta().tokens().dom().is_empty(),
            r.spec_meta().priorities().dom().is_empty(),
    {
        ServerSnapshot { inner: Snapshot::new(), meta: ServerSnapshotMeta::new() }
    }

    pub fn inner(&self) -> (r: &Snapshot)
        ensures
            *r == self.spec_inner(),
    {
        &self.inner
    }

    pub fn meta(&self) -> (r: &ServerSnapshotMeta)
        ensures
            *r == self.spec_meta(),
    {
        &self.meta
    }

}

/// The token map kept once unneeded entries are dropped: a key stays when the
/// snapshot has an entity under it or it still waits with some priority.
pub open spec fn stripped_tokens(
    tokens: Map<ReplKey, ReplToken>,
    present: Set<ReplKey>,
    priorities: Map<ReplKey, Priority>,
) -> Map<ReplKey, ReplToken> {
    tokens.restrict(tokens.dom().filter(|k: ReplKey| present.contains(k) || priorities.contains_key(k)))
}

impl Snapshot {
    /// Attaches `meta`, first dropping the tokens of keys that neither have an
    /// entity in this snapshot nor carry priority.
    pub fn server_augment(self, meta: ServerSnapshotMeta) -> (r: ServerSnapshot)
        ensures
            r.spec_inner() == self,
            r.spec_meta().priorities() == meta.priorities(),
            r.spec_meta().tokens() == stripped_tokens(
                meta.tokens(),
                self.key_map().dom(),
                meta.priorities(),
            ),
    {
        let ServerSnapshotMeta { mut token_map, priority_map } = meta;
        let keys = keys_of(&token_map);
        let ghost t0 = token_map@;
        let mut i: usize = 0;
        while i < keys.len()
            invariant
                i <= keys@.len(),
                keys@.to_set() == t0.dom(),
                keys@.no_duplicates(),
                token_map@ == t0.restrict(
                    t0.dom().filter(
                        |k: ReplKey|
                            !keys@.take(i as int).contains(k) || self.ent_map@.contains_key(k)
                                || priority_map@.contains_key(k),
                    ),
                ),
            decreases keys@.len() - i,
        {
            let k = keys[i];
            let ghost before = token_map@;
            if !self.ent_map.contains_key(&k) && !priority_map.contains_key(&k) {
                token_map.remove(&k);
            }
            proof {
                assert(keys@.take(i + 1) =~= keys@.take(i as int).push(k));
                assert forall|x: ReplKey| #[trigger] keys@.take(i + 1).contains(x) <==> (keys@.take(
                    i as int,
                ).contains(x) || x == k) by {
                    if keys@.take(i + 1).contains(x) {
                        let j = keys@.take(i + 1).index_of(x);
                        if j < i {
                            assert(keys@.take(i as int)[j] == x);
                        }
                    }
                    if keys@.take(i as int).contains(x) {
                        let j = keys@.take(i as int).index_of(x);
                        assert(keys@.take(i + 1)[j] == x);
                    }
                    if x == k {
                        assert(keys@.take(i + 1)[i as int] == x);
                    }
                }
                assert(token_map@ =~= t0.restrict(
                    t0.dom().filter(
                        |x: ReplKey|
                            !keys@.take(i + 1).contains(x) || self.ent_map@.contains_key(x)
                                || priority_map@.contains_key(x),
                    ),
                ));
            }
            i = i + 1;
        }
        proof {
            assert(keys@.take(i as int) =~= keys@);
            assert forall|x: ReplKey| #[trigger] t0.dom().contains(x) implies keys@.contains(x) by {
                assert(keys@.to_set().contains(x));
            }
            assert(token_map@ =~= stripped_tokens(t0, self.key_map().dom(), priority_map@));
        }
        ServerSnapshot { inner: self, meta: ServerSnapshotMeta { token_map, priority_map } }
    }
}

} // verus!
