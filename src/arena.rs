use vstd::arithmetic::div_mod::{lemma_fundamental_div_mod, lemma_fundamental_div_mod_converse};
use vstd::prelude::*;

use std::collections::BTreeMap;

use crate::circular::{RollingBuf, RollingBufError};
use crate::components::ClientId;
use crate::delta::{
    admitted, apply_actions, candidates_of, lemma_diff_applies, newest_tokens, PrioritizedAction,
    ServerDelta, ADMISSION_CAP,
};
use crate::realm::Realm;
use crate::systems::after_systems;
use crate::snapshot::{stripped_tokens, ServerSnapshot};

verus! {

/// How many snapshots each client's history keeps.
pub const SNAPSHOT_CAP: usize = 256;

/// The range of the wrapping snapshot sequence numbers.
pub const SNAPSHOT_VCAP: usize = 4096;

/// A history of snapshots addressed by wrapping sequence numbers.
pub type SnapshotBuf<T> = RollingBuf<T, SNAPSHOT_CAP, SNAPSHOT_VCAP>;

/// What the orchestrator keeps per client: the snapshots the client was sent,
/// and the sequence number of the newest.
pub struct ClientHandle {
    snapshots: SnapshotBuf<ServerSnapshot>,
    latest: usize,
}

impl ClientHandle {
    pub closed spec fn history(&self) -> SnapshotBuf<ServerSnapshot> {
        self.snapshots
    }

    /// The sequence number of the newest snapshot.
    pub closed spec fn spec_latest(&self) -> usize {
        self.latest
    }

    pub closed spec fn wf(&self) -> bool {
        &&& self.snapshots.wf()
        &&& self.latest < SNAPSHOT_VCAP
        &&& forall|i: int|
            0 <= i < self.snapshots@.len() && (#[trigger] self.snapshots@[i]) is Some
                ==> self.snapshots@[i]->Some_0.wf()
    }

    /// The snapshot the next batch is computed from, if the history still holds it.
    pub open spec fn base(&self) -> Option<ServerSnapshot> {
        match self.history().lookup(self.spec_latest() as int) {
            Ok(Some(s)) => Some(s),
            _ => None,
        }
    }

    /// A client that has seen nothing: its history starts with an empty snapshot.
    pub fn new() -> (r: Self)
        ensures
            r.wf(),
            r.spec_latest() == 0,
            r.history().spec_start() == 0,
            r.base() is Some,
            r.base()->Some_0.spec_inner().replicated().dom().is_empty(),
            r.base()->Some_0.spec_meta().tokens().dom().is_empty(),
    {
        let mut snapshots: SnapshotBuf<ServerSnapshot> = RollingBuf::new();
        let _ = snapshots.add(0, ServerSnapshot::new());
        ClientHandle { snapshots, latest: 0 }
    }

    /// Whether the history's positions leave room for another tick.
    pub fn can_tick(&self) -> (r: bool)
        ensures
            r == (self.history().spec_start() + 2 * SNAPSHOT_VCAP <= usize::MAX),
    {
        self.snapshots.start() <= usize::MAX - 2 * SNAPSHOT_VCAP
    }

    pub fn latest(&self) -> (r: usize)
        ensures
            r == self.spec_latest(),
    {
        self.latest
    }

    /// This tick's batch for the client: the newest retained snapshot is diffed
    /// against `realm`, and the snapshot the client will have once the batch
    /// arrives is recorded under the next sequence number. It fails, leaving the
    /// history as it was, only when the newest snapshot is no longer held or the
    /// client's snapshot would outgrow the entity handle space.
    pub fn tick(&mut self, realm: &Realm) -> (r: Result<ServerDelta, RollingBufError>)
        requires
            old(self).wf(),
            realm.wf(),
            old(self).history().spec_start() + 2 * SNAPSHOT_VCAP <= usize::MAX,
        ensures
            final(self).wf(),
            tick_outcome(*old(self), *realm, *final(self), r),
    {
        let ghost start0 = self.snapshots.spec_start() as int;
        let base = match self.snapshots.index(self.latest) {
            Ok(Some(b)) => b,
            Ok(None) => return Err(RollingBufError::OutOfBounds),
            Err(e) => return Err(e),
        };
        let ghost tl = RollingBuf::<ServerSnapshot, SNAPSHOT_CAP, SNAPSHOT_VCAP>::resolve(
            start0,
            self.latest as int,
        )->Ok_0;
        proof {
            assert(self.snapshots@[tl - start0] is Some);
            RollingBuf::<ServerSnapshot, SNAPSHOT_CAP, SNAPSHOT_VCAP>::lemma_resolve_mod(
                start0,
                self.latest as int,
            );
            self.snapshots.lemma_len_bound();
        }
        let ghost b = *base;
        let delta = ServerDelta::diff(base, realm);
        let ghost c = choose|c: Seq<PrioritizedAction>|
            {
                &&& candidates_of(b, *realm, c)
                &&& admitted(c, ADMISSION_CAP as nat, delta.inner.actions@, delta.server_meta.priorities())
            };
        proof {
            assert(delta.inner.actions@.len() <= ADMISSION_CAP);
        }
        let count = base.inner().entity_count();
        if count as usize >= (u32::MAX - 1) as usize - delta.inner.actions.len() {
            return Err(RollingBufError::OutOfBounds);
        }
        proof {
            lemma_diff_applies(b, *realm, c, delta.inner.actions@, delta.server_meta.priorities());
        }
        let next = delta.apply_server(base);
        let next_index = if self.latest + 1 == SNAPSHOT_VCAP {
            0
        } else {
            self.latest + 1
        };
        let ghost t = tl + 1;
        proof {
            let v = SNAPSHOT_VCAP as int;
            lemma_fundamental_div_mod(tl, v);
            let q = tl / v;
            if self.latest + 1 < v {
                lemma_fundamental_div_mod_converse(t, v, q, self.latest + 1);
            } else {
                assert(v * (q + 1) == v * q + v) by (nonlinear_arith);
                lemma_fundamental_div_mod_converse(t, v, q + 1, 0);
            }
            assert(t % v == next_index);
            RollingBuf::<ServerSnapshot, SNAPSHOT_CAP, SNAPSHOT_VCAP>::lemma_resolve_within(start0, t);
        }
        let ghost before = self.snapshots;
        match self.snapshots.add(next_index, next) {
            Ok(_) => {
                self.latest = next_index;
                proof {
                    assert forall|i: int|
                        0 <= i < self.snapshots@.len() && (#[trigger] self.snapshots@[i]) is Some implies self.snapshots@[i]->Some_0.wf() by {
                        let j = self.snapshots.spec_start() + i;
                        if j < before.spec_start() + before@.len() && j != t {
                            assert(self.snapshots@[i] == before@[j - before.spec_start()]);
                        }
                    }
                    let s1 = self.snapshots.spec_start() as int;
                    assert(s1 <= t < s1 + self.snapshots@.len());
                    self.snapshots.lemma_round_trip(t);
                    assert(self.snapshots@[t - s1] == Some(next));
                }
                Ok(delta)
            },
            Err(e) => {
                proof {
                    assert(false);
                }
                Err(e)
            },
        }
    }
}

/// What one tick does to a client's history. It fails only when the newest
/// snapshot is gone or its entities leave no room for the batch, and then
/// changes nothing. On success the batch is the diff of the newest snapshot
/// against the realm, and the snapshot the client has once the batch arrives
/// is recorded as the newest under the next sequence number.
pub open spec fn tick_outcome(
    before: ClientHandle,
    realm: Realm,
    after: ClientHandle,
    r: Result<ServerDelta, RollingBufError>,
) -> bool {
    &&& r is Err ==> after == before
    &&& before.base() is None ==> r is Err
    &&& before.base() is Some && before.base()->Some_0.spec_inner().entities().len()
        + ADMISSION_CAP + 1 < u32::MAX ==> r is Ok
    &&& r is Ok ==> {
        let b = before.base()->Some_0;
        let d = r->Ok_0;
        &&& before.base() is Some
        &&& exists|c: Seq<PrioritizedAction>|
            {
                &&& candidates_of(b, realm, c)
                &&& admitted(c, ADMISSION_CAP as nat, d.inner.actions@, d.server_meta.priorities())
            }
        &&& d.server_meta.tokens() == newest_tokens(b, realm)
        &&& after.spec_latest() == if before.spec_latest() + 1 == SNAPSHOT_VCAP {
            0
        } else {
            before.spec_latest() + 1
        }
        &&& after.base() is Some
        &&& after.base()->Some_0.spec_inner().replicated() == apply_actions(
            b.spec_inner().replicated(),
            d.inner.actions@,
        )->Some_0
        &&& after.base()->Some_0.spec_meta().priorities() == d.server_meta.priorities()
        &&& after.base()->Some_0.spec_meta().tokens() == stripped_tokens(
            d.server_meta.tokens(),
            after.base()->Some_0.spec_inner().key_map().dom(),
            d.server_meta.priorities(),
        )
    }
}

/// One match: the realm and the clients attached to it.
pub struct Arena {
    realm: Realm,
    clients: BTreeMap<ClientId, ClientHandle>,
}

impl Arena {
    pub closed spec fn spec_realm(&self) -> Realm {
        self.realm
    }

    pub closed spec fn spec_clients(&self) -> Map<ClientId, ClientHandle> {
        self.clients@
    }

    pub closed spec fn wf(&self) -> bool {
        &&& self.realm.wf()
        &&& forall|id: ClientId| #[trigger] self.clients@.contains_key(id) ==> self.clients@[id].wf()
    }

    pub fn new() -> (r: Self)
        ensures
            r.wf(),
            r.spec_clients().dom().is_empty(),
    {
        Arena { realm: Realm::new(), clients: BTreeMap::new() }
    }

    pub fn realm(&self) -> (r: &Realm)
        ensures
            *r == self.spec_realm(),
    {
        &self.realm
    }

    /// Reserves a slot for a client; a slot already held under `id` starts over.
    pub fn alloc_client(&mut self, id: ClientId)
        requires
            old(self).wf(),
        ensures
            final(self).wf(),
            final(self).spec_clients().dom() == old(self).spec_clients().dom().insert(id),
            final(self).spec_clients()[id].spec_latest() == 0,
            final(self).spec_realm() == old(self).spec_realm(),
    {
        self.clients.insert(id, ClientHandle::new());
    }

    /// Allocates the lowest free client id for a joining client; `None` when
    /// every id below the largest one is taken.
    pub fn join_client(&mut self) -> (r: Option<ClientId>)
        requires
            old(self).wf(),
        ensures
            final(self).wf(),
            final(self).spec_realm() == old(self).spec_realm(),
            r is None ==> (forall|j: ClientId| j < ClientId::MAX ==> #[trigger] old(
                self,
            ).spec_clients().contains_key(j)) && final(self).spec_clients() == old(self).spec_clients(),
            r is Some ==> {
                &&& r->Some_0 < ClientId::MAX
                &&& !old(self).spec_clients().contains_key(r->Some_0)
                &&& forall|j: ClientId| j < r->Some_0 ==> #[trigger] old(
                    self,
                ).spec_clients().contains_key(j)
                &&& final(self).spec_clients().dom() == old(self).spec_clients().dom().insert(
                    r->Some_0,
                )
            },
    {
        let mut id: ClientId = 0;
        while id < ClientId::MAX
            invariant
                forall|j: ClientId| j < id ==> #[trigger] self.clients@.contains_key(j),
                self.clients@ == old(self).clients@,
                self.realm == old(self).realm,
                self.wf(),
            decreases ClientId::MAX - id,
        {
            if !self.clients.contains_key(&id) {
                self.alloc_client(id);
                return Some(id);
            }
            id = id + 1;
        }
        None
    }

    /// Removes a client's slot.
    pub fn drop_client(&mut self, id: ClientId)
        requires
            old(self).wf(),
        ensures
            final(self).wf(),
            final(self).spec_clients() == old(self).spec_clients().remove(id),
            final(self).spec_realm() == old(self).spec_realm(),
    {
        self.clients.remove(&id);
    }

    /// Whether a slot is held under `id`.
    pub fn has_client(&self, id: ClientId) -> (r: bool)
        ensures
            r == self.spec_clients().contains_key(id),
    {
        self.clients.contains_key(&id)
    }

    /// Advances the realm by one step of its systems.
    pub fn advance(&mut self)
        requires
            old(self).wf(),
        ensures
            final(self).wf(),
            final(self).spec_clients() == old(self).spec_clients(),
            final(self).spec_realm().entities() == after_systems(old(self).spec_realm().entities()),
    {
        self.realm.run_systems();
    }

    /// The realm, for spawning and despawning entities.
    pub fn realm_mut(&mut self) -> (r: &mut Realm)
        requires
            old(self).wf(),
        ensures
            *r == old(self).spec_realm(),
            final(self).spec_realm() == *final(r),
            final(self).spec_clients() == old(self).spec_clients(),
    {
        &mut self.realm
    }

    /// This tick's batch for client `id`; `None` when no slot is held under `id`
    /// or its history has no room left. The slot's history moves as one tick of
    /// [`ClientHandle::tick`] does; every other slot is left alone.
    pub fn client_batch(&mut self, id: ClientId) -> (r: Option<Result<ServerDelta, RollingBufError>>)
        requires
            old(self).wf(),
        ensures
            final(self).wf(),
            final(self).spec_realm() == old(self).spec_realm(),
            !old(self).spec_clients().contains_key(id) ==> r is None && final(self).spec_clients()
                == old(self).spec_clients(),
            old(self).spec_clients().contains_key(id) ==> final(self).spec_clients() == old(
                self,
            ).spec_clients().insert(id, final(self).spec_clients()[id]),
            old(self).spec_clients().contains_key(id) && old(self).spec_clients()[id].history().spec_start()
                + 2 * SNAPSHOT_VCAP <= usize::MAX ==> r is Some && tick_outcome(
                old(self).spec_clients()[id],
                old(self).spec_realm(),
                final(self).spec_clients()[id],
                r->Some_0,
            ),
    {
        match self.clients.remove(&id) {
            None => None,
            Some(mut handle) => {
                if !handle.can_tick() {
                    self.clients.insert(id, handle);
                    proof {
                        assert(self.clients@ =~= old(self).clients@);
                    }
                    return None;
                }
                let r = handle.tick(&self.realm);
                self.clients.insert(id, handle);
                proof {
                    assert(self.clients@ =~= old(self).clients@.insert(id, handle));
                }
                Some(r)
            },
        }
    }
}

} // verus!
