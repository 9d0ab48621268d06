use vstd::prelude::*;

use std::collections::BTreeMap;

use crate::components::DeltaComponentPatch;
use crate::snapshot::{Priority, ReplKey};

verus! {

broadcast use {vstd::std_specs::btree::group_btree_axioms, vstd::laws_cmp::group_laws_cmp};

/// The most actions sent to one client in one tick.
pub const ADMISSION_CAP: usize = 10;

/// What happens to one replicated object.
#[derive(Debug, PartialEq, Eq)]
pub enum DeltaEntityPatch {
    /// Build a new entity from these patches, replacing any stale one.
    SpawnEntity(Vec<DeltaComponentPatch>),
    /// Apply these patches to the existing entity.
    UpdateEntity(Vec<DeltaComponentPatch>),
    /// Remove the entity.
    DespawnEntity,
}

/// The kind of a [`DeltaEntityPatch`].
#[derive(Debug, Clone, Copy, PartialEq, Eq, Structural)]
pub enum PatchKind {
    Spawn,
    Update,
    Despawn,
}

impl DeltaEntityPatch {
    pub open spec fn kind(&self) -> PatchKind {
        match self {
            DeltaEntityPatch::SpawnEntity(_) => PatchKind::Spawn,
            DeltaEntityPatch::UpdateEntity(_) => PatchKind::Update,
            DeltaEntityPatch::DespawnEntity => PatchKind::Despawn,
        }
    }

    /// The component patches carried; none for a despawn.
    pub open spec fn patches(&self) -> Seq<DeltaComponentPatch> {
        match self {
            DeltaEntityPatch::SpawnEntity(v) => v@,
            DeltaEntityPatch::UpdateEntity(v) => v@,
            DeltaEntityPatch::DespawnEntity => Seq::empty(),
        }
    }

    /// The kind of this patch.
    pub fn patch_kind(&self) -> (r: PatchKind)
        ensures
            r == self.kind(),
    {
        match self {
            DeltaEntityPatch::SpawnEntity(_) => PatchKind::Spawn,
            DeltaEntityPatch::UpdateEntity(_) => PatchKind::Update,
            DeltaEntityPatch::DespawnEntity => PatchKind::Despawn,
        }
    }

    /// The component patches carried; empty for a despawn.
    pub fn component_patches(&self) -> (r: Vec<DeltaComponentPatch>)
        ensures
            r@ == self.patches(),
    {
        match self {
            DeltaEntityPatch::SpawnEntity(v) => copy_patches(v),
            DeltaEntityPatch::UpdateEntity(v) => copy_patches(v),
            DeltaEntityPatch::DespawnEntity => Vec::new(),
        }
    }
}

fn copy_patches(v: &Vec<DeltaComponentPatch>) -> (r: Vec<DeltaComponentPatch>)
    ensures
        r@ == v@,
{
    let mut out: Vec<DeltaComponentPatch> = Vec::new();
    let mut i: usize = 0;
    while i < v.len()
        invariant
            i <= v@.len(),
            out@ == v@.take(i as int),
        decreases v@.len() - i,
    {
        out.push(v[i]);
        proof {
            assert(v@.take(i + 1) =~= v@.take(i as int).push(v@[i as int]));
        }
        i = i + 1;
    }
    proof {
        assert(v@.take(i as int) =~= v@);
    }
    out
}

/// The changes for one replicated object.
#[derive(Debug, PartialEq, Eq)]
pub struct DeltaAction {
    pub repl_key: ReplKey,
    pub ent_patch: DeltaEntityPatch,
}

impl DeltaAction {
    /// `(key, kind, component patches)`
    pub open spec fn view_parts(&self) -> (ReplKey, PatchKind, Seq<DeltaComponentPatch>) {
        (self.repl_key, self.ent_patch.kind(), self.ent_patch.patches())
    }

    pub fn copy(&self) -> (r: DeltaAction)
        ensures
            r.view_parts() == self.view_parts(),
    {
        let ent_patch = match &self.ent_patch {
            DeltaEntityPatch::SpawnEntity(v) => DeltaEntityPatch::SpawnEntity(copy_patches(v)),
            DeltaEntityPatch::UpdateEntity(v) => DeltaEntityPatch::UpdateEntity(copy_patches(v)),
            DeltaEntityPatch::DespawnEntity => DeltaEntityPatch::DespawnEntity,
        };
        DeltaAction { repl_key: self.repl_key, ent_patch }
    }
}

/// An action waiting for admission, with the priority it has gathered.
pub struct PrioritizedAction {
    pub action: DeltaAction,
    pub priority_accum: Priority,
}

/// No two candidates are for the same key.
pub open spec fn keys_distinct(s: Seq<PrioritizedAction>) -> bool {
    forall|i: int, j: int|
        0 <= i < s.len() && 0 <= j < s.len() && i != j ==> #[trigger] s[i].action.repl_key
            != #[trigger] s[j].action.repl_key
}

/// Whether some action in `out` is for `key`.
pub open spec fn sends_key(out: Seq<DeltaAction>, key: ReplKey) -> bool {
    exists|i: int| 0 <= i < out.len() && #[trigger] out[i].repl_key == key
}

/// Whether `out` is a valid admission of `cands` under `cap`: exactly
/// `min(cap, |cands|)` distinct candidates, in order of non-increasing priority,
/// none outranked by a candidate left out; between equal priorities the lower
/// replication key wins; `left` holds the priority of each candidate left out.
pub open spec fn admitted(
    cands: Seq<PrioritizedAction>,
    cap: nat,
    out: Seq<DeltaAction>,
    left: Map<ReplKey, Priority>,
) -> bool {
    exists|idx: Seq<int>|
        {
            &&& idx.len() == out.len()
            &&& out.len() == if cap < cands.len() {
                cap
            } else {
                cands.len()
            }
            &&& forall|i: int| 0 <= i < idx.len() ==> 0 <= #[trigger] idx[i] < cands.len()
            &&& forall|i: int, j: int| 0 <= i < j < idx.len() ==> idx[i] != idx[j]
            &&& forall|i: int|
                0 <= i < idx.len() ==> (#[trigger] out[i]).view_parts()
                    == cands[idx[i]].action.view_parts()
            &&& forall|i: int, j: int|
                0 <= i < j < idx.len() ==> cands[idx[i]].priority_accum
                    >= cands[idx[j]].priority_accum
            &&& forall|j: int, i: int|
                0 <= j < cands.len() && !idx.contains(j) && 0 <= i < idx.len()
                    ==> #[trigger] cands[j].priority_accum <= #[trigger] cands[idx[i]].priority_accum
            &&& forall|j: int, i: int|
                0 <= j < cands.len() && !idx.contains(j) && 0 <= i < idx.len()
                    && #[trigger] cands[j].priority_accum == #[trigger] cands[idx[i]].priority_accum
                    ==> cands[idx[i]].action.repl_key < cands[j].action.repl_key
            &&& left == Map::new(
                |k: ReplKey|
                    exists|j: int|
                        0 <= j < cands.len() && !idx.contains(j) && #[trigger] cands[j].action.repl_key
                            == k,
                |k: ReplKey|
                    cands[choose|j: int|
                        0 <= j < cands.len() && !idx.contains(j) && #[trigger] cands[j].action.repl_key
                            == k].priority_accum,
            )
        }
}

/// Sends the highest-priority candidates, at most `cap` of them, highest first;
/// every candidate left out keeps its priority for the next computation.
pub fn select_admitted(cands: &Vec<PrioritizedAction>, cap: usize) -> (r: (Vec<DeltaAction>, BTreeMap<
    ReplKey,
    Priority,
>))
    requires
        keys_distinct(cands@),
    ensures
        admitted(cands@, cap as nat, r.0@, r.1@),
{
    let n = cands.len();
    let mut taken: Vec<bool> = Vec::new();
    let mut k: usize = 0;
    while k < n
        invariant
            k <= n == cands@.len(),
            taken@.len() == k,
            forall|j: int| 0 <= j < k ==> !taken@[j],
        decreases n - k,
    {
        taken.push(false);
        k = k + 1;
    }
    let target = if cap < n {
        cap
    } else {
        n
    };
    let mut out: Vec<DeltaAction> = Vec::new();
    let ghost mut idx: Seq<int> = Seq::empty();
    while out.len() < target
        invariant
            n == cands@.len(),
            target <= n,
            target == if cap < n {
                cap
            } else {
                n
            },
            taken@.len() == n,
            out@.len() <= target,
            idx.len() == out@.len(),
            forall|i: int| 0 <= i < idx.len() ==> 0 <= #[trigger] idx[i] < n,
            forall|i: int, j: int| 0 <= i < j < idx.len() ==> idx[i] != idx[j],
            forall|j: int| 0 <= j < n ==> (taken@[j] <==> idx.contains(j)),
            forall|i: int|
                0 <= i < idx.len() ==> (#[trigger] out@[i]).view_parts()
                    == cands@[idx[i]].action.view_parts(),
            forall|i: int, j: int|
                0 <= i < j < idx.len() ==> cands@[idx[i]].priority_accum
                    >= cands@[idx[j]].priority_accum,
            forall|j: int, i: int|
                0 <= j < n && !idx.contains(j) && 0 <= i < idx.len()
                    ==> #[trigger] cands@[j].priority_accum <= #[trigger] cands@[idx[i]].priority_accum,
            forall|j: int, i: int|
                0 <= j < n && !idx.contains(j) && 0 <= i < idx.len()
                    && #[trigger] cands@[j].priority_accum == #[trigger] cands@[idx[i]].priority_accum
                    ==> cands@[idx[i]].action.repl_key < cands@[j].action.repl_key,
            keys_distinct(cands@),
        decreases target - out@.len(),
    {
        let mut best: usize = n;
        let mut j: usize = 0;
        while j < n
            invariant
                n == cands@.len(),
                taken@.len() == n,
                j <= n,
                best == n || (best < j && !taken@[best as int]),
                best == n ==> forall|m: int| 0 <= m < j ==> taken@[m],
                best < n ==> forall|m: int|
                    0 <= m < j && !taken@[m] ==> cands@[m].priority_accum
                        <= cands@[best as int].priority_accum,
                best < n ==> forall|m: int|
                    0 <= m < j && !taken@[m] && cands@[m].priority_accum
                        == cands@[best as int].priority_accum ==> cands@[best as int].action.repl_key
                        <= cands@[m].action.repl_key,
            decreases n - j,
        {
            if !taken[j] {
                if best == n || cands[j].priority_accum > cands[best].priority_accum || (
                cands[j].priority_accum == cands[best].priority_accum
                    && cands[j].action.repl_key < cands[best].action.repl_key) {
                    best = j;
                }
            }
            j = j + 1;
        }
        proof {
            if best == n {
                assert forall|m: int| 0 <= m < n implies taken@[m] by {}
                assert forall|m: int| 0 <= m < n implies idx.contains(m) by {
                    assert(taken@[m]);
                }
                lemma_cover_needs_length(idx, n as int);
            }
        }
        out.push(cands[best].action.copy());
        taken.set(best, true);
        proof {
            let old_idx = idx;
            idx = idx.push(best as int);
            assert forall|m: int| 0 <= m < n implies (taken@[m] <==> idx.contains(m)) by {
                if m == best {
                    assert(idx[idx.len() - 1] == m);
                } else {
                    if idx.contains(m) {
                        let p = idx.index_of(m);
                        assert(p < old_idx.len());
                        assert(old_idx[p] == m);
                    }
                    if old_idx.contains(m) {
                        let p = old_idx.index_of(m);
                        assert(idx[p] == m);
                    }
                }
            }
            assert forall|i: int| 0 <= i < idx.len() implies (#[trigger] out@[i]).view_parts()
                == cands@[idx[i]].action.view_parts() by {}
            assert forall|i: int, jj: int| 0 <= i < jj < idx.len() implies idx[i] != idx[jj] by {
                if jj == idx.len() - 1 {
                    assert(!taken@[best as int] || i >= 0);
                    assert(old_idx.contains(old_idx[i]));
                }
            }
            assert forall|i: int, jj: int| 0 <= i < jj < idx.len() implies cands@[idx[i]].priority_accum
                >= cands@[idx[jj]].priority_accum by {
                if jj == idx.len() - 1 {
                    assert(!old_idx.contains(best as int));
                }
            }
            assert forall|m: int, i: int|
                0 <= m < n && !idx.contains(m) && 0 <= i < idx.len() implies #[trigger] cands@[m].priority_accum
                    <= #[trigger] cands@[idx[i]].priority_accum by {
                assert(!old_idx.contains(m)) by {
                    if old_idx.contains(m) {
                        let p = old_idx.index_of(m);
                        assert(idx[p] == m);
                    }
                }
                assert(m != best);
                assert(!taken@[m]);
            }
            assert forall|m: int, i: int|
                0 <= m < n && !idx.contains(m) && 0 <= i < idx.len()
                    && #[trigger] cands@[m].priority_accum == #[trigger] cands@[idx[i]].priority_accum
                    implies cands@[idx[i]].action.repl_key < cands@[m].action.repl_key by {
                assert(!old_idx.contains(m)) by {
                    if old_idx.contains(m) {
                        let p = old_idx.index_of(m);
                        assert(idx[p] == m);
                    }
                }
                assert(m != best);
                assert(!taken@[m]);
                assert(cands@[m].action.repl_key != cands@[best as int].action.repl_key);
            }
        }
    }
    let mut left: BTreeMap<ReplKey, Priority> = BTreeMap::new();
    let mut j: usize = 0;
    while j < n
        invariant
            n == cands@.len(),
            taken@.len() == n,
            j <= n,
            keys_distinct(cands@),
            forall|m: int| 0 <= m < n ==> (taken@[m] <==> idx.contains(m)),
            left@ == Map::new(
                |k: ReplKey|
                    exists|m: int|
                        0 <= m < j && !idx.contains(m) && #[trigger] cands@[m].action.repl_key == k,
                |k: ReplKey|
                    cands@[choose|m: int|
                        0 <= m < j && !idx.contains(m) && #[trigger] cands@[m].action.repl_key
                            == k].priority_accum,
            ),
        decreases n - j,
    {
        if !taken[j] {
            left.insert(cands[j].action.repl_key, cands[j].priority_accum);
        }
        proof {
            let kj = cands@[j as int].action.repl_key;
            assert forall|k: ReplKey| (exists|m: int|
                0 <= m < j + 1 && !idx.contains(m) && #[trigger] cands@[m].action.repl_key == k)
                implies left@.contains_key(k) && left@[k] == cands@[choose|m: int|
                0 <= m < j + 1 && !idx.contains(m) && #[trigger] cands@[m].action.repl_key
                    == k].priority_accum by {
                let m0 = choose|m: int|
                    0 <= m < j + 1 && !idx.contains(m) && #[trigger] cands@[m].action.repl_key == k;
                if m0 < j {
                    let m1 = choose|m: int|
                        0 <= m < j && !idx.contains(m) && #[trigger] cands@[m].action.repl_key == k;
                    assert(m0 == m1);
                }
            }
            assert forall|k: ReplKey| left@.contains_key(k) implies (exists|m: int|
                0 <= m < j + 1 && !idx.contains(m) && #[trigger] cands@[m].action.repl_key == k) by {
                if k != kj || taken@[j as int] {
                    let m1 = choose|m: int|
                        0 <= m < j && !idx.contains(m) && #[trigger] cands@[m].action.repl_key == k;
                    assert(0 <= m1 < j + 1);
                } else {
                    assert(cands@[j as int].action.repl_key == k);
                }
            }
            assert(left@ =~= Map::new(
                |k: ReplKey|
                    exists|m: int|
                        0 <= m < j + 1 && !idx.contains(m) && #[trigger] cands@[m].action.repl_key == k,
                |k: ReplKey|
                    cands@[choose|m: int|
                        0 <= m < j + 1 && !idx.contains(m) && #[trigger] cands@[m].action.repl_key
                            == k].priority_accum,
            ));
        }
        j = j + 1;
    }
    (out, left)
}

/// A sequence that contains every index below `n` has at least `n` entries.
proof fn lemma_cover_needs_length(idx: Seq<int>, n: int)
    requires
        0 <= n,
        forall|x: int| 0 <= x < n ==> idx.contains(x),
    ensures
        idx.len() >= n,
{
    let r = vstd::set_lib::set_int_range(0, n);
    vstd::set_lib::lemma_int_range(0, n);
    assert forall|x: int| r.contains(x) implies idx.to_set().contains(x) by {
        assert(idx.contains(x));
    }
    idx.lemma_cardinality_of_set();
    vstd::seq_lib::seq_to_set_is_finite(idx);
    vstd::set_lib::lemma_len_subset(r, idx.to_set());
}

} // verus!

verus! {

use crate::components::{component_patches, patches_for_components, Components};
use crate::realm::{deleted_priority_inc, priority_inc_of, Realm};
use crate::snapshot::{keys_of, ReplToken, ServerSnapshot, ServerSnapshotMeta};

/// `a + b`, capped at the largest priority.
pub open spec fn saturating_priority(a: Priority, b: Priority) -> Priority {
    if a + b > u32::MAX {
        u32::MAX
    } else {
        (a + b) as u32
    }
}

/// The token each key currently has in `realm`.
pub open spec fn realm_key_tokens(realm: Realm) -> Map<ReplKey, ReplToken> {
    Map::new(|k: ReplKey| realm.token_for_key(k) is Some, |k: ReplKey| realm.token_for_key(k)->Some_0)
}

/// Every key that `base` knows a token for or that `realm` has a token for.
pub open spec fn merged_keys(base: ServerSnapshot, realm: Realm) -> Set<ReplKey> {
    base.spec_meta().tokens().dom() + realm_key_tokens(realm).dom()
}

/// The components the client is known to have under `key`, when it still holds
/// the same object as `realm`.
pub open spec fn known_before(base: ServerSnapshot, realm: Realm, key: ReplKey) -> Option<Components> {
    if base.spec_meta().tokens().contains_key(key) && base.spec_meta().tokens()[key]
        == realm.token_for_key(key)->Some_0 {
        base.spec_inner().replicated().get(key)
    } else {
        None
    }
}

/// The action planned for `key`, if the client's view of it is out of date.
/// A gone object is despawned where the client has it; nothing is sent for a
/// gone object the client never received. A present one is updated when the
/// client holds the same object, and spawned from scratch otherwise; the spawn
/// is sent even with no component to carry when the client still holds an
/// earlier object under the key, so that object is replaced.
pub open spec fn planned(base: ServerSnapshot, realm: Realm, key: ReplKey) -> Option<
    (PatchKind, Seq<DeltaComponentPatch>),
> {
    match realm.token_for_key(key) {
        None => if base.spec_meta().tokens().contains_key(key)
            && base.spec_inner().replicated().contains_key(key) {
            Some((PatchKind::Despawn, Seq::empty()))
        } else {
            None
        },
        Some(nt) => {
            let after = realm.entities()[realm.pairs()[nt]];
            let before = known_before(base, realm, key);
            let ps = component_patches(before.unwrap_or(Components::spec_empty()), after);
            let stale = before is None && base.spec_inner().replicated().contains_key(key);
            if ps.len() == 0 && !stale {
                None
            } else if before is Some {
                Some((PatchKind::Update, ps))
            } else {
                Some((PatchKind::Spawn, ps))
            }
        },
    }
}

/// The priority of `key` this tick: what it had gathered, if the client knew
/// its token, plus what its class gains per tick.
pub open spec fn priority_of(base: ServerSnapshot, realm: Realm, key: ReplKey) -> Priority {
    let gathered: Priority = if base.spec_meta().tokens().contains_key(key)
        && base.spec_meta().priorities().contains_key(key) {
        base.spec_meta().priorities()[key]
    } else {
        0
    };
    let inc = match realm.token_for_key(key) {
        Some(nt) => priority_inc_of(realm.entities()[realm.pairs()[nt]].replicated->Some_0.blueprint),
        None => deleted_priority_inc(),
    };
    saturating_priority(gathered, inc)
}

/// The freshest token known for each merged key.
pub open spec fn newest_tokens(base: ServerSnapshot, realm: Realm) -> Map<ReplKey, ReplToken> {
    Map::new(
        |k: ReplKey| merged_keys(base, realm).contains(k),
        |k: ReplKey|
            if realm.token_for_key(k) is Some {
                realm.token_for_key(k)->Some_0
            } else {
                base.spec_meta().tokens()[k]
            },
    )
}

/// Whether `c` holds exactly the planned actions of `base` against `realm`, each
/// once, with their priorities.
pub open spec fn candidates_of(base: ServerSnapshot, realm: Realm, c: Seq<PrioritizedAction>) -> bool {
    &&& keys_distinct(c)
    &&& forall|i: int|
        0 <= i < c.len() ==> {
            let k = #[trigger] c[i].action.repl_key;
            &&& merged_keys(base, realm).contains(k)
            &&& planned(base, realm, k) == Some(
                (c[i].action.ent_patch.kind(), c[i].action.ent_patch.patches()),
            )
            &&& c[i].priority_accum == priority_of(base, realm, k)
        }
    &&& forall|k: ReplKey|
        merged_keys(base, realm).contains(k) && #[trigger] planned(base, realm, k) is Some ==> exists|
            i: int,
        | 0 <= i < c.len() && #[trigger] c[i].action.repl_key == k
}

/// An ordered batch of actions.
pub struct Delta {
    pub actions: Vec<DeltaAction>,
}

/// A batch of actions with the bookkeeping the client's next snapshot keeps.
pub struct ServerDelta {
    pub inner: Delta,
    pub server_meta: ServerSnapshotMeta,
}

/// The token a key had in the client's snapshot and the one it has now.
#[derive(Debug, Clone, Copy)]
pub struct SingleDiff {
    pub old_token: Option<ReplToken>,
    pub new_token: Option<ReplToken>,
}

impl SingleDiff {
    /// The freshest of the two tokens.
    pub fn newest_token(&self) -> (r: ReplToken)
        requires
            self.old_token is Some || self.new_token is Some,
        ensures
            r == if self.new_token is Some {
                self.new_token->Some_0
            } else {
                self.old_token->Some_0
            },
    {
        match self.new_token {
            Some(t) => t,
            None => self.old_token.unwrap(),
        }
    }
}

impl ServerDelta {
    /// Joins the client's token map with the realm's tokens on their keys.
    fn merge_diff_map(base: &ServerSnapshot, realm: &Realm) -> (r: BTreeMap<ReplKey, SingleDiff>)
        requires
            base.wf(),
            realm.wf(),
        ensures
            r@.dom() == merged_keys(*base, *realm),
            forall|k: ReplKey| #[trigger]
                r@.contains_key(k) ==> r@[k].old_token == base.spec_meta().tokens().get(k)
                    && r@[k].new_token == realm.token_for_key(k),
    {
        // the realm's tokens by key
        let toks = realm.tokens();
        let mut by_key: BTreeMap<ReplKey, ReplToken> = BTreeMap::new();
        let mut i: usize = 0;
        while i < toks.len()
            invariant
                realm.wf(),
                i <= toks@.len(),
                toks@.to_set() == realm.pairs().dom(),
                forall|k: ReplKey| #[trigger] by_key@.contains_key(k) ==> realm.token_for_key(k) == Some(by_key@[k]),
                forall|j: int| 0 <= j < i ==> #[trigger] by_key@.contains_key(toks@[j].0),
            decreases toks@.len() - i,
        {
            let t = toks[i];
            proof {
                assert(toks@.to_set().contains(t));
                assert(realm.pairs().contains_key(t));
                let u = choose|u: ReplToken| #[trigger] realm.pairs().contains_key(u) && u.0 == t.0;
                realm.lemma_key_unique(t, u);
            }
            by_key.insert(t.0, t);
            i = i + 1;
        }
        proof {
            assert forall|k: ReplKey| realm.token_for_key(k) is Some implies #[trigger] by_key@.contains_key(k) by {
                let u = choose|u: ReplToken| #[trigger] realm.pairs().contains_key(u) && u.0 == k;
                assert(toks@.to_set().contains(u));
                let j = toks@.index_of(u);
                assert(by_key@.contains_key(toks@[j].0));
            }
            assert(by_key@ =~= realm_key_tokens(*realm));
        }
        // every key either side knows
        let meta = base.meta();
        let old_keys = meta.token_keys();
        let new_keys = keys_of(&by_key);
        let mut merged: BTreeMap<ReplKey, SingleDiff> = BTreeMap::new();
        let mut i: usize = 0;
        while i < old_keys.len()
            invariant
                *meta == base.spec_meta(),
                by_key@ == realm_key_tokens(*realm),
                i <= old_keys@.len(),
                merged@.dom() == old_keys@.take(i as int).to_set(),
                forall|k: ReplKey| #[trigger]
                    merged@.contains_key(k) ==> merged@[k].old_token == base.spec_meta().tokens().get(k)
                        && merged@[k].new_token == realm.token_for_key(k),
            decreases old_keys@.len() - i,
        {
            let k = old_keys[i];
            let single = SingleDiff {
                old_token: meta.token_for_key(k),
                new_token: match by_key.get(&k) {
                    Some(t) => Some(*t),
                    None => None,
                },
            };
            merged.insert(k, single);
            proof {
                assert(old_keys@.take(i + 1) =~= old_keys@.take(i as int).push(k));
                old_keys@.take(i as int).lemma_push_to_set_commute(k);
            }
            i = i + 1;
        }
        proof {
            assert(old_keys@.take(old_keys@.len() as int) =~= old_keys@);
            assert(old_keys@.to_set() + new_keys@.take(0).to_set() =~= old_keys@.to_set());
        }
        let mut i: usize = 0;
        while i < new_keys.len()
            invariant
                *meta == base.spec_meta(),
                by_key@ == realm_key_tokens(*realm),
                i <= new_keys@.len(),
                merged@.dom() == old_keys@.to_set() + new_keys@.take(i as int).to_set(),
                forall|k: ReplKey| #[trigger]
                    merged@.contains_key(k) ==> merged@[k].old_token == base.spec_meta().tokens().get(k)
                        && merged@[k].new_token == realm.token_for_key(k),
            decreases new_keys@.len() - i,
        {
            let k = new_keys[i];
            let single = SingleDiff {
                old_token: meta.token_for_key(k),
                new_token: match by_key.get(&k) {
                    Some(t) => Some(*t),
                    None => None,
                },
            };
            merged.insert(k, single);
            proof {
                assert(new_keys@.take(i + 1) =~= new_keys@.take(i as int).push(k));
                new_keys@.take(i as int).lemma_push_to_set_commute(k);
            }
            i = i + 1;
        }
        proof {
            assert(new_keys@.take(new_keys@.len() as int) =~= new_keys@);
            assert(merged@.dom() =~= merged_keys(*base, *realm));
        }
        merged
    }

    /// The action for one key, or `None` when the client is up to date on it.
    fn patch_for_entity(
        base: &ServerSnapshot,
        realm: &Realm,
        key: ReplKey,
        single_diff: SingleDiff,
    ) -> (r: Option<DeltaEntityPatch>)
        requires
            base.wf(),
            realm.wf(),
            single_diff.old_token == base.spec_meta().tokens().get(key),
            single_diff.new_token == realm.token_for_key(key),
        ensures
            r is Some <==> planned(*base, *realm, key) is Some,
            r is Some ==> planned(*base, *realm, key) == Some(
                (r->Some_0.kind(), r->Some_0.patches()),
            ),
    {
        let SingleDiff { old_token, new_token } = single_diff;
        match new_token {
            None => {
                if old_token.is_some() && base.inner().contains_key(key) {
                    Some(DeltaEntityPatch::DespawnEntity)
                } else {
                    None
                }
            },
            Some(nt) => {
                proof {
                    assert(realm.pairs().contains_key(nt));
                    realm.lemma_token_entity(nt);
                }
                let after = realm.components(realm.entity_for_token(nt)).unwrap();
                let same = match old_token {
                    Some(ot) => ot.0 == nt.0 && ot.1 == nt.1,
                    None => false,
                };
                let before = if same {
                    base.inner().get_by_key(key)
                } else {
                    None
                };
                let ps = match &before {
                    Some(b) => patches_for_components(Some(b), &after),
                    None => patches_for_components(None, &after),
                };
                let stale = before.is_none() && base.inner().contains_key(key);
                if ps.len() == 0 && !stale {
                    None
                } else if before.is_some() {
                    Some(DeltaEntityPatch::UpdateEntity(ps))
                } else {
                    Some(DeltaEntityPatch::SpawnEntity(ps))
                }
            },
        }
    }

    /// Every planned action with its priority, in key order, and the freshest
    /// token of every key.
    fn prioritized_total_diff(base: &ServerSnapshot, realm: &Realm) -> (r: (
        Vec<PrioritizedAction>,
        BTreeMap<ReplKey, ReplToken>,
    ))
        requires
            base.wf(),
            realm.wf(),
        ensures
            candidates_of(*base, *realm, r.0@),
            r.1@ == newest_tokens(*base, *realm),
    {
        let merged = Self::merge_diff_map(base, realm);
        let meta = base.meta();
        let keys = keys_of(&merged);
        let mut cands: Vec<PrioritizedAction> = Vec::new();
        let mut token_map: BTreeMap<ReplKey, ReplToken> = BTreeMap::new();
        let mut i: usize = 0;
        while i < keys.len()
            invariant
                base.wf(),
                realm.wf(),
                *meta == base.spec_meta(),
                merged@.dom() == merged_keys(*base, *realm),
                forall|k: ReplKey| #[trigger]
                    merged@.contains_key(k) ==> merged@[k].old_token == base.spec_meta().tokens().get(k)
                        && merged@[k].new_token == realm.token_for_key(k),
                i <= keys@.len(),
                keys@.to_set() == merged_keys(*base, *realm),
                keys@.no_duplicates(),
                token_map@ == newest_tokens(*base, *realm).restrict(keys@.take(i as int).to_set()),
                forall|j: int|
                    0 <= j < cands@.len() ==> exists|m: int|
                        0 <= m < i && #[trigger] cands@[j].action.repl_key == keys@[m],
                forall|j: int, l: int|
                    #![trigger cands@[j], cands@[l]]
                    0 <= j < l < cands@.len() ==> exists|m1: int, m2: int|
                        0 <= m1 < m2 < i && cands@[j].action.repl_key == keys@[m1]
                            && cands@[l].action.repl_key == keys@[m2],
                forall|j: int|
                    0 <= j < cands@.len() ==> {
                        let k = #[trigger] cands@[j].action.repl_key;
                        &&& planned(*base, *realm, k) == Some(
                            (cands@[j].action.ent_patch.kind(), cands@[j].action.ent_patch.patches()),
                        )
                        &&& cands@[j].priority_accum == priority_of(*base, *realm, k)
                    },
                forall|m: int|
                    0 <= m < i && #[trigger] planned(*base, *realm, keys@[m]) is Some ==> exists|j: int|
                        0 <= j < cands@.len() && #[trigger] cands@[j].action.repl_key == keys@[m],
            decreases keys@.len() - i,
        {
            let k = keys[i];
            proof {
                assert(keys@.to_set().contains(k));
            }
            let single = *merged.get(&k).unwrap();
            proof {
                if single.new_token is Some {
                    let nt = single.new_token->Some_0;
                    assert(realm.pairs().contains_key(nt));
                    realm.lemma_token_entity(nt);
                }
            }
            token_map.insert(k, single.newest_token());
            // the priority gathered so far plus this tick's gain
            let gathered: Priority = match single.old_token {
                Some(_) => match meta.priority_for_key(k) {
                    Some(p) => p,
                    None => 0,
                },
                None => 0,
            };
            let inc = match single.new_token {
                Some(nt) => realm.calc_priority_inc(realm.entity_for_token(nt)),
                None => realm.calc_deleted_priority_accum(),
            };
            let priority = gathered.saturating_add(inc);
            let planned_patch = Self::patch_for_entity(base, realm, k, single);
            let ghost cands_before = cands@;
            match planned_patch {
                Some(ent_patch) => {
                    cands.push(
                        PrioritizedAction {
                            action: DeltaAction { repl_key: k, ent_patch },
                            priority_accum: priority,
                        },
                    );
                },
                None => {},
            }
            proof {
                assert(planned(*base, *realm, k) is Some <==> cands@.len() == cands_before.len() + 1);
                assert(keys@.take(i + 1) =~= keys@.take(i as int).push(k));
                keys@.take(i as int).lemma_push_to_set_commute(k);
                assert(token_map@ =~= newest_tokens(*base, *realm).restrict(keys@.take(i + 1).to_set()));
                assert forall|j: int|
                    0 <= j < cands@.len() implies exists|m: int|
                        0 <= m < i + 1 && #[trigger] cands@[j].action.repl_key == keys@[m] by {
                    if j == cands_before.len() {
                        assert(cands@[j].action.repl_key == keys@[i as int]);
                    } else {
                        assert(cands@[j] == cands_before[j]);
                    }
                }
                assert forall|j: int, l: int|
                    #![trigger cands@[j], cands@[l]]
                    0 <= j < l < cands@.len() implies exists|m1: int, m2: int|
                        0 <= m1 < m2 < i + 1 && cands@[j].action.repl_key == keys@[m1]
                            && cands@[l].action.repl_key == keys@[m2] by {
                    assert(cands@[j] == cands_before[j]);
                    if l == cands_before.len() {
                        let m1 = choose|m: int| 0 <= m < i && #[trigger] cands_before[j].action.repl_key == keys@[m];
                        assert(0 <= m1 < i && cands@[j].action.repl_key == keys@[m1]
                            && cands@[l].action.repl_key == keys@[i as int]);
                    } else {
                        assert(cands@[l] == cands_before[l]);
                    }
                }
                assert forall|m: int|
                    0 <= m < i + 1 && #[trigger] planned(*base, *realm, keys@[m]) is Some implies exists|j: int|
                        0 <= j < cands@.len() && #[trigger] cands@[j].action.repl_key == keys@[m] by {
                    if m == i {
                        assert(cands@[cands_before.len() as int].action.repl_key == keys@[m]);
                    } else {
                        let j = choose|j: int| 0 <= j < cands_before.len() && #[trigger] cands_before[j].action.repl_key == keys@[m];
                        assert(cands@[j] == cands_before[j]);
                    }
                }
            }
            i = i + 1;
        }
        proof {
            assert(keys@.take(i as int) =~= keys@);
            assert(token_map@ =~= newest_tokens(*base, *realm));
            assert(keys_distinct(cands@)) by {
                assert forall|j: int, l: int|
                    0 <= j < cands@.len() && 0 <= l < cands@.len() && j != l implies #[trigger] cands@[j].action.repl_key
                        != #[trigger] cands@[l].action.repl_key by {
                    if j < l {
                        let (m1, m2) = choose|m1: int, m2: int|
                            0 <= m1 < m2 < i && cands@[j].action.repl_key == keys@[m1]
                                && cands@[l].action.repl_key == keys@[m2];
                    } else {
                        let (m1, m2) = choose|m1: int, m2: int|
                            0 <= m1 < m2 < i && cands@[l].action.repl_key == keys@[m1]
                                && cands@[j].action.repl_key == keys@[m2];
                    }
                }
            }
            assert forall|j: int| 0 <= j < cands@.len() implies merged_keys(*base, *realm).contains(
                #[trigger] cands@[j].action.repl_key,
            ) by {
                let m = choose|m: int| 0 <= m < i && #[trigger] cands@[j].action.repl_key == keys@[m];
                assert(keys@.to_set().contains(keys@[m]));
            }
            assert forall|k: ReplKey|
                merged_keys(*base, *realm).contains(k) && #[trigger] planned(*base, *realm, k) is Some implies exists|
                    j: int,
                | 0 <= j < cands@.len() && #[trigger] cands@[j].action.repl_key == k by {
                assert(keys@.to_set().contains(k));
                let m = keys@.index_of(k);
                assert(planned(*base, *realm, keys@[m]) is Some);
            }
        }
        (cands, token_map)
    }

    /// The work for one client this tick: every object whose state differs
    /// between `base` and `realm` is a candidate, the highest-priority ones up to
    /// the admission cap are sent, and the others keep their gathered priority.
    pub fn diff(base: &ServerSnapshot, realm: &Realm) -> (r: ServerDelta)
        requires
            base.wf(),
            realm.wf(),
        ensures
            exists|c: Seq<PrioritizedAction>|
                {
                    &&& candidates_of(*base, *realm, c)
                    &&& admitted(
                        c,
                        ADMISSION_CAP as nat,
                        r.inner.actions@,
                        r.server_meta.priorities(),
                    )
                },
            r.server_meta.tokens() == newest_tokens(*base, *realm),
    {
        let (cands, token_map) = Self::prioritized_total_diff(base, realm);
        let (actions, left) = select_admitted(&cands, ADMISSION_CAP);
        ServerDelta {
            inner: Delta { actions },
            server_meta: ServerSnapshotMeta::from_maps(token_map, left),
        }
    }
}

} // verus!

verus! {

use crate::components::{apply_component_patches, apply_patches, build_spawn};
use crate::snapshot::{stripped_tokens, Snapshot};

/// The replicated view after one action: a spawn builds the entity from its
/// patches alone, an update patches the current entity, a despawn removes it.
pub open spec fn apply_action(
    m: Map<ReplKey, Components>,
    a: (ReplKey, PatchKind, Seq<DeltaComponentPatch>),
) -> Map<ReplKey, Components> {
    match a.1 {
        PatchKind::Spawn => m.insert(a.0, apply_patches(Components::spec_empty(), a.2)),
        PatchKind::Update => m.insert(a.0, apply_patches(m[a.0], a.2)),
        PatchKind::Despawn => m.remove(a.0),
    }
}

/// The replicated view after `acts` in order, or `None` when one of them
/// updates or despawns a key that has no entity at that point.
pub open spec fn apply_actions(m: Map<ReplKey, Components>, acts: Seq<DeltaAction>) -> Option<
    Map<ReplKey, Components>,
>
    decreases acts.len(),
{
    if acts.len() == 0 {
        Some(m)
    } else {
        match apply_actions(m, acts.drop_last()) {
            None => None,
            Some(m2) => {
                let a = acts.last().view_parts();
                if a.1 == PatchKind::Spawn || m2.contains_key(a.0) {
                    Some(apply_action(m2, a))
                } else {
                    None
                }
            },
        }
    }
}

proof fn lemma_prefix_applies(m: Map<ReplKey, Components>, acts: Seq<DeltaAction>, i: int)
    requires
        0 <= i <= acts.len(),
        apply_actions(m, acts) is Some,
    ensures
        apply_actions(m, acts.take(i)) is Some,
    decreases acts.len(),
{
    if i == acts.len() {
        assert(acts.take(i) =~= acts);
    } else {
        assert(acts.drop_last().take(i) =~= acts.take(i));
        lemma_prefix_applies(m, acts.drop_last(), i);
    }
}

impl Delta {
    /// A new snapshot: a copy of `onto` with every action applied in order.
    /// Entities that no key names are carried over untouched; every other entity
    /// of the result is the one its key names (see `Snapshot::lemma_entities_split`),
    /// so an entity replaced by a spawn or removed by a despawn is gone.
    pub fn apply(&self, onto: &Snapshot) -> (r: Snapshot)
        requires
            onto.wf(),
            apply_actions(onto.replicated(), self.actions@) is Some,
            onto.entities().len() + self.actions@.len() + 1 < u32::MAX,
        ensures
            r.wf(),
            r.replicated() == apply_actions(onto.replicated(), self.actions@)->Some_0,
            r.unnamed() == onto.unnamed(),
    {
        let mut result = onto.clone_mut();
        let ghost m0 = onto.replicated();
        let ghost acts = self.actions@;
        let mut i: usize = 0;
        proof {
            assert(acts.take(0) =~= Seq::<DeltaAction>::empty());
        }
        while i < self.actions.len()
            invariant
                acts == self.actions@,
                i <= acts.len(),
                result.wf(),
                result.unnamed() == onto.unnamed(),
                apply_actions(m0, acts) is Some,
                apply_actions(m0, acts.take(i as int)) == Some(result.replicated()),
                result.entities().len() <= onto.entities().len() + i,
                onto.entities().len() + acts.len() + 1 < u32::MAX,
            decreases acts.len() - i,
        {
            let action = &self.actions[i];
            let key = action.repl_key;
            proof {
                lemma_prefix_applies(m0, acts, i + 1);
                assert(acts.take(i + 1).drop_last() =~= acts.take(i as int));
            }
            match &action.ent_patch {
                DeltaEntityPatch::SpawnEntity(patches) => {
                    let c = build_spawn(patches);
                    result.spawn_by_key(key, c);
                },
                DeltaEntityPatch::UpdateEntity(patches) => {
                    let mut c = result.get_by_key(key).unwrap();
                    apply_component_patches(&mut c, patches);
                    result.set_by_key(key, c);
                },
                DeltaEntityPatch::DespawnEntity => {
                    result.remove_by_key(key);
                },
            }
            i = i + 1;
        }
        proof {
            assert(acts.take(i as int) =~= acts);
        }
        result
    }
}

impl ServerDelta {
    /// The client's next snapshot: `to` with the actions applied, carrying this
    /// delta's bookkeeping without the tokens it no longer needs.
    pub fn apply_server(&self, to: &ServerSnapshot) -> (r: ServerSnapshot)
        requires
            to.wf(),
            apply_actions(to.spec_inner().replicated(), self.inner.actions@) is Some,
            to.spec_inner().entities().len() + self.inner.actions@.len() + 1 < u32::MAX,
        ensures
            r.wf(),
            r.spec_inner().unnamed() == to.spec_inner().unnamed(),
            r.spec_inner().replicated() == apply_actions(
                to.spec_inner().replicated(),
                self.inner.actions@,
            )->Some_0,
            r.spec_meta().priorities() == self.server_meta.priorities(),
            r.spec_meta().tokens() == stripped_tokens(
                self.server_meta.tokens(),
                r.spec_inner().key_map().dom(),
                self.server_meta.priorities(),
            ),
    {
        let snapshot = self.inner.apply(to.inner());
        snapshot.server_augment(self.server_meta.copy())
    }
}

/// Whether the client's snapshot already reflects `realm`: it knows exactly the
/// realm's tokens and holds each of those objects with the same replicated
/// components.
pub open spec fn in_sync(base: ServerSnapshot, realm: Realm) -> bool {
    &&& base.spec_meta().tokens() == realm_key_tokens(realm)
    &&& forall|k: ReplKey| #[trigger]
        realm_key_tokens(realm).contains_key(k) ==> {
            &&& base.spec_inner().replicated().contains_key(k)
            &&& base.spec_inner().replicated()[k].same_replicated(
                realm.entities()[realm.pairs()[realm_key_tokens(realm)[k]]],
            )
        }
}

/// Diffing a snapshot against a realm that has not changed since yields no actions.
pub proof fn lemma_in_sync_diff_is_empty(
    base: ServerSnapshot,
    realm: Realm,
    c: Seq<PrioritizedAction>,
    out: Seq<DeltaAction>,
    left: Map<ReplKey, Priority>,
)
    requires
        in_sync(base, realm),
        candidates_of(base, realm, c),
        admitted(c, ADMISSION_CAP as nat, out, left),
    ensures
        c.len() == 0,
        out.len() == 0,
        left.dom().is_empty(),
{
    assert forall|k: ReplKey| merged_keys(base, realm).contains(k) implies #[trigger] planned(
        base,
        realm,
        k,
    ) is None by {
        assert(realm_key_tokens(realm).contains_key(k));
        let nt = realm.token_for_key(k)->Some_0;
        let before = known_before(base, realm, k);
        assert(before == Some(base.spec_inner().replicated()[k]));
        assert(component_patches(before->Some_0, realm.entities()[realm.pairs()[nt]]) =~= Seq::empty());
    }
    if c.len() > 0 {
        let k = c[0].action.repl_key;
        assert(planned(base, realm, k) is Some);
    }
    let idx = choose|idx: Seq<int>|
        {
            &&& idx.len() == out.len()
            &&& out.len() == if (ADMISSION_CAP as nat) < c.len() {
                ADMISSION_CAP as nat
            } else {
                c.len()
            }
            &&& forall|i: int| 0 <= i < idx.len() ==> 0 <= #[trigger] idx[i] < c.len()
            &&& forall|i: int, j: int| 0 <= i < j < idx.len() ==> idx[i] != idx[j]
            &&& forall|i: int|
                0 <= i < idx.len() ==> (#[trigger] out[i]).view_parts()
                    == c[idx[i]].action.view_parts()
            &&& forall|i: int, j: int|
                0 <= i < j < idx.len() ==> c[idx[i]].priority_accum >= c[idx[j]].priority_accum
            &&& forall|j: int, i: int|
                0 <= j < c.len() && !idx.contains(j) && 0 <= i < idx.len()
                    ==> #[trigger] c[j].priority_accum <= #[trigger] c[idx[i]].priority_accum
            &&& left == Map::new(
                |k: ReplKey|
                    exists|j: int|
                        0 <= j < c.len() && !idx.contains(j) && #[trigger] c[j].action.repl_key == k,
                |k: ReplKey|
                    c[choose|j: int|
                        0 <= j < c.len() && !idx.contains(j) && #[trigger] c[j].action.repl_key
                            == k].priority_accum,
            )
        };
    assert(left.dom() =~= Set::empty());
}

/// An object that is left out keeps gaining: unless its priority is already at
/// the maximum, its priority in the next computation is strictly larger.
pub proof fn lemma_starved_priority_grows(base: ServerSnapshot, realm: Realm, key: ReplKey)
    requires
        base.spec_meta().tokens().contains_key(key),
        base.spec_meta().priorities().contains_key(key),
        base.spec_meta().priorities()[key] < u32::MAX,
    ensures
        priority_of(base, realm, key) > base.spec_meta().priorities()[key],
{
}

} // verus!

verus! {

proof fn lemma_actions_apply(m0: Map<ReplKey, Components>, out: Seq<DeltaAction>, n: int)
    requires
        0 <= n <= out.len(),
        forall|i: int, j: int|
            0 <= i < out.len() && 0 <= j < out.len() && i != j ==> #[trigger] out[i].repl_key
                != #[trigger] out[j].repl_key,
        forall|i: int|
            0 <= i < out.len() && (#[trigger] out[i]).ent_patch.kind() != PatchKind::Spawn
                ==> m0.contains_key(out[i].repl_key),
    ensures
        apply_actions(m0, out.take(n)) is Some,
        forall|k: ReplKey|
            (forall|i: int| 0 <= i < n ==> #[trigger] out[i].repl_key != k) ==> (apply_actions(
                m0,
                out.take(n),
            )->Some_0.contains_key(k) == m0.contains_key(k)),
    decreases n,
{
    if n == 0 {
        assert(out.take(0) =~= Seq::<DeltaAction>::empty());
    } else {
        lemma_actions_apply(m0, out, n - 1);
        assert(out.take(n).drop_last() =~= out.take(n - 1));
        let k = out[n - 1].repl_key;
        assert forall|i: int| 0 <= i < n - 1 implies #[trigger] out[i].repl_key != k by {}
    }
}

/// The actions of a diff always apply to the snapshot it was computed from: an
/// update or despawn only ever names a key that snapshot holds, and no key is
/// named twice.
pub proof fn lemma_diff_applies(
    base: ServerSnapshot,
    realm: Realm,
    c: Seq<PrioritizedAction>,
    out: Seq<DeltaAction>,
    left: Map<ReplKey, Priority>,
)
    requires
        candidates_of(base, realm, c),
        admitted(c, ADMISSION_CAP as nat, out, left),
    ensures
        apply_actions(base.spec_inner().replicated(), out) is Some,
{
    let idx = choose|idx: Seq<int>|
        {
            &&& idx.len() == out.len()
            &&& out.len() == if (ADMISSION_CAP as nat) < c.len() {
                ADMISSION_CAP as nat
            } else {
                c.len()
            }
            &&& forall|i: int| 0 <= i < idx.len() ==> 0 <= #[trigger] idx[i] < c.len()
            &&& forall|i: int, j: int| 0 <= i < j < idx.len() ==> idx[i] != idx[j]
            &&& forall|i: int|
                0 <= i < idx.len() ==> (#[trigger] out[i]).view_parts()
                    == c[idx[i]].action.view_parts()
            &&& forall|i: int, j: int|
                0 <= i < j < idx.len() ==> c[idx[i]].priority_accum >= c[idx[j]].priority_accum
            &&& forall|j: int, i: int|
                0 <= j < c.len() && !idx.contains(j) && 0 <= i < idx.len()
                    ==> #[trigger] c[j].priority_accum <= #[trigger] c[idx[i]].priority_accum
            &&& left == Map::new(
                |k: ReplKey|
                    exists|j: int|
                        0 <= j < c.len() && !idx.contains(j) && #[trigger] c[j].action.repl_key == k,
                |k: ReplKey|
                    c[choose|j: int|
                        0 <= j < c.len() && !idx.contains(j) && #[trigger] c[j].action.repl_key
                            == k].priority_accum,
            )
        };
    let m0 = base.spec_inner().replicated();
    assert forall|i: int, j: int|
        0 <= i < out.len() && 0 <= j < out.len() && i != j implies #[trigger] out[i].repl_key
            != #[trigger] out[j].repl_key by {
        assert(out[i].view_parts() == c[idx[i]].action.view_parts());
        assert(out[j].view_parts() == c[idx[j]].action.view_parts());
        if i < j {
            assert(idx[i] != idx[j]);
        } else {
            assert(idx[j] != idx[i]);
        }
        assert(c[idx[i]].action.repl_key != c[idx[j]].action.repl_key);
    }
    assert forall|i: int|
        0 <= i < out.len() && (#[trigger] out[i]).ent_patch.kind() != PatchKind::Spawn
            implies m0.contains_key(out[i].repl_key) by {
        assert(out[i].view_parts() == c[idx[i]].action.view_parts());
        let k = c[idx[i]].action.repl_key;
        assert(planned(base, realm, k) == Some(
            (c[idx[i]].action.ent_patch.kind(), c[idx[i]].action.ent_patch.patches()),
        ));
    }
    lemma_actions_apply(m0, out, out.len() as int);
    assert(out.take(out.len() as int) =~= out);
}

} // verus!

verus! {

use crate::components::lemma_patch_round_trip;

proof fn lemma_actions_effect(m0: Map<ReplKey, Components>, out: Seq<DeltaAction>, n: int)
    requires
        0 <= n <= out.len(),
        forall|i: int, j: int|
            0 <= i < out.len() && 0 <= j < out.len() && i != j ==> #[trigger] out[i].repl_key
                != #[trigger] out[j].repl_key,
        forall|i: int|
            0 <= i < out.len() && (#[trigger] out[i]).ent_patch.kind() != PatchKind::Spawn
                ==> m0.contains_key(out[i].repl_key),
    ensures
        apply_actions(m0, out.take(n)) is Some,
        forall|i: int|
            0 <= i < n ==> {
                let a = (#[trigger] out[i]).view_parts();
                let m = apply_actions(m0, out.take(n))->Some_0;
                match a.1 {
                    PatchKind::Spawn => m.contains_key(a.0) && m[a.0] == apply_patches(
                        Components::spec_empty(),
                        a.2,
                    ),
                    PatchKind::Update => m.contains_key(a.0) && m[a.0] == apply_patches(m0[a.0], a.2),
                    PatchKind::Despawn => !m.contains_key(a.0),
                }
            },
        forall|k: ReplKey|
            (forall|i: int| 0 <= i < n ==> #[trigger] out[i].repl_key != k) ==> apply_actions(
                m0,
                out.take(n),
            )->Some_0.get(k) == m0.get(k),
    decreases n,
{
    if n == 0 {
        assert(out.take(0) =~= Seq::<DeltaAction>::empty());
    } else {
        lemma_actions_effect(m0, out, n - 1);
        assert(out.take(n).drop_last() =~= out.take(n - 1));
        let k = out[n - 1].repl_key;
        assert forall|i: int| 0 <= i < n - 1 implies #[trigger] out[i].repl_key != k by {}
        let prev = apply_actions(m0, out.take(n - 1))->Some_0;
        let m = apply_actions(m0, out.take(n))->Some_0;
        assert(prev.get(k) == m0.get(k));
        assert forall|i: int| 0 <= i < n - 1 implies out[i].repl_key != k && m.get(out[i].repl_key)
            == prev.get(out[i].repl_key) by {}
    }
}

/// Applying a diff to the snapshot it came from brings every object it sent up
/// to date: a sent object that still exists matches the realm on every
/// replicated component, a despawned one is gone, and every object the diff did
/// not send is left as it was.
pub proof fn lemma_diff_round_trip(
    base: ServerSnapshot,
    realm: Realm,
    c: Seq<PrioritizedAction>,
    out: Seq<DeltaAction>,
    left: Map<ReplKey, Priority>,
)
    requires
        candidates_of(base, realm, c),
        admitted(c, ADMISSION_CAP as nat, out, left),
    ensures
        apply_actions(base.spec_inner().replicated(), out) is Some,
        forall|i: int|
            0 <= i < out.len() ==> {
                let k = (#[trigger] out[i]).repl_key;
                let m = apply_actions(base.spec_inner().replicated(), out)->Some_0;
                &&& realm.token_for_key(k) is Some ==> m.contains_key(k) && m[k].same_replicated(
                    realm.entities()[realm.pairs()[realm.token_for_key(k)->Some_0]],
                )
                &&& realm.token_for_key(k) is None ==> !m.contains_key(k)
            },
        forall|k: ReplKey|
            (forall|i: int| 0 <= i < out.len() ==> #[trigger] out[i].repl_key != k) ==> apply_actions(
                base.spec_inner().replicated(),
                out,
            )->Some_0.get(k) == base.spec_inner().replicated().get(k),
{
    let idx = choose|idx: Seq<int>|
        {
            &&& idx.len() == out.len()
            &&& out.len() == if (ADMISSION_CAP as nat) < c.len() {
                ADMISSION_CAP as nat
            } else {
                c.len()
            }
            &&& forall|i: int| 0 <= i < idx.len() ==> 0 <= #[trigger] idx[i] < c.len()
            &&& forall|i: int, j: int| 0 <= i < j < idx.len() ==> idx[i] != idx[j]
            &&& forall|i: int|
                0 <= i < idx.len() ==> (#[trigger] out[i]).view_parts()
                    == c[idx[i]].action.view_parts()
            &&& forall|i: int, j: int|
                0 <= i < j < idx.len() ==> c[idx[i]].priority_accum >= c[idx[j]].priority_accum
            &&& forall|j: int, i: int|
                0 <= j < c.len() && !idx.contains(j) && 0 <= i < idx.len()
                    ==> #[trigger] c[j].priority_accum <= #[trigger] c[idx[i]].priority_accum
            &&& left == Map::new(
                |k: ReplKey|
                    exists|j: int|
                        0 <= j < c.len() && !idx.contains(j) && #[trigger] c[j].action.repl_key == k,
                |k: ReplKey|
                    c[choose|j: int|
                        0 <= j < c.len() && !idx.contains(j) && #[trigger] c[j].action.repl_key
                            == k].priority_accum,
            )
        };
    let m0 = base.spec_inner().replicated();
    lemma_diff_applies(base, realm, c, out, left);
    assert forall|i: int, j: int|
        0 <= i < out.len() && 0 <= j < out.len() && i != j implies #[trigger] out[i].repl_key
            != #[trigger] out[j].repl_key by {
        assert(out[i].view_parts() == c[idx[i]].action.view_parts());
        assert(out[j].view_parts() == c[idx[j]].action.view_parts());
        if i < j {
            assert(idx[i] != idx[j]);
        } else {
            assert(idx[j] != idx[i]);
        }
        assert(c[idx[i]].action.repl_key != c[idx[j]].action.repl_key);
    }
    assert forall|i: int|
        0 <= i < out.len() && (#[trigger] out[i]).ent_patch.kind() != PatchKind::Spawn
            implies m0.contains_key(out[i].repl_key) by {
        assert(out[i].view_parts() == c[idx[i]].action.view_parts());
        let k = c[idx[i]].action.repl_key;
        assert(planned(base, realm, k) == Some(
            (c[idx[i]].action.ent_patch.kind(), c[idx[i]].action.ent_patch.patches()),
        ));
    }
    lemma_actions_effect(m0, out, out.len() as int);
    assert(out.take(out.len() as int) =~= out);
    let m = apply_actions(m0, out)->Some_0;
    assert forall|i: int| 0 <= i < out.len() implies {
        let k = (#[trigger] out[i]).repl_key;
        &&& realm.token_for_key(k) is Some ==> m.contains_key(k) && m[k].same_replicated(
            realm.entities()[realm.pairs()[realm.token_for_key(k)->Some_0]],
        )
        &&& realm.token_for_key(k) is None ==> !m.contains_key(k)
    } by {
        let a = out[i].view_parts();
        assert(a == c[idx[i]].action.view_parts());
        let k = a.0;
        assert(planned(base, realm, k) == Some((a.1, a.2)));
        if realm.token_for_key(k) is Some {
            let nt = realm.token_for_key(k)->Some_0;
            let after = realm.entities()[realm.pairs()[nt]];
            let before = known_before(base, realm, k);
            if a.1 == PatchKind::Update {
                assert(before == Some(m0[k]));
                lemma_patch_round_trip(m0[k], after);
            } else {
                assert(a.1 == PatchKind::Spawn);
                assert(before is None);
                lemma_patch_round_trip(Components::spec_empty(), after);
            }
        }
    }
}

} // verus!

verus! {

/// No patch is needed exactly when the replicated components already agree.
pub proof fn lemma_no_patches_iff_same(before: Components, after: Components)
    ensures
        component_patches(before, after).len() == 0 <==> before.same_replicated(after),
{
}

/// With nothing left over, every candidate was sent and every sent action is a
/// candidate's.
proof fn lemma_all_sent(c: Seq<PrioritizedAction>, out: Seq<DeltaAction>, left: Map<ReplKey, Priority>) -> (idx: Seq<int>)
    requires
        admitted(c, ADMISSION_CAP as nat, out, left),
        left.dom().is_empty(),
    ensures
        idx.len() == out.len(),
        forall|i: int|
            0 <= i < out.len() ==> 0 <= #[trigger] idx[i] < c.len() && out[i].view_parts()
                == c[idx[i]].action.view_parts(),
        forall|j: int| 0 <= j < c.len() ==> #[trigger] idx.contains(j),
{
    let idx = choose|idx: Seq<int>|
        {
            &&& idx.len() == out.len()
            &&& out.len() == if (ADMISSION_CAP as nat) < c.len() {
                ADMISSION_CAP as nat
            } else {
                c.len()
            }
            &&& forall|i: int| 0 <= i < idx.len() ==> 0 <= #[trigger] idx[i] < c.len()
            &&& forall|i: int, j: int| 0 <= i < j < idx.len() ==> idx[i] != idx[j]
            &&& forall|i: int|
                0 <= i < idx.len() ==> (#[trigger] out[i]).view_parts()
                    == c[idx[i]].action.view_parts()
            &&& forall|i: int, j: int|
                0 <= i < j < idx.len() ==> c[idx[i]].priority_accum >= c[idx[j]].priority_accum
            &&& forall|j: int, i: int|
                0 <= j < c.len() && !idx.contains(j) && 0 <= i < idx.len()
                    ==> #[trigger] c[j].priority_accum <= #[trigger] c[idx[i]].priority_accum
            &&& left == Map::new(
                |k: ReplKey|
                    exists|j: int|
                        0 <= j < c.len() && !idx.contains(j) && #[trigger] c[j].action.repl_key == k,
                |k: ReplKey|
                    c[choose|j: int|
                        0 <= j < c.len() && !idx.contains(j) && #[trigger] c[j].action.repl_key
                            == k].priority_accum,
            )
        };
    assert forall|j: int| 0 <= j < c.len() implies #[trigger] idx.contains(j) by {
        if !idx.contains(j) {
            assert(left.contains_key(c[j].action.repl_key));
        }
    }
    idx
}

/// Once a diff has sent every candidate and the client's snapshot has taken
/// it in, diffing that snapshot against the unchanged realm plans nothing: the
/// next computation yields zero actions.
pub proof fn lemma_fully_sent_diff_is_empty(
    base: ServerSnapshot,
    realm: Realm,
    c: Seq<PrioritizedAction>,
    out: Seq<DeltaAction>,
    left: Map<ReplKey, Priority>,
    next: ServerSnapshot,
)
    requires
        candidates_of(base, realm, c),
        admitted(c, ADMISSION_CAP as nat, out, left),
        left.dom().is_empty(),
        next.spec_inner().replicated() == apply_actions(base.spec_inner().replicated(), out)->Some_0,
        next.spec_meta().priorities() == left,
        next.spec_meta().tokens() == stripped_tokens(
            newest_tokens(base, realm),
            next.spec_inner().key_map().dom(),
            left,
        ),
    ensures
        forall|k: ReplKey| #[trigger] planned(next, realm, k) is None,
        forall|c2: Seq<PrioritizedAction>| #[trigger] candidates_of(next, realm, c2) ==> c2.len() == 0,
{
    lemma_diff_round_trip(base, realm, c, out, left);
    let idx = lemma_all_sent(c, out, left);
    let m0 = base.spec_inner().replicated();
    let m = next.spec_inner().replicated();
    assert(m.dom() == next.spec_inner().key_map().dom());
    assert forall|k: ReplKey| #[trigger] planned(next, realm, k) is None by {
        let sent = exists|i: int| 0 <= i < out.len() && #[trigger] out[i].repl_key == k;
        if sent {
            let i = choose|i: int| 0 <= i < out.len() && #[trigger] out[i].repl_key == k;
            let j = idx[i];
            assert(c[j].action.repl_key == k);
            assert(merged_keys(base, realm).contains(k));
            if realm.token_for_key(k) is Some {
                let nt = realm.token_for_key(k)->Some_0;
                let after = realm.entities()[realm.pairs()[nt]];
                assert(m.contains_key(k) && m[k].same_replicated(after));
                assert(newest_tokens(base, realm)[k] == nt);
                assert(next.spec_meta().tokens()[k] == nt);
                assert(known_before(next, realm, k) == Some(m[k]));
                lemma_no_patches_iff_same(m[k], after);
            } else {
                assert(!m.contains_key(k));
            }
        } else {
            assert(m.get(k) == m0.get(k));
            assert(planned(base, realm, k) is None) by {
                if planned(base, realm, k) is Some && merged_keys(base, realm).contains(k) {
                    let j = choose|j: int| 0 <= j < c.len() && #[trigger] c[j].action.repl_key == k;
                    assert(idx.contains(j));
                    let i = idx.index_of(j);
                    assert(out[i].view_parts() == c[idx[i]].action.view_parts());
                    assert(out[i].repl_key == k);
                }
            }
            if realm.token_for_key(k) is Some {
                let nt = realm.token_for_key(k)->Some_0;
                let after = realm.entities()[realm.pairs()[nt]];
                assert(merged_keys(base, realm).contains(k));
                let before0 = known_before(base, realm, k);
                if before0 is Some {
                    lemma_no_patches_iff_same(before0->Some_0, after);
                    assert(next.spec_meta().tokens()[k] == nt);
                    assert(known_before(next, realm, k) == before0);
                } else {
                    assert(!m0.contains_key(k));
                    assert(!next.spec_meta().tokens().contains_key(k));
                    assert(known_before(next, realm, k) is None);
                }
            } else {
                if m0.contains_key(k) {
                    assert(!base.spec_meta().tokens().contains_key(k));
                    assert(!merged_keys(base, realm).contains(k));
                    assert(!next.spec_meta().tokens().contains_key(k));
                }
            }
        }
    }
    assert forall|c2: Seq<PrioritizedAction>| #[trigger] candidates_of(next, realm, c2) implies c2.len() == 0 by {
        if c2.len() > 0 {
            assert(planned(next, realm, c2[0].action.repl_key) is None);
        }
    }
}

} // verus!
