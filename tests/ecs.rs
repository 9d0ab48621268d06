use archive_engine::components::{
    apply_component_patches, build_spawn, patches_for_components, Blueprint, Camera, Components,
    DeltaComponentPatch, DeltaDiff, DeltaRemove, DeltaReplace, Health, Position, Replicated,
};
use archive_engine::delta::{
    select_admitted, DeltaAction, DeltaEntityPatch, PatchKind, PrioritizedAction, ServerDelta,
    ADMISSION_CAP,
};
use archive_engine::realm::Realm;
use archive_engine::snapshot::{ServerSnapshot, Snapshot};
use archive_engine::types::{mk_zed, Num, V2};
use fixed::types::I12F20;

fn mk_num(v: f64) -> Num {
    Num::from_bits(I12F20::from_num(v).to_bits())
}

fn mk_v2(x: f64, y: f64) -> V2 {
    V2 { x: mk_num(x), y: mk_num(y) }
}

fn r_player() -> Replicated {
    Replicated { blueprint: Some(Blueprint::Player) }
}

fn with_position(pos: Position, repl: Replicated) -> Components {
    let mut c = Components::empty();
    c.position = Some(pos);
    c.replicated = Some(repl);
    c
}

#[test]
fn test_empty_diff() {
    let realm = Realm::new();
    let base = ServerSnapshot::new();
    let diff = ServerDelta::diff(&base, &realm);
    assert!(diff.inner.actions.is_empty());
}

#[test]
fn test_spawn_despawn() {
    let mut realm = Realm::new();
    let base = ServerSnapshot::new();

    let pos_a = Position { xy: mk_v2(1.2, -1.6), zed: mk_zed(2) };

    let ent = realm.spawn(with_position(pos_a, r_player()));

    let midpoint = {
        let diff = ServerDelta::diff(&base, &realm);

        assert_eq!(diff.inner.actions.len(), 1, "has a single action");

        let ent_patch = &diff.inner.actions[0].ent_patch;
        assert_eq!(
            *ent_patch,
            DeltaEntityPatch::SpawnEntity(vec![DeltaComponentPatch::DiffComponent(
                DeltaDiff::Position(pos_a)
            )]),
            "spawns in a position entity"
        );

        diff.apply_server(&base)
    };

    {
        let diff = ServerDelta::diff(&midpoint, &realm);
        assert_eq!(diff.inner.actions.len(), 0, "snapshot is up to date");
    }

    realm.despawn(ent);

    {
        let diff = ServerDelta::diff(&base, &realm);
        assert_eq!(
            diff.inner.actions.len(),
            0,
            "diff to base is blank for empty realm"
        );
    }

    {
        let diff = ServerDelta::diff(&midpoint, &realm);

        assert_eq!(diff.inner.actions.len(), 1, "has a single action");
        assert_eq!(
            diff.inner.actions[0].ent_patch,
            DeltaEntityPatch::DespawnEntity
        );
    }
}

#[test]
fn clone_mut() {
    let mut snapshot = Snapshot::new();
    // add a single health component
    let orig = Health::new(27);
    let mut c = Components::empty();
    c.health = Some(orig);
    snapshot.spawn_entity(c);

    let clone = snapshot.clone_mut();

    let mut matches = Vec::new();
    for comps in clone.entity_components() {
        if let Some(health) = comps.health {
            matches.push(health);
        }
    }
    // expect to see it come back in the clone
    assert_eq!(matches, vec![orig]);
}

#[test]
fn clone_is_isolated_from_later_changes() {
    let mut snapshot = Snapshot::new();
    let mut c = Components::empty();
    c.health = Some(Health::new(27));
    snapshot.spawn_by_key(4, c);

    let clone = snapshot.clone_mut();
    let mut changed = c;
    changed.health = Some(Health::new(3));
    snapshot.set_by_key(4, changed);
    snapshot.spawn_entity(c);

    assert_eq!(clone.get_by_key(4).unwrap().health, Some(Health::new(27)));
    assert_eq!(clone.entity_components().len(), 1);
    assert_eq!(snapshot.get_by_key(4).unwrap().health, Some(Health::new(3)));
}

#[test]
fn spawned_entity_round_trips_through_apply() {
    let mut realm = Realm::new();
    let base = ServerSnapshot::new();
    let pos = Position { xy: mk_v2(-3.25, 7.5), zed: mk_zed(-7) };
    realm.spawn(with_position(pos, r_player()));

    let diff = ServerDelta::diff(&base, &realm);
    let next = diff.apply_server(&base);
    let got = next.inner().get_by_key(0).unwrap();
    assert_eq!(got.position, Some(pos));
    assert_eq!(next.inner().entity_components().len(), 1);
    // the base is left as it was
    assert!(base.inner().entity_components().is_empty());
}

#[test]
fn update_carries_a_difference() {
    let mut realm = Realm::new();
    let base = ServerSnapshot::new();
    let before = Position { xy: mk_v2(1.0, 1.0), zed: mk_zed(0) };
    let ent = realm.spawn(with_position(before, r_player()));
    let next = ServerDelta::diff(&base, &realm).apply_server(&base);

    let after = Position { xy: mk_v2(1.5, 0.75), zed: mk_zed(0) };
    realm.set_components(ent, with_position(after, r_player()));
    let diff = ServerDelta::diff(&next, &realm);
    assert_eq!(diff.inner.actions.len(), 1);
    let expected = Position { xy: mk_v2(0.5, -0.25), zed: mk_zed(0) };
    assert_eq!(
        diff.inner.actions[0].ent_patch,
        DeltaEntityPatch::UpdateEntity(vec![DeltaComponentPatch::DiffComponent(DeltaDiff::Position(
            expected
        ))])
    );
    let applied = diff.apply_server(&next);
    assert_eq!(applied.inner().get_by_key(0).unwrap().position, Some(after));
}

#[test]
fn admission_cap_prefers_priority_and_keeps_the_rest() {
    let mut realm = Realm::new();
    let base = ServerSnapshot::new();
    // two static objects first, then more players than the cap
    for i in 0..2 {
        let mut c = with_position(Position { xy: mk_v2(i as f64, 0.0), zed: mk_zed(0) }, r_player());
        c.replicated = Some(Replicated { blueprint: Some(Blueprint::Static) });
        realm.spawn(c);
    }
    for i in 0..ADMISSION_CAP {
        realm.spawn(with_position(Position { xy: mk_v2(0.0, i as f64), zed: mk_zed(1) }, r_player()));
    }
    let diff = ServerDelta::diff(&base, &realm);
    assert_eq!(diff.inner.actions.len(), ADMISSION_CAP);
    // every sent action is for a player (keys 2..), none for the static objects
    for a in &diff.inner.actions {
        assert!(a.repl_key >= 2);
        assert_eq!(a.ent_patch.patch_kind(), PatchKind::Spawn);
    }
    let next = diff.apply_server(&base);
    assert_eq!(next.meta().priority_for_key(0), Some(10));
    assert_eq!(next.meta().priority_for_key(1), Some(10));

    // the starved objects keep gaining until they are sent
    let diff = ServerDelta::diff(&next, &realm);
    assert_eq!(diff.inner.actions.len(), 2);
    let keys: Vec<u32> = diff.inner.actions.iter().map(|a| a.repl_key).collect();
    assert!(keys.contains(&0) && keys.contains(&1));
    let after = diff.apply_server(&next);
    assert_eq!(after.meta().priority_for_key(0), None);
    assert_eq!(ServerDelta::diff(&after, &realm).inner.actions.len(), 0);
}

#[test]
fn starved_priority_strictly_increases() {
    let mut realm = Realm::new();
    let snap = ServerSnapshot::new();
    for i in 0..(ADMISSION_CAP + 1) {
        realm.spawn(with_position(Position { xy: mk_v2(0.0, i as f64), zed: mk_zed(1) }, r_player()));
    }
    let diff = ServerDelta::diff(&snap, &realm);
    let next = diff.apply_server(&snap);
    let left: Vec<u32> = (0..(ADMISSION_CAP as u32 + 1))
        .filter(|k| next.meta().priority_for_key(*k).is_some())
        .collect();
    assert_eq!(left.len(), 1);
    let gathered = next.meta().priority_for_key(left[0]).unwrap();
    assert_eq!(gathered, 1000);
    // with nothing else pending the starved one is sent next
    let diff = ServerDelta::diff(&next, &realm);
    assert_eq!(diff.inner.actions.len(), 1);
    assert_eq!(diff.inner.actions[0].repl_key, left[0]);
}

#[test]
fn select_admitted_orders_by_priority() {
    let mk = |key: u32, p: u32| PrioritizedAction {
        action: DeltaAction { repl_key: key, ent_patch: DeltaEntityPatch::DespawnEntity },
        priority_accum: p,
    };
    let cands = vec![mk(0, 5), mk(1, 50), mk(2, 7), mk(3, 100)];
    let (out, left) = select_admitted(&cands, 2);
    let keys: Vec<u32> = out.iter().map(|a| a.repl_key).collect();
    assert_eq!(keys, vec![3, 1]);
    assert_eq!(left.len(), 2);
    assert_eq!(left.get(&0), Some(&5));
    assert_eq!(left.get(&2), Some(&7));
    let (all, none) = select_admitted(&cands, 10);
    assert_eq!(all.len(), 4);
    assert!(none.is_empty());
}

#[test]
fn respawn_under_same_key_is_a_spawn() {
    let mut realm = Realm::new();
    let base = ServerSnapshot::new();
    let pos = Position { xy: mk_v2(2.0, 2.0), zed: mk_zed(0) };
    let ent = realm.spawn(with_position(pos, r_player()));
    let next = ServerDelta::diff(&base, &realm).apply_server(&base);
    realm.despawn(ent);
    let pos2 = Position { xy: mk_v2(5.0, 2.0), zed: mk_zed(0) };
    realm.spawn(with_position(pos2, r_player()));
    let diff = ServerDelta::diff(&next, &realm);
    assert_eq!(diff.inner.actions.len(), 1);
    assert_eq!(diff.inner.actions[0].ent_patch.patch_kind(), PatchKind::Spawn);
    let applied = diff.apply_server(&next);
    assert_eq!(applied.inner().get_by_key(0).unwrap().position, Some(pos2));
}

#[test]
fn component_patches_cover_each_kind() {
    let mut before = Components::empty();
    before.health = Some(Health::new(5));
    before.camera = Some(Camera {});
    let mut after = Components::empty();
    after.health = Some(Health::new(2));
    after.position = Some(Position { xy: mk_v2(1.0, 0.0), zed: mk_zed(0) });
    let ps = patches_for_components(Some(&before), &after);
    assert_eq!(
        ps,
        vec![
            DeltaComponentPatch::DiffComponent(DeltaDiff::Position(Position {
                xy: mk_v2(1.0, 0.0),
                zed: mk_zed(0)
            })),
            DeltaComponentPatch::DiffComponent(DeltaDiff::Health(Health::new(65533))),
            DeltaComponentPatch::RemoveComponent(DeltaRemove::Camera),
        ]
    );
    let mut c = before;
    apply_component_patches(&mut c, &ps);
    assert_eq!(c, after);

    let spawn = patches_for_components(None, &before);
    assert_eq!(
        spawn,
        vec![
            DeltaComponentPatch::DiffComponent(DeltaDiff::Health(Health::new(5))),
            DeltaComponentPatch::ReplaceComponent(DeltaReplace::Camera(Camera {})),
        ]
    );
    assert_eq!(build_spawn(&spawn), before);
    assert!(patches_for_components(Some(&after), &after).is_empty());
}

#[test]
fn snapshot_counts_entities() {
    let mut snapshot = Snapshot::new();
    assert_eq!(snapshot.entity_count(), 0);
    let c = Components::empty();
    snapshot.spawn_entity(c);
    snapshot.spawn_by_key(9, c);
    assert_eq!(snapshot.entity_count(), 2);
    snapshot.spawn_by_key(9, c);
    assert_eq!(snapshot.entity_count(), 2);
    snapshot.remove_by_key(9);
    assert_eq!(snapshot.entity_count(), 1);
    assert!(!snapshot.contains_key(9));
}

#[test]
fn realm_tokens_follow_entities() {
    let mut realm = Realm::new();
    assert!(realm.can_spawn());
    let a = realm.spawn(with_position(Position::default(), r_player()));
    let b = realm.spawn(with_position(Position::default(), r_player()));
    let plain = realm.spawn(Components::empty());
    assert_eq!(realm.tokens().len(), 2);
    let ta = realm.tokens().into_iter().find(|t| t.0 == 0).unwrap();
    assert_eq!(realm.entity_for_token(ta), a);
    realm.despawn(a);
    realm.despawn(plain);
    assert_eq!(realm.tokens().len(), 1);
    // the freed key is reused with the next generation
    let c = realm.spawn(with_position(Position::default(), r_player()));
    let tc = realm.tokens().into_iter().find(|t| t.0 == 0).unwrap();
    assert_eq!(tc, (0, 1));
    assert_eq!(realm.entity_for_token(tc), c);
    assert_eq!(realm.calc_priority_inc(b), 1000);
    assert_eq!(realm.calc_deleted_priority_accum(), 10);
    assert_eq!(realm.entity_handles().len(), 2);
}

#[test]
fn reused_key_without_components_replaces_stale_entity() {
    let mut realm = Realm::new();
    let base = ServerSnapshot::new();
    let pos = Position { xy: mk_v2(1.0, 1.0), zed: mk_zed(0) };
    let a = realm.spawn(with_position(pos, r_player()));
    let first = ServerDelta::diff(&base, &realm).apply_server(&base);
    assert_eq!(first.inner().get_by_key(0).unwrap().position, Some(pos));

    realm.despawn(a);
    let mut bare = Components::empty();
    bare.replicated = Some(r_player());
    realm.spawn(bare);

    let diff = ServerDelta::diff(&first, &realm);
    assert_eq!(diff.inner.actions.len(), 1);
    assert_eq!(diff.inner.actions[0].ent_patch, DeltaEntityPatch::SpawnEntity(vec![]));
    let second = diff.apply_server(&first);
    assert_eq!(second.inner().get_by_key(0).unwrap().position, None);
    assert_eq!(second.inner().entity_count(), 1);
    assert_eq!(ServerDelta::diff(&second, &realm).inner.actions.len(), 0);
}

#[test]
fn equal_priorities_prefer_the_lower_key() {
    let mk = |key: u32, p: u32| PrioritizedAction {
        action: DeltaAction { repl_key: key, ent_patch: DeltaEntityPatch::DespawnEntity },
        priority_accum: p,
    };
    let cands = vec![mk(7, 5), mk(3, 5), mk(9, 5), mk(1, 2)];
    let (out, left) = select_admitted(&cands, 2);
    let keys: Vec<u32> = out.iter().map(|a| a.repl_key).collect();
    assert_eq!(keys, vec![3, 7]);
    assert_eq!(left.get(&9), Some(&5));
    assert_eq!(left.get(&1), Some(&2));
}
