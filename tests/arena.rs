use archive_engine::arena::{Arena, ClientHandle, SNAPSHOT_VCAP};
use archive_engine::components::{Blueprint, Components, Health, Position, Replicated, Velocity};
use archive_engine::realm::Realm;
use archive_engine::session::{
    client_tick_action, is_valid_transition, ClientTickAction, CloseLatch, SessionState,
};
use archive_engine::types::{mk_zed, Num, V2};

fn v2(x: i32, y: i32) -> V2 {
    V2 { x: Num::from_bits(x), y: Num::from_bits(y) }
}

fn player_at(x: i32) -> Components {
    let mut c = Components::empty();
    c.position = Some(Position { xy: v2(x, 0), zed: mk_zed(0) });
    c.replicated = Some(Replicated { blueprint: Some(Blueprint::Player) });
    c
}

#[test]
fn close_is_requested_once() {
    let mut latch = CloseLatch::new();
    assert!(!latch.requested());
    assert!(latch.request_close());
    assert!(!latch.request_close());
    assert!(latch.requested());
}

#[test]
fn session_lifecycle_moves() {
    assert!(is_valid_transition(SessionState::Connecting, SessionState::Connected));
    assert!(is_valid_transition(SessionState::Connecting, SessionState::Closed));
    assert!(is_valid_transition(SessionState::Connected, SessionState::Disconnected));
    assert!(is_valid_transition(SessionState::Disconnected, SessionState::Closed));
    assert!(!is_valid_transition(SessionState::Disconnected, SessionState::Connected));
    assert!(!is_valid_transition(SessionState::Closed, SessionState::Connecting));
    assert!(!is_valid_transition(SessionState::Connected, SessionState::Connecting));
}

#[test]
fn tick_action_per_state() {
    assert_eq!(client_tick_action(SessionState::Connected), ClientTickAction::Send);
    assert_eq!(client_tick_action(SessionState::Connecting), ClientTickAction::Wait);
    assert_eq!(client_tick_action(SessionState::Disconnected), ClientTickAction::Close);
    assert_eq!(client_tick_action(SessionState::Closed), ClientTickAction::Drop);
}

#[test]
fn client_history_advances_each_tick() {
    let mut realm = Realm::new();
    realm.spawn(player_at(5));
    let mut handle = ClientHandle::new();
    let first = handle.tick(&realm).unwrap();
    assert_eq!(first.inner.actions.len(), 1);
    assert_eq!(handle.latest(), 1);
    let second = handle.tick(&realm).unwrap();
    assert_eq!(second.inner.actions.len(), 0);
    assert_eq!(handle.latest(), 2);
}

#[test]
fn client_history_wraps_its_sequence_numbers() {
    let realm = Realm::new();
    let mut handle = ClientHandle::new();
    for _ in 0..SNAPSHOT_VCAP {
        handle.tick(&realm).unwrap();
    }
    assert_eq!(handle.latest(), 0);
    assert!(handle.tick(&realm).is_ok());
}

#[test]
fn arena_batches_per_client() {
    let mut arena = Arena::new();
    arena.alloc_client(3);
    assert!(arena.has_client(3));
    assert!(arena.client_batch(4).is_none());
    arena.realm_mut().spawn(player_at(1));
    arena.realm_mut().spawn(player_at(2));
    let batch = arena.client_batch(3).unwrap().unwrap();
    assert_eq!(batch.inner.actions.len(), 2);
    let batch = arena.client_batch(3).unwrap().unwrap();
    assert_eq!(batch.inner.actions.len(), 0);
    arena.drop_client(3);
    assert!(!arena.has_client(3));
}

#[test]
fn systems_move_and_remove_the_dead() {
    let mut realm = Realm::new();
    let mut c = player_at(10);
    c.velocity = Some(Velocity { xy: v2(3, -1) });
    let moving = realm.spawn(c);
    let mut d = player_at(0);
    d.health = Some(Health::new(0));
    let dead = realm.spawn(d);
    realm.run_systems();
    let moved = realm.components(moving).unwrap();
    assert_eq!(moved.position.unwrap().xy, v2(13, -1));
    assert!(realm.components(dead).is_none());
    assert_eq!(realm.tokens().len(), 1);
}

#[test]
fn join_takes_the_lowest_free_id() {
    let mut arena = Arena::new();
    assert_eq!(arena.join_client(), Some(0));
    assert_eq!(arena.join_client(), Some(1));
    assert_eq!(arena.join_client(), Some(2));
    arena.drop_client(1);
    assert_eq!(arena.join_client(), Some(1));
    assert_eq!(arena.join_client(), Some(3));
}

#[test]
fn join_refuses_when_full() {
    let mut arena = Arena::new();
    for i in 0..u8::MAX {
        assert_eq!(arena.join_client(), Some(i));
    }
    assert_eq!(arena.join_client(), None);
}

#[test]
fn arena_advance_runs_systems() {
    let mut arena = Arena::new();
    let mut c = player_at(1);
    c.velocity = Some(Velocity { xy: v2(2, 2) });
    let e = arena.realm_mut().spawn(c);
    arena.advance();
    assert_eq!(arena.realm().components(e).unwrap().position.unwrap().xy, v2(3, 2));
}

#[test]
fn client_history_records_the_applied_snapshot() {
    let mut realm = Realm::new();
    realm.spawn(player_at(7));
    let mut handle = ClientHandle::new();
    let batch = handle.tick(&realm).unwrap();
    assert_eq!(batch.inner.actions.len(), 1);
    // the recorded snapshot already holds the entity, so the next batch is empty
    // and the one after that too
    assert!(handle.tick(&realm).unwrap().inner.actions.is_empty());
    realm.spawn(player_at(8));
    let third = handle.tick(&realm).unwrap();
    assert_eq!(third.inner.actions.len(), 1);
    assert_eq!(third.inner.actions[0].repl_key, 1);
}
