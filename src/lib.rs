//! State synchronization for a real-time multi-client simulation: a world of
//! entities with stable replication tokens, per-client snapshot histories
//! addressed by wrapping sequence numbers, and a delta engine that turns the
//! difference between a client's snapshot and the world into a bounded,
//! priority-ordered batch of patches.

pub mod arena;
pub mod circular;
pub mod components;
pub mod conversions;
pub mod delta;
pub mod realm;
pub mod session;
pub mod snapshot;
pub mod systems;
pub mod token_pool;
pub mod types;
pub mod world;
