use vstd::prelude::*;

use bimap::BiBTreeMap;
use hecs::World;

use crate::components::Components;

verus! {

#[verifier::external_type_specification]
#[verifier::external_body]
pub struct ExWorld(World);

#[verifier::external_type_specification]
#[verifier::external_body]
#[verifier::reject_recursive_types(L)]
#[verifier::reject_recursive_types(R)]
pub struct ExBiBTreeMap<L, R>(BiBTreeMap<L, R>);

/// The entities of a world, keyed by their handle's bit pattern, each with the
/// components it carries.
pub uninterp spec fn world_entities(w: World) -> Map<u64, Components>;

/// The pairs of a token map, from token `(key, generation)` to entity bits.
pub uninterp spec fn token_pairs(m: BiBTreeMap<(u32, u32), u64>) -> Map<(u32, u32), u64>;

/// The index part of an entity's bit pattern; live entities never share it.
pub open spec fn entity_index(bits: u64) -> int {
    bits as int % 0x1_0000_0000
}

/// What every world built through this module satisfies: handles carry a
/// non-zero generation in their upper half, and no two live handles share an index.
pub open spec fn world_ok(m: Map<u64, Components>) -> bool {
    &&& forall|k: u64| #[trigger] m.contains_key(k) ==> k >= 0x1_0000_0000
    &&& forall|a: u64, b: u64|
        #[trigger] m.contains_key(a) && #[trigger] m.contains_key(b) && a != b ==> entity_index(a)
            != entity_index(b)
}

/// Relies on hecs::World::new: a new world has no entities.
#[verifier::external_body]
pub(crate) fn world_new() -> (world: World)
    ensures
        world_entities(world).dom().is_empty(),
{
    World::new()
}

/// Relies on hecs::World::spawn and Entity::to_bits: the new entity gets a handle
/// whose index no live entity uses and whose generation is at least one. hecs
/// stops with "too many entities" once it has handed out every 32-bit index; the
/// bound on live entities here keeps clear of that as long as indices are reused.
#[verifier::external_body]
pub(crate) fn world_spawn(w: &mut World, c: Components) -> (r: u64)
    requires
        world_entities(*old(w)).len() < u32::MAX,
    ensures
        r >= 0x1_0000_0000,
        forall|k: u64| #[trigger]
            world_entities(*old(w)).contains_key(k) ==> entity_index(k) != entity_index(r),
        world_entities(*final(w)) == world_entities(*old(w)).insert(r, c),
{
    w.spawn((c,)).to_bits().get()
}

/// Relies on hecs::World::spawn_at and Entity::from_bits: the entity is created
/// under the given handle, replacing a live entity with that same handle.
#[verifier::external_body]
pub(crate) fn world_spawn_at(w: &mut World, bits: u64, c: Components)
    requires
        bits >= 0x1_0000_0000,
        forall|k: u64| #[trigger]
            world_entities(*old(w)).contains_key(k) && k != bits ==> entity_index(k)
                != entity_index(bits),
    ensures
        world_entities(*final(w)) == world_entities(*old(w)).insert(bits, c),
{
    w.spawn_at(hecs::Entity::from_bits(bits).unwrap(), (c,))
}

/// Relies on hecs::World::despawn: the entity is removed when it is live.
#[verifier::external_body]
pub(crate) fn world_despawn(w: &mut World, bits: u64) -> (r: bool)
    ensures
        r == world_entities(*old(w)).contains_key(bits),
        world_entities(*final(w)) == world_entities(*old(w)).remove(bits),
{
    match hecs::Entity::from_bits(bits) {
        Some(e) => w.despawn(e).is_ok(),
        None => false,
    }
}

/// Relies on hecs::World::get: the components of a live entity.
#[verifier::external_body]
pub(crate) fn world_get(w: &World, bits: u64) -> (r: Option<Components>)
    ensures
        r is Some <==> world_entities(*w).contains_key(bits),
        r is Some ==> r->Some_0 == world_entities(*w)[bits],
{
    match hecs::Entity::from_bits(bits) {
        Some(e) => match w.get::<&Components>(e) {
            Ok(c) => Some(*c),
            Err(_) => None,
        },
        None => None,
    }
}

/// Relies on hecs::World::len: the number of live entities.
#[verifier::external_body]
pub(crate) fn world_len(w: &World) -> (r: u32)
    ensures
        r == world_entities(*w).len(),
{
    w.len()
}

/// Relies on hecs::World::iter: every live entity is visited once.
#[verifier::external_body]
pub(crate) fn world_entity_bits(w: &World) -> (r: Vec<u64>)
    ensures
        r@.to_set() == world_entities(*w).dom(),
        r@.no_duplicates(),
{
    let mut out = Vec::new();
    for e in w.iter() {
        out.push(e.entity().to_bits().get());
    }
    out
}

/// Relies on bimap::BiBTreeMap::new: a new map is empty.
#[verifier::external_body]
pub(crate) fn token_map_new() -> (map: BiBTreeMap<(u32, u32), u64>)
    ensures
        token_pairs(map).dom().is_empty(),
{
    BiBTreeMap::new()
}

/// Relies on bimap::BiBTreeMap::insert: with neither side present, the pair is added.
#[verifier::external_body]
pub(crate) fn token_map_insert(m: &mut BiBTreeMap<(u32, u32), u64>, left: (u32, u32), right: u64)
    requires
        !token_pairs(*old(m)).contains_key(left),
        !token_pairs(*old(m)).values().contains(right),
    ensures
        token_pairs(*final(m)) == token_pairs(*old(m)).insert(left, right),
{
    m.insert(left, right);
}

/// Relies on bimap::BiBTreeMap::get_by_left: the entity paired with a token.
#[verifier::external_body]
pub(crate) fn token_map_get(m: &BiBTreeMap<(u32, u32), u64>, left: (u32, u32)) -> (r: Option<u64>)
    ensures
        r is Some <==> token_pairs(*m).contains_key(left),
        r is Some ==> r->Some_0 == token_pairs(*m)[left],
{
    m.get_by_left(&left).copied()
}

/// Relies on bimap::BiBTreeMap::remove_by_right: removes the pair whose entity is `right`.
#[verifier::external_body]
pub(crate) fn token_map_remove_by_right(m: &mut BiBTreeMap<(u32, u32), u64>, right: u64) -> (r:
    Option<(u32, u32)>)
    ensures
        r is None ==> !token_pairs(*old(m)).values().contains(right) && token_pairs(*final(m))
            == token_pairs(*old(m)),
        r is Some ==> token_pairs(*old(m)).contains_key(r->Some_0) && token_pairs(*old(m))[r->Some_0]
            == right && token_pairs(*final(m)) == token_pairs(*old(m)).remove(r->Some_0),
{
    m.remove_by_right(&right).map(|pair| pair.0)
}

/// Relies on bimap::BiBTreeMap::left_values: every token is visited once.
#[verifier::external_body]
pub(crate) fn token_map_lefts(m: &BiBTreeMap<(u32, u32), u64>) -> (r: Vec<(u32, u32)>)
    ensures
        r@.to_set() == token_pairs(*m).dom(),
        r@.no_duplicates(),
{
    m.left_values().copied().collect()
}

} // verus!
