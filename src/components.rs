use vstd::prelude::*;

use crate::types::{lemma_i32_diff_round_trip, lemma_i8_diff_round_trip, lemma_u16_diff_round_trip};
use crate::types::{Num, Zed, V2};

verus! {

/// Identifier of a connected client.
pub type ClientId = u8;

/// What kind of object a replicated entity is; decides how fast it gains priority.
#[derive(Debug, Clone, Copy, PartialEq, Eq, Structural)]
pub enum Blueprint {
    Player,
    Bullet,
    Static,
}

/// Marks an entity as replicated to clients.
#[derive(Debug, Clone, Copy, PartialEq, Eq, Structural)]
pub struct Replicated {
    pub blueprint: Option<Blueprint>,
}

#[derive(Debug, Clone, Copy, PartialEq, Eq, Structural, Default)]
pub struct Position {
    pub xy: V2,
    pub zed: Zed,
}

#[derive(Debug, Clone, Copy, PartialEq, Eq, Structural, Default)]
pub struct Rotation {
    pub rad: Num,
}

#[derive(Debug, Clone, Copy, PartialEq, Eq, Structural, Default)]
pub struct Velocity {
    pub xy: V2,
}

#[derive(Debug, Clone, Copy, PartialEq, Eq, Structural, Default)]
pub struct Scale {
    pub xy: V2,
}

#[derive(Debug, Clone, Copy, PartialEq, Eq, Structural, Default)]
pub struct Camera {}

#[derive(Debug, Clone, Copy, PartialEq, Eq, Structural, Default)]
pub struct Player {
    pub id: ClientId,
}

/// Replicated player inputs.
#[derive(Debug, Clone, Copy, PartialEq, Eq, Structural, Default)]
pub struct Input {
    pub movement: V2,
    pub aim: Num,
}

#[derive(Debug, Clone, Copy, PartialEq, Eq, Structural, Default)]
pub struct Bullet {}

#[derive(Debug, Clone, Copy, PartialEq, Eq, Structural, Default)]
pub struct Dead {}

#[derive(Debug, Clone, Copy, PartialEq, Eq, Structural, Default)]
pub struct Health {
    pub value: u16,
}

impl Health {
    pub fn new(value: u16) -> (r: Self)
        ensures
            r.value == value,
    {
        Health { value }
    }
}

pub open spec fn v2_sub(a: V2, b: V2) -> V2 {
    V2 {
        x: Num { bits: a.x.bits.wrapping_sub(b.x.bits) },
        y: Num { bits: a.y.bits.wrapping_sub(b.y.bits) },
    }
}

pub open spec fn v2_add(a: V2, b: V2) -> V2 {
    V2 {
        x: Num { bits: a.x.bits.wrapping_add(b.x.bits) },
        y: Num { bits: a.y.bits.wrapping_add(b.y.bits) },
    }
}

pub open spec fn zero_v2() -> V2 {
    V2 { x: Num { bits: 0 }, y: Num { bits: 0 } }
}

proof fn lemma_v2_round_trip(before: V2, after: V2)
    ensures
        v2_add(before, v2_sub(after, before)) == after,
{
    lemma_i32_diff_round_trip(before.x.bits, after.x.bits);
    lemma_i32_diff_round_trip(before.y.bits, after.y.bits);
}

impl Position {
    pub open spec fn spec_sub(self, o: Position) -> Position {
        Position {
            xy: v2_sub(self.xy, o.xy),
            zed: Zed { value: self.zed.value.wrapping_sub(o.zed.value) },
        }
    }

    pub open spec fn spec_add(self, o: Position) -> Position {
        Position {
            xy: v2_add(self.xy, o.xy),
            zed: Zed { value: self.zed.value.wrapping_add(o.zed.value) },
        }
    }

    pub open spec fn zero() -> Position {
        Position { xy: zero_v2(), zed: Zed { value: 0 } }
    }

    pub fn sub(self, o: Position) -> (r: Position)
        ensures
            r == self.spec_sub(o),
    {
        Position {
            xy: self.xy.wrapping_sub(o.xy),
            zed: Zed { value: self.zed.value.wrapping_sub(o.zed.value) },
        }
    }

    pub fn add(self, o: Position) -> (r: Position)
        ensures
            r == self.spec_add(o),
    {
        Position {
            xy: self.xy.wrapping_add(o.xy),
            zed: Zed { value: self.zed.value.wrapping_add(o.zed.value) },
        }
    }

    pub fn default_value() -> (r: Position)
        ensures
            r == Self::zero(),
    {
        Position { xy: V2 { x: Num { bits: 0 }, y: Num { bits: 0 } }, zed: Zed { value: 0 } }
    }
}

impl Rotation {
    pub open spec fn spec_sub(self, o: Rotation) -> Rotation {
        Rotation { rad: Num { bits: self.rad.bits.wrapping_sub(o.rad.bits) } }
    }

    pub open spec fn spec_add(self, o: Rotation) -> Rotation {
        Rotation { rad: Num { bits: self.rad.bits.wrapping_add(o.rad.bits) } }
    }

    pub open spec fn zero() -> Rotation {
        Rotation { rad: Num { bits: 0 } }
    }

    pub fn sub(self, o: Rotation) -> (r: Rotation)
        ensures
            r == self.spec_sub(o),
    {
        Rotation { rad: self.rad.wrapping_sub(o.rad) }
    }

    pub fn add(self, o: Rotation) -> (r: Rotation)
        ensures
            r == self.spec_add(o),
    {
        Rotation { rad: self.rad.wrapping_add(o.rad) }
    }

    pub fn default_value() -> (r: Rotation)
        ensures
            r == Self::zero(),
    {
        Rotation { rad: Num { bits: 0 } }
    }
}

impl Velocity {
    pub open spec fn spec_sub(self, o: Velocity) -> Velocity {
        Velocity { xy: v2_sub(self.xy, o.xy) }
    }

    pub open spec fn spec_add(self, o: Velocity) -> Velocity {
        Velocity { xy: v2_add(self.xy, o.xy) }
    }

    pub open spec fn zero() -> Velocity {
        Velocity { xy: zero_v2() }
    }

    pub fn sub(self, o: Velocity) -> (r: Velocity)
        ensures
            r == self.spec_sub(o),
    {
        Velocity { xy: self.xy.wrapping_sub(o.xy) }
    }

    pub fn add(self, o: Velocity) -> (r: Velocity)
        ensures
            r == self.spec_add(o),
    {
        Velocity { xy: self.xy.wrapping_add(o.xy) }
    }

    pub fn default_value() -> (r: Velocity)
        ensures
            r == Self::zero(),
    {
        Velocity { xy: V2 { x: Num { bits: 0 }, y: Num { bits: 0 } } }
    }
}

impl Health {
    pub open spec fn spec_sub(self, o: Health) -> Health {
        Health { value: self.value.wrapping_sub(o.value) }
    }

    pub open spec fn spec_add(self, o: Health) -> Health {
        Health { value: self.value.wrapping_add(o.value) }
    }

    pub open spec fn zero() -> Health {
        Health { value: 0 }
    }

    pub fn sub(self, o: Health) -> (r: Health)
        ensures
            r == self.spec_sub(o),
    {
        Health { value: self.value.wrapping_sub(o.value) }
    }

    pub fn add(self, o: Health) -> (r: Health)
        ensures
            r == self.spec_add(o),
    {
        Health { value: self.value.wrapping_add(o.value) }
    }

    pub fn default_value() -> (r: Health)
        ensures
            r == Self::zero(),
    {
        Health { value: 0 }
    }
}

/// Everything an entity carries; `None` where it lacks that component.
#[derive(Debug, Clone, Copy, PartialEq, Eq, Structural)]
pub struct Components {
    pub position: Option<Position>,
    pub rotation: Option<Rotation>,
    pub velocity: Option<Velocity>,
    pub camera: Option<Camera>,
    pub player: Option<Player>,
    pub input: Option<Input>,
    pub bullet: Option<Bullet>,
    pub health: Option<Health>,
    pub scale: Option<Scale>,
    pub dead: Option<Dead>,
    pub replicated: Option<Replicated>,
}

impl Components {
    pub open spec fn spec_empty() -> Components {
        Components {
            position: None,
            rotation: None,
            velocity: None,
            camera: None,
            player: None,
            input: None,
            bullet: None,
            health: None,
            scale: None,
            dead: None,
            replicated: None,
        }
    }

    /// An entity with no components.
    pub fn empty() -> (r: Components)
        ensures
            r == Self::spec_empty(),
    {
        Components {
            position: None,
            rotation: None,
            velocity: None,
            camera: None,
            player: None,
            input: None,
            bullet: None,
            health: None,
            scale: None,
            dead: None,
            replicated: None,
        }
    }

    /// Whether two entities agree on every component that is replicated.
    pub open spec fn same_replicated(self, o: Components) -> bool {
        &&& self.position == o.position
        &&& self.rotation == o.rotation
        &&& self.velocity == o.velocity
        &&& self.health == o.health
        &&& self.camera == o.camera
        &&& self.player == o.player
        &&& self.bullet == o.bullet
    }
}

/// A difference for a component kind with arithmetic.
#[derive(Debug, Clone, Copy, PartialEq, Eq, Structural)]
pub enum DeltaDiff {
    Position(Position),
    Rotation(Rotation),
    Velocity(Velocity),
    Health(Health),
}

/// A full new value for a component kind without arithmetic.
#[derive(Debug, Clone, Copy, PartialEq, Eq, Structural)]
pub enum DeltaReplace {
    Camera(Camera),
    Player(Player),
    Bullet(Bullet),
}

/// A replicated component kind that was taken off an entity.
#[derive(Debug, Clone, Copy, PartialEq, Eq, Structural)]
pub enum DeltaRemove {
    Position,
    Rotation,
    Velocity,
    Camera,
    Player,
    Bullet,
    Health,
}

/// One change to one component of an entity.
#[derive(Debug, Clone, Copy, PartialEq, Eq, Structural)]
pub enum DeltaComponentPatch {
    DiffComponent(DeltaDiff),
    ReplaceComponent(DeltaReplace),
    RemoveComponent(DeltaRemove),
}

/// The patch for one component kind: nothing when unchanged, `patch` when the
/// component is present now, `remove` when it is gone.
pub open spec fn kind_patch<T>(
    before: Option<T>,
    after: Option<T>,
    patch: DeltaComponentPatch,
    remove: DeltaComponentPatch,
) -> Seq<DeltaComponentPatch> {
    if before == after {
        seq![]
    } else if after is Some {
        seq![patch]
    } else {
        seq![remove]
    }
}

pub open spec fn position_patch(before: Components, after: Components) -> Seq<DeltaComponentPatch> {
    kind_patch(
        before.position,
        after.position,
        DeltaComponentPatch::DiffComponent(
            DeltaDiff::Position(after.position->Some_0.spec_sub(before.position.unwrap_or(Position::zero()))),
        ),
        DeltaComponentPatch::RemoveComponent(DeltaRemove::Position),
    )
}

pub open spec fn rotation_patch(before: Components, after: Components) -> Seq<DeltaComponentPatch> {
    kind_patch(
        before.rotation,
        after.rotation,
        DeltaComponentPatch::DiffComponent(
            DeltaDiff::Rotation(after.rotation->Some_0.spec_sub(before.rotation.unwrap_or(Rotation::zero()))),
        ),
        DeltaComponentPatch::RemoveComponent(DeltaRemove::Rotation),
    )
}

pub open spec fn velocity_patch(before: Components, after: Components) -> Seq<DeltaComponentPatch> {
    kind_patch(
        before.velocity,
        after.velocity,
        DeltaComponentPatch::DiffComponent(
            DeltaDiff::Velocity(after.velocity->Some_0.spec_sub(before.velocity.unwrap_or(Velocity::zero()))),
        ),
        DeltaComponentPatch::RemoveComponent(DeltaRemove::Velocity),
    )
}

pub open spec fn health_patch(before: Components, after: Components) -> Seq<DeltaComponentPatch> {
    kind_patch(
        before.health,
        after.health,
        DeltaComponentPatch::DiffComponent(
            DeltaDiff::Health(after.health->Some_0.spec_sub(before.health.unwrap_or(Health::zero()))),
        ),
        DeltaComponentPatch::RemoveComponent(DeltaRemove::Health),
    )
}

pub open spec fn camera_patch(before: Components, after: Components) -> Seq<DeltaComponentPatch> {
    kind_patch(
        before.camera,
        after.camera,
        DeltaComponentPatch::ReplaceComponent(DeltaReplace::Camera(after.camera->Some_0)),
        DeltaComponentPatch::RemoveComponent(DeltaRemove::Camera),
    )
}

pub open spec fn player_patch(before: Components, after: Components) -> Seq<DeltaComponentPatch> {
    kind_patch(
        before.player,
        after.player,
        DeltaComponentPatch::ReplaceComponent(DeltaReplace::Player(after.player->Some_0)),
        DeltaComponentPatch::RemoveComponent(DeltaRemove::Player),
    )
}

pub open spec fn bullet_patch(before: Components, after: Components) -> Seq<DeltaComponentPatch> {
    kind_patch(
        before.bullet,
        after.bullet,
        DeltaComponentPatch::ReplaceComponent(DeltaReplace::Bullet(after.bullet->Some_0)),
        DeltaComponentPatch::RemoveComponent(DeltaRemove::Bullet),
    )
}

/// The patches that turn `before` into `after` on the replicated components,
/// in the fixed order position, rotation, velocity, health, camera, player, bullet.
/// Arithmetic kinds carry `after - before`, with a missing `before` read as zero.
pub open spec fn component_patches(before: Components, after: Components) -> Seq<
    DeltaComponentPatch,
> {
    position_patch(before, after) + rotation_patch(before, after) + velocity_patch(before, after)
        + health_patch(before, after) + camera_patch(before, after) + player_patch(before, after)
        + bullet_patch(before, after)
}

/// `c` with one patch applied: a diff is added to the current value (a missing
/// value reads as zero), a replacement overwrites, a removal clears.
pub open spec fn apply_patch(c: Components, p: DeltaComponentPatch) -> Components {
    match p {
        DeltaComponentPatch::DiffComponent(d) => match d {
            DeltaDiff::Position(v) => Components {
                position: Some(c.position.unwrap_or(Position::zero()).spec_add(v)),
                ..c
            },
            DeltaDiff::Rotation(v) => Components {
                rotation: Some(c.rotation.unwrap_or(Rotation::zero()).spec_add(v)),
                ..c
            },
            DeltaDiff::Velocity(v) => Components {
                velocity: Some(c.velocity.unwrap_or(Velocity::zero()).spec_add(v)),
                ..c
            },
            DeltaDiff::Health(v) => Components {
                health: Some(c.health.unwrap_or(Health::zero()).spec_add(v)),
                ..c
            },
        },
        DeltaComponentPatch::ReplaceComponent(r) => match r {
            DeltaReplace::Camera(v) => Components { camera: Some(v), ..c },
            DeltaReplace::Player(v) => Components { player: Some(v), ..c },
            DeltaReplace::Bullet(v) => Components { bullet: Some(v), ..c },
        },
        DeltaComponentPatch::RemoveComponent(r) => match r {
            DeltaRemove::Position => Components { position: None, ..c },
            DeltaRemove::Rotation => Components { rotation: None, ..c },
            DeltaRemove::Velocity => Components { velocity: None, ..c },
            DeltaRemove::Camera => Components { camera: None, ..c },
            DeltaRemove::Player => Components { player: None, ..c },
            DeltaRemove::Bullet => Components { bullet: None, ..c },
            DeltaRemove::Health => Components { health: None, ..c },
        },
    }
}

/// `c` with `ps` applied in order.
#[verifier::opaque]
pub open spec fn apply_patches(c: Components, ps: Seq<DeltaComponentPatch>) -> Components
    decreases ps.len(),
{
    if ps.len() == 0 {
        c
    } else {
        apply_patch(apply_patches(c, ps.drop_last()), ps.last())
    }
}

} // verus!

verus! {

/// Applying `a` then `b` is applying their concatenation.
pub proof fn lemma_apply_concat(c: Components, a: Seq<DeltaComponentPatch>, b: Seq<DeltaComponentPatch>)
    ensures
        apply_patches(c, a + b) == apply_patches(apply_patches(c, a), b),
    decreases b.len(),
{
    reveal(apply_patches);
    if b.len() == 0 {
        assert(a + b =~= a);
    } else {
        lemma_apply_concat(c, a, b.drop_last());
        assert((a + b).drop_last() =~= a + b.drop_last());
    }
}

proof fn lemma_apply_kind<T>(
    c: Components,
    before: Option<T>,
    after: Option<T>,
    patch: DeltaComponentPatch,
    remove: DeltaComponentPatch,
)
    ensures
        apply_patches(c, kind_patch(before, after, patch, remove)) == if before == after {
            c
        } else if after is Some {
            apply_patch(c, patch)
        } else {
            apply_patch(c, remove)
        },
{
    reveal(apply_patches);
    let s = kind_patch(before, after, patch, remove);
    if before != after {
        assert(s.drop_last() =~= Seq::<DeltaComponentPatch>::empty());
        assert(apply_patches(c, s.drop_last()) == c);
    } else {
        assert(s.len() == 0);
    }
}

/// Applying the patches computed from `before` to `after` onto `before` yields
/// `after` on every replicated component and leaves the others as they were.
pub proof fn lemma_patch_round_trip(before: Components, after: Components)
    ensures
        apply_patches(before, component_patches(before, after)).same_replicated(after),
        apply_patches(before, component_patches(before, after)).input == before.input,
        apply_patches(before, component_patches(before, after)).scale == before.scale,
        apply_patches(before, component_patches(before, after)).dead == before.dead,
        apply_patches(before, component_patches(before, after)).replicated == before.replicated,
{
    let k1 = kind_patch(
        before.position,
        after.position,
        DeltaComponentPatch::DiffComponent(
            DeltaDiff::Position(
                after.position->Some_0.spec_sub(before.position.unwrap_or(Position::zero())),
            ),
        ),
        DeltaComponentPatch::RemoveComponent(DeltaRemove::Position),
    );
    let k2 = kind_patch(
        before.rotation,
        after.rotation,
        DeltaComponentPatch::DiffComponent(
            DeltaDiff::Rotation(
                after.rotation->Some_0.spec_sub(before.rotation.unwrap_or(Rotation::zero())),
            ),
        ),
        DeltaComponentPatch::RemoveComponent(DeltaRemove::Rotation),
    );
    let k3 = kind_patch(
        before.velocity,
        after.velocity,
        DeltaComponentPatch::DiffComponent(
            DeltaDiff::Velocity(
                after.velocity->Some_0.spec_sub(before.velocity.unwrap_or(Velocity::zero())),
            ),
        ),
        DeltaComponentPatch::RemoveComponent(DeltaRemove::Velocity),
    );
    let k4 = kind_patch(
        before.health,
        after.health,
        DeltaComponentPatch::DiffComponent(
            DeltaDiff::Health(
                after.health->Some_0.spec_sub(before.health.unwrap_or(Health::zero())),
            ),
        ),
        DeltaComponentPatch::RemoveComponent(DeltaRemove::Health),
    );
    let k5 = kind_patch(
        before.camera,
        after.camera,
        DeltaComponentPatch::ReplaceComponent(DeltaReplace::Camera(after.camera->Some_0)),
        DeltaComponentPatch::RemoveComponent(DeltaRemove::Camera),
    );
    let k6 = kind_patch(
        before.player,
        after.player,
        DeltaComponentPatch::ReplaceComponent(DeltaReplace::Player(after.player->Some_0)),
        DeltaComponentPatch::RemoveComponent(DeltaRemove::Player),
    );
    let k7 = kind_patch(
        before.bullet,
        after.bullet,
        DeltaComponentPatch::ReplaceComponent(DeltaReplace::Bullet(after.bullet->Some_0)),
        DeltaComponentPatch::RemoveComponent(DeltaRemove::Bullet),
    );
    assert(component_patches(before, after) == k1 + k2 + k3 + k4 + k5 + k6 + k7);
    lemma_apply_concat(before, k1 + k2 + k3 + k4 + k5 + k6, k7);
    lemma_apply_concat(before, k1 + k2 + k3 + k4 + k5, k6);
    lemma_apply_concat(before, k1 + k2 + k3 + k4, k5);
    lemma_apply_concat(before, k1 + k2 + k3, k4);
    lemma_apply_concat(before, k1 + k2, k3);
    lemma_apply_concat(before, k1, k2);
    let c1 = apply_patches(before, k1);
    assert(c1.position == after.position && c1 == Components { position: c1.position, ..before })
        by {
        lemma_apply_kind(
            before,
            before.position,
            after.position,
            DeltaComponentPatch::DiffComponent(
                DeltaDiff::Position(
                    after.position->Some_0.spec_sub(before.position.unwrap_or(Position::zero())),
                ),
            ),
            DeltaComponentPatch::RemoveComponent(DeltaRemove::Position),
        );
        let z = before.position.unwrap_or(Position::zero());
        if after.position is Some {
            lemma_v2_round_trip(z.xy, after.position->Some_0.xy);
            lemma_i8_diff_round_trip(z.zed.value, after.position->Some_0.zed.value);
        }
    }
    let c2 = apply_patches(c1, k2);
    assert(c2.rotation == after.rotation && c2 == Components { rotation: c2.rotation, ..c1 }) by {
        lemma_apply_kind(
            c1,
            before.rotation,
            after.rotation,
            DeltaComponentPatch::DiffComponent(
                DeltaDiff::Rotation(
                    after.rotation->Some_0.spec_sub(before.rotation.unwrap_or(Rotation::zero())),
                ),
            ),
            DeltaComponentPatch::RemoveComponent(DeltaRemove::Rotation),
        );
        let z = before.rotation.unwrap_or(Rotation::zero());
        if after.rotation is Some {
            lemma_i32_diff_round_trip(z.rad.bits, after.rotation->Some_0.rad.bits);
        }
    }
    let c3 = apply_patches(c2, k3);
    assert(c3.velocity == after.velocity && c3 == Components { velocity: c3.velocity, ..c2 }) by {
        lemma_apply_kind(
            c2,
            before.velocity,
            after.velocity,
            DeltaComponentPatch::DiffComponent(
                DeltaDiff::Velocity(
                    after.velocity->Some_0.spec_sub(before.velocity.unwrap_or(Velocity::zero())),
                ),
            ),
            DeltaComponentPatch::RemoveComponent(DeltaRemove::Velocity),
        );
        let z = before.velocity.unwrap_or(Velocity::zero());
        if after.velocity is Some {
            lemma_v2_round_trip(z.xy, after.velocity->Some_0.xy);
        }
    }
    let c4 = apply_patches(c3, k4);
    assert(c4.health == after.health && c4 == Components { health: c4.health, ..c3 }) by {
        lemma_apply_kind(
            c3,
            before.health,
            after.health,
            DeltaComponentPatch::DiffComponent(
                DeltaDiff::Health(
                    after.health->Some_0.spec_sub(before.health.unwrap_or(Health::zero())),
                ),
            ),
            DeltaComponentPatch::RemoveComponent(DeltaRemove::Health),
        );
        let z = before.health.unwrap_or(Health::zero());
        if after.health is Some {
            lemma_u16_diff_round_trip(z.value, after.health->Some_0.value);
        }
    }
    let c5 = apply_patches(c4, k5);
    assert(c5.camera == after.camera && c5 == Components { camera: c5.camera, ..c4 }) by {
        lemma_apply_kind(
            c4,
            before.camera,
            after.camera,
            DeltaComponentPatch::ReplaceComponent(DeltaReplace::Camera(after.camera->Some_0)),
            DeltaComponentPatch::RemoveComponent(DeltaRemove::Camera),
        );
    }
    let c6 = apply_patches(c5, k6);
    assert(c6.player == after.player && c6 == Components { player: c6.player, ..c5 }) by {
        lemma_apply_kind(
            c5,
            before.player,
            after.player,
            DeltaComponentPatch::ReplaceComponent(DeltaReplace::Player(after.player->Some_0)),
            DeltaComponentPatch::RemoveComponent(DeltaRemove::Player),
        );
    }
    let c7 = apply_patches(c6, k7);
    assert(c7.bullet == after.bullet && c7 == Components { bullet: c7.bullet, ..c6 }) by {
        lemma_apply_kind(
            c6,
            before.bullet,
            after.bullet,
            DeltaComponentPatch::ReplaceComponent(DeltaReplace::Bullet(after.bullet->Some_0)),
            DeltaComponentPatch::RemoveComponent(DeltaRemove::Bullet),
        );
    }
}

} // verus!

verus! {

fn push_position_patch(out: &mut Vec<DeltaComponentPatch>, b: &Components, a: &Components)
    ensures
        final(out)@ == old(out)@ + position_patch(*b, *a),
{
    if b.position != a.position {
        match a.position {
            Some(v) => {
                let base = match b.position {
                    Some(p) => p,
                    None => Position::default_value(),
                };
                out.push(DeltaComponentPatch::DiffComponent(DeltaDiff::Position(v.sub(base))));
            },
            None => out.push(DeltaComponentPatch::RemoveComponent(DeltaRemove::Position)),
        }
    }
    proof {
        assert(final(out)@ =~= old(out)@ + position_patch(*b, *a));
    }
}

fn push_rotation_patch(out: &mut Vec<DeltaComponentPatch>, b: &Components, a: &Components)
    ensures
        final(out)@ == old(out)@ + rotation_patch(*b, *a),
{
    if b.rotation != a.rotation {
        match a.rotation {
            Some(v) => {
                let base = match b.rotation {
                    Some(p) => p,
                    None => Rotation::default_value(),
                };
                out.push(DeltaComponentPatch::DiffComponent(DeltaDiff::Rotation(v.sub(base))));
            },
            None => out.push(DeltaComponentPatch::RemoveComponent(DeltaRemove::Rotation)),
        }
    }
    proof {
        assert(final(out)@ =~= old(out)@ + rotation_patch(*b, *a));
    }
}

fn push_velocity_patch(out: &mut Vec<DeltaComponentPatch>, b: &Components, a: &Components)
    ensures
        final(out)@ == old(out)@ + velocity_patch(*b, *a),
{
    if b.velocity != a.velocity {
        match a.velocity {
            Some(v) => {
                let base = match b.velocity {
                    Some(p) => p,
                    None => Velocity::default_value(),
                };
                out.push(DeltaComponentPatch::DiffComponent(DeltaDiff::Velocity(v.sub(base))));
            },
            None => out.push(DeltaComponentPatch::RemoveComponent(DeltaRemove::Velocity)),
        }
    }
    proof {
        assert(final(out)@ =~= old(out)@ + velocity_patch(*b, *a));
    }
}

fn push_health_patch(out: &mut Vec<DeltaComponentPatch>, b: &Components, a: &Components)
    ensures
        final(out)@ == old(out)@ + health_patch(*b, *a),
{
    if b.health != a.health {
        match a.health {
            Some(v) => {
                let base = match b.health {
                    Some(p) => p,
                    None => Health::default_value(),
                };
                out.push(DeltaComponentPatch::DiffComponent(DeltaDiff::Health(v.sub(base))));
            },
            None => out.push(DeltaComponentPatch::RemoveComponent(DeltaRemove::Health)),
        }
    }
    proof {
        assert(final(out)@ =~= old(out)@ + health_patch(*b, *a));
    }
}

fn push_camera_patch(out: &mut Vec<DeltaComponentPatch>, b: &Components, a: &Components)
    ensures
        final(out)@ == old(out)@ + camera_patch(*b, *a),
{
    if b.camera != a.camera {
        match a.camera {
            Some(v) => out.push(DeltaComponentPatch::ReplaceComponent(DeltaReplace::Camera(v))),
            None => out.push(DeltaComponentPatch::RemoveComponent(DeltaRemove::Camera)),
        }
    }
    proof {
        assert(final(out)@ =~= old(out)@ + camera_patch(*b, *a));
    }
}

fn push_player_patch(out: &mut Vec<DeltaComponentPatch>, b: &Components, a: &Components)
    ensures
        final(out)@ == old(out)@ + player_patch(*b, *a),
{
    if b.player != a.player {
        match a.player {
            Some(v) => out.push(DeltaComponentPatch::ReplaceComponent(DeltaReplace::Player(v))),
            None => out.push(DeltaComponentPatch::RemoveComponent(DeltaRemove::Player)),
        }
    }
    proof {
        assert(final(out)@ =~= old(out)@ + player_patch(*b, *a));
    }
}

fn push_bullet_patch(out: &mut Vec<DeltaComponentPatch>, b: &Components, a: &Components)
    ensures
        final(out)@ == old(out)@ + bullet_patch(*b, *a),
{
    if b.bullet != a.bullet {
        match a.bullet {
            Some(v) => out.push(DeltaComponentPatch::ReplaceComponent(DeltaReplace::Bullet(v))),
            None => out.push(DeltaComponentPatch::RemoveComponent(DeltaRemove::Bullet)),
        }
    }
    proof {
        assert(final(out)@ =~= old(out)@ + bullet_patch(*b, *a));
    }
}

/// The patches that bring `before` up to date with `after`; `before` is `None`
/// when the entity did not exist yet.
pub fn patches_for_components(before: Option<&Components>, after: &Components) -> (r: Vec<
    DeltaComponentPatch,
>)
    ensures
        r@ == component_patches(
            match before {
                Some(b) => *b,
                None => Components::spec_empty(),
            },
            *after,
        ),
{
    let b = match before {
        Some(b) => *b,
        None => Components::empty(),
    };
    let mut out: Vec<DeltaComponentPatch> = Vec::new();
    push_position_patch(&mut out, &b, after);
    push_rotation_patch(&mut out, &b, after);
    push_velocity_patch(&mut out, &b, after);
    push_health_patch(&mut out, &b, after);
    push_camera_patch(&mut out, &b, after);
    push_player_patch(&mut out, &b, after);
    push_bullet_patch(&mut out, &b, after);
    proof {
        assert(Seq::<DeltaComponentPatch>::empty() + position_patch(b, *after) =~= position_patch(b, *after));
    }
    out
}

fn apply_one(c: &mut Components, p: DeltaComponentPatch)
    ensures
        *final(c) == apply_patch(*old(c), p),
{
    match p {
        DeltaComponentPatch::DiffComponent(d) => match d {
            DeltaDiff::Position(v) => {
                let cur = match c.position {
                    Some(x) => x,
                    None => Position::default_value(),
                };
                c.position = Some(cur.add(v));
            },
            DeltaDiff::Rotation(v) => {
                let cur = match c.rotation {
                    Some(x) => x,
                    None => Rotation::default_value(),
                };
                c.rotation = Some(cur.add(v));
            },
            DeltaDiff::Velocity(v) => {
                let cur = match c.velocity {
                    Some(x) => x,
                    None => Velocity::default_value(),
                };
                c.velocity = Some(cur.add(v));
            },
            DeltaDiff::Health(v) => {
                let cur = match c.health {
                    Some(x) => x,
                    None => Health::default_value(),
                };
                c.health = Some(cur.add(v));
            },
        },
        DeltaComponentPatch::ReplaceComponent(r) => match r {
            DeltaReplace::Camera(v) => c.camera = Some(v),
            DeltaReplace::Player(v) => c.player = Some(v),
            DeltaReplace::Bullet(v) => c.bullet = Some(v),
        },
        DeltaComponentPatch::RemoveComponent(r) => match r {
            DeltaRemove::Position => c.position = None,
            DeltaRemove::Rotation => c.rotation = None,
            DeltaRemove::Velocity => c.velocity = None,
            DeltaRemove::Camera => c.camera = None,
            DeltaRemove::Player => c.player = None,
            DeltaRemove::Bullet => c.bullet = None,
            DeltaRemove::Health => c.health = None,
        },
    }
}

/// Applies `patches` to `c` in order.
pub fn apply_component_patches(c: &mut Components, patches: &Vec<DeltaComponentPatch>)
    ensures
        *final(c) == apply_patches(*old(c), patches@),
{
    let ghost c0 = *c;
    let mut i: usize = 0;
    proof {
        reveal(apply_patches);
        assert(patches@.take(0) =~= Seq::<DeltaComponentPatch>::empty());
    }
    while i < patches.len()
        invariant
            i <= patches@.len(),
            *c == apply_patches(c0, patches@.take(i as int)),
        decreases patches@.len() - i,
    {
        apply_one(c, patches[i]);
        proof {
            reveal(apply_patches);
            assert(patches@.take(i + 1).drop_last() =~= patches@.take(i as int));
        }
        i = i + 1;
    }
    proof {
        assert(patches@.take(i as int) =~= patches@);
    }
}

/// Builds a new entity from spawn patches.
pub fn build_spawn(patches: &Vec<DeltaComponentPatch>) -> (r: Components)
    ensures
        r == apply_patches(Components::spec_empty(), patches@),
{
    let mut c = Components::empty();
    apply_component_patches(&mut c, patches);
    c
}

} // verus!
