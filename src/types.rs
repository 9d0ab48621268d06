use vstd::prelude::*;

verus! {

/// A signed fixed-point number with 12 integer and 20 fractional bits, kept as
/// its two's complement bit pattern. Arithmetic wraps, so the difference of any
/// two values can always be represented and added back.
#[derive(Debug, Clone, Copy, PartialEq, Eq, Structural, Default)]
pub struct Num {
    pub bits: i32,
}

/// Adding back a wrapped difference restores the value.
pub proof fn lemma_i32_diff_round_trip(before: i32, after: i32)
    ensures
        before.wrapping_add(after.wrapping_sub(before)) == after,
{
}

/// Adding back a wrapped difference restores the value.
pub proof fn lemma_i8_diff_round_trip(before: i8, after: i8)
    ensures
        before.wrapping_add(after.wrapping_sub(before)) == after,
{
}

/// Adding back a wrapped difference restores the value.
pub proof fn lemma_u16_diff_round_trip(before: u16, after: u16)
    ensures
        before.wrapping_add(after.wrapping_sub(before)) == after,
{
}

impl Num {
    pub fn from_bits(bits: i32) -> (r: Num)
        ensures
            r.bits == bits,
    {
        Num { bits }
    }

    pub fn wrapping_add(self, o: Num) -> (r: Num)
        ensures
            r.bits == self.bits.wrapping_add(o.bits),
    {
        Num { bits: self.bits.wrapping_add(o.bits) }
    }

    pub fn wrapping_sub(self, o: Num) -> (r: Num)
        ensures
            r.bits == self.bits.wrapping_sub(o.bits),
    {
        Num { bits: self.bits.wrapping_sub(o.bits) }
    }
}

/// A two-dimensional vector of [`Num`].
#[derive(Debug, Clone, Copy, PartialEq, Eq, Structural, Default)]
pub struct V2 {
    pub x: Num,
    pub y: Num,
}

impl V2 {
    pub fn wrapping_add(self, o: V2) -> (r: V2)
        ensures
            r.x.bits == self.x.bits.wrapping_add(o.x.bits),
            r.y.bits == self.y.bits.wrapping_add(o.y.bits),
    {
        V2 { x: self.x.wrapping_add(o.x), y: self.y.wrapping_add(o.y) }
    }

    pub fn wrapping_sub(self, o: V2) -> (r: V2)
        ensures
            r.x.bits == self.x.bits.wrapping_sub(o.x.bits),
            r.y.bits == self.y.bits.wrapping_sub(o.y.bits),
    {
        V2 { x: self.x.wrapping_sub(o.x), y: self.y.wrapping_sub(o.y) }
    }
}

/// Draw depth; arithmetic on it wraps.
#[derive(Debug, Clone, Copy, PartialEq, Eq, Structural, Default)]
pub struct Zed {
    pub value: i8,
}

pub fn mk_zed(zed: i8) -> (r: Zed)
    ensures
        r.value == zed,
{
    Zed { value: zed }
}

/// `bits * 1_000_000 / 2^20`, rounded toward zero: a [`Num`] in millionths.
pub open spec fn imicros_of(bits: int) -> int {
    let scaled = bits * 1_000_000;
    if scaled >= 0 {
        scaled / 0x10_0000
    } else {
        -((-scaled) / 0x10_0000)
    }
}

/// Bit pattern of the simulation step, one sixtieth of a unit.
pub const TICK_RATE_BITS: i32 = 17476;

/// The simulation step as a [`Num`].
pub fn tick_rate() -> (r: Num)
    ensures
        r.bits == TICK_RATE_BITS,
{
    Num { bits: TICK_RATE_BITS }
}

/// The simulation step in microseconds.
pub fn tick_duration_micros() -> (r: u64)
    ensures
        r == imicros_of(TICK_RATE_BITS as int),
{
    crate::conversions::num_to_umicros_cast(tick_rate())
}

} // verus!
