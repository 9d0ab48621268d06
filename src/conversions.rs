use vstd::prelude::*;

use crate::types::{imicros_of, Num};

verus! {

/// The value of `num` in millionths, rounded toward zero.
pub fn num_to_imicros(num: Num) -> (r: i64)
    ensures
        r == imicros_of(num.bits as int),
{
    let bits = num.bits as i64;
    let numer: i64 = 1_000_000;
    let denom: i64 = 0x10_0000;
    let scaled = bits * numer;
    if scaled >= 0 {
        scaled / denom
    } else {
        let pos = -scaled;
        -(pos / denom)
    }
}

/// The value of `num` in millionths, or `None` when that is negative.
pub fn num_to_umicros(num: Num) -> (r: Option<u64>)
    ensures
        imicros_of(num.bits as int) >= 0 ==> r == Some(imicros_of(num.bits as int) as u64),
        imicros_of(num.bits as int) < 0 ==> r is None,
{
    let imicros = num_to_imicros(num);
    if imicros >= 0 {
        Some(imicros as u64)
    } else {
        None
    }
}

/// The value of a non-negative `num` in millionths.
pub fn num_to_umicros_cast(num: Num) -> (r: u64)
    requires
        imicros_of(num.bits as int) >= 0,
    ensures
        r == imicros_of(num.bits as int),
{
    match num_to_umicros(num) {
        Some(x) => x,
        None => 0,
    }
}

} // verus!
