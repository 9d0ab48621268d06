use archive_engine::conversions;
use archive_engine::types::{mk_zed, tick_duration_micros, Num};
use fixed::types::I12F20;

fn mk_num(v: f64) -> Num {
    Num::from_bits(I12F20::from_num(v).to_bits())
}

#[test]
fn num_micros() {
    let num = mk_num(0.5);
    assert_eq!(conversions::num_to_umicros(num), Some(500_000));
}

#[test]
fn negative_num_has_no_unsigned_micros() {
    assert_eq!(conversions::num_to_umicros(mk_num(-0.5)), None);
    assert_eq!(conversions::num_to_imicros(mk_num(-0.5)), -500_000);
    // rounds toward zero
    assert_eq!(conversions::num_to_imicros(Num::from_bits(-1)), 0);
}

#[test]
fn tick_is_a_sixtieth() {
    assert_eq!(tick_duration_micros(), 16_666);
}

#[test]
fn wrapping_arithmetic_round_trips() {
    let a = Num::from_bits(i32::MAX);
    let b = Num::from_bits(i32::MIN);
    let d = b.wrapping_sub(a);
    assert_eq!(d.bits, 1);
    assert_eq!(a.wrapping_add(d), b);
    assert_eq!(mk_zed(-3).value, -3);
}
