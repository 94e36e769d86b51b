use wmms::entity::EntityRunIdGen;
use wmms::hash::{hash128, hash64, hash_str128, hash_str64};
use wmms::ids::{AspectId, EntityInstId, TraitId};
use wmms::num::Q16_16;
use wmms::rng::DetRng;
use wmms::time::{Tick, TickDelta, TickRate};

#[test]
fn hashing_is_deterministic_and_tagged() {
    assert_eq!(hash128(b"abc").0, hash128(b"abc").0);
    assert_ne!(hash128(b"abc").0, hash128(b"abd").0);
    assert_eq!(hash_str128("abc").0, hash128(b"abc").0);
    assert_eq!(hash64(b"abc").0, hash64(b"abc").0);
    // the type tag keeps identifiers of different kinds apart
    assert_ne!(AspectId::new("fire").0.0, TraitId::new("fire").0.0);
    assert_eq!(AspectId::new("fire"), AspectId::new("fire"));
}

#[test]
fn inst_id_packs_seed_and_counter() {
    let id = EntityInstId::from_seed_counter(7, 42);
    assert_eq!(id.session_seed(), 7);
    assert_eq!(id.counter(), 42);
}

#[test]
fn run_id_generator_is_sequential() {
    let mut g = EntityRunIdGen::new(9);
    let a = g.allocate();
    let b = g.allocate();
    assert_eq!(a.session_seed(), 9);
    assert_eq!(a.counter(), 0);
    assert_eq!(b.counter(), 1);
    assert_eq!(g.next_counter(), 2);
    g.set_next_counter(10);
    assert_eq!(g.allocate().counter(), 10);
}

#[test]
fn fixed_point_arithmetic() {
    let two = Q16_16::from_i32(2);
    let three = Q16_16::from_i32(3);
    assert_eq!(two.add(three).0, Q16_16::from_i32(5).0);
    assert_eq!(three.sub(two).0, Q16_16::from_i32(1).0);
    assert_eq!(two.mul(three).0, Q16_16::from_i32(6).0);
    let q = Q16_16::from_i32(6).div(Q16_16::from_i32(2)).unwrap();
    assert_eq!(q.0, Q16_16::from_i32(3).0);
    assert!(Q16_16::from_i32(1).div(wmms::num::FixedU32::<16>(0)).is_err());
    // saturation instead of wrap
    assert_eq!(Q16_16::from_i32(100_000).0, i32::MAX);
    assert_eq!(Q16_16::from_i32(-100_000).0, i32::MIN);
    let big = Q16_16::from_i32(30_000);
    assert_eq!(big.add(big).0, i32::MAX);
    // negative division truncates toward zero
    let m3 = Q16_16::from_i32(-3);
    let q2 = m3.div(Q16_16::from_i32(2)).unwrap();
    assert_eq!(q2.0, -(3 << 16) / 2);
}

#[test]
fn tick_arithmetic_checks_overflow() {
    let t = Tick(10);
    assert_eq!(t.checked_add(TickDelta(5)).unwrap(), Tick(15));
    assert!(Tick(u64::MAX).checked_add(TickDelta(1)).is_err());
}

#[test]
fn tick_rate_rounds_to_nearest() {
    let rate = TickRate { ticks_per_second: 2 };
    // 0.75 s at 2 ticks/s rounds to 2 ticks
    assert_eq!(rate.duration_to_ticks(750_000_000).0, 2);
    // 0.2 s at 2 ticks/s rounds to 0 ticks
    assert_eq!(rate.duration_to_ticks(200_000_000).0, 0);
    assert_eq!(rate.ticks_to_duration_nanos(TickDelta(3)), 1_500_000_000);
}

#[test]
fn rng_is_deterministic_per_seed() {
    let mut a = DetRng::from_seed_u64(42);
    let mut b = DetRng::from_seed_u64(42);
    assert_eq!(a.next_u64(), b.next_u64());
    assert_eq!(a.next_u32(), b.next_u32());
    let mut c = a.split(7);
    let mut d = b.split(7);
    assert_eq!(c.next_u64(), d.next_u64());
}

#[test]
fn str_hashes_match_byte_hashes() {
    assert_eq!(hash_str64("abc").0, hash64(b"abc").0);
    assert_ne!(hash_str64("abc").0, hash_str64("abd").0);
}

#[test]
fn fixed_point_fractional_products_floor() {
    // one half times one half is one quarter
    let half = wmms::num::FixedU32::<16>(1 << 15);
    assert_eq!(half.mul(half).0, 1 << 14);
    // minus one times one half floors toward negative infinity
    let minus_one = Q16_16::from_i32(-1);
    assert_eq!(minus_one.mul(half).0, -(1 << 15));
}
