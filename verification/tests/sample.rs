use monte_carlo::sample::{inside_quarter_disk, Sample};
use monte_carlo::xorshift::Xorshift64;

const ONE: u128 = 1 << 64;
const TWO_POW_64: f64 = 18446744073709551616.0;

fn float_value(state: u64) -> f64 {
    (state as f64) / (u64::MAX as f64)
}

fn float_test(sx: u64, sy: u64) -> bool {
    let x = float_value(sx);
    let y = float_value(sy);
    x * x + y * y <= 1.0
}

fn agrees_with_floats(sx: u64, sy: u64) {
    let x = Sample::from_state(sx);
    let y = Sample::from_state(sy);
    assert_eq!(
        (x.numerator() as f64 / TWO_POW_64).to_bits(),
        float_value(sx).to_bits(),
        "state {sx:#x}"
    );
    assert_eq!(inside_quarter_disk(x, y), float_test(sx, sy), "states {sx:#x}, {sy:#x}");
    assert_eq!(inside_quarter_disk(y, x), float_test(sy, sx), "states {sy:#x}, {sx:#x}");
}

const EDGE_STATES: [u64; 31] = [
    0,
    1,
    2,
    3,
    (1 << 26) - 1,
    1 << 26,
    (1 << 26) + 1,
    (1 << 27) + 1,
    1 << 37,
    (1 << 37) + 1,
    0x002D_413C_CCFE,
    0x002D_413C_CCFF,
    1 << 38,
    (1 << 53) - 1,
    1 << 53,
    (1 << 53) + 1,
    (1 << 53) + 3,
    (1 << 54) + 2,
    (1 << 54) + 6,
    1 << 63,
    (1 << 63) + 1024,
    (1 << 63) + 1025,
    (1 << 63) + 3072,
    0xB504_F333_F9DE_6000,
    0xB504_F333_F9DE_6800,
    0xFFFF_FFFF_FFFF_F400,
    0xFFFF_FFFF_FFFF_F800,
    0xFFFF_FFFF_FFFF_FBFF,
    0xFFFF_FFFF_FFFF_FC00,
    u64::MAX - 1,
    u64::MAX,
];

#[test]
fn zero_state_is_zero() {
    assert_eq!(Sample::from_state(0).numerator(), 0);
}

#[test]
fn small_states_keep_every_bit() {
    for s in [1u64, 2, 3, 45454805674, (1 << 53) - 1, 1 << 53] {
        assert_eq!(Sample::from_state(s).numerator(), s as u128);
    }
}

#[test]
fn large_states_lose_their_low_bits() {
    assert_eq!(Sample::from_state(11532217803599905471).numerator(), 11532217803599904768);
    assert_eq!(Sample::from_state(2899061411254629736).numerator(), 2899061411254629888);
    assert_eq!(Sample::from_state((1 << 63) + 1024).numerator(), 1 << 63);
    assert_eq!(Sample::from_state((1 << 63) + 1025).numerator(), (1 << 63) + 2048);
    assert_eq!(Sample::from_state((1 << 63) + 3072).numerator(), (1 << 63) + 4096);
}

#[test]
fn only_the_largest_states_reach_one() {
    assert_eq!(Sample::from_state(u64::MAX).numerator(), ONE);
    assert_eq!(Sample::from_state(0xFFFF_FFFF_FFFF_FC00).numerator(), ONE);
    assert_eq!(Sample::from_state(0xFFFF_FFFF_FFFF_FBFF).numerator(), ONE - 2048);
    assert_eq!(float_value(u64::MAX), 1.0);
    assert!(float_value(0xFFFF_FFFF_FFFF_FBFF) < 1.0);
}

#[test]
fn numerator_never_exceeds_one() {
    let mut rng = Xorshift64::new(3);
    for _ in 0..10_000 {
        assert!(rng.next_sample().numerator() <= ONE);
    }
    for s in EDGE_STATES {
        assert!(Sample::from_state(s).numerator() <= ONE);
    }
}

#[test]
fn origin_is_inside() {
    let zero = Sample::from_state(0);
    assert!(inside_quarter_disk(zero, zero));
}

#[test]
fn corners_of_the_square() {
    let zero = Sample::from_state(0);
    let one = Sample::from_state(u64::MAX);
    assert!(inside_quarter_disk(one, zero));
    assert!(inside_quarter_disk(zero, one));
    assert!(!inside_quarter_disk(one, one));
}

#[test]
fn beside_one_a_small_coordinate_is_absorbed() {
    let one = Sample::from_state(u64::MAX);
    let absorbed = Sample::from_state(1 << 37);
    let largest_absorbed = Sample::from_state(0x002D_413C_CCFE);
    let smallest_felt = Sample::from_state(0x002D_413C_CCFF);
    let felt = Sample::from_state(1 << 38);
    assert!(inside_quarter_disk(one, absorbed));
    assert!(inside_quarter_disk(absorbed, one));
    assert!(inside_quarter_disk(one, largest_absorbed));
    assert!(!inside_quarter_disk(one, smallest_felt));
    assert!(!inside_quarter_disk(one, felt));
    assert!(!inside_quarter_disk(felt, one));
}

#[test]
fn diagonal_crossing() {
    let inside = 0xB504_F333_F9DE_6000u64;
    let outside = 0xB504_F333_F9DE_7000u64;
    assert!(inside_quarter_disk(Sample::from_state(inside), Sample::from_state(inside)));
    assert!(!inside_quarter_disk(Sample::from_state(outside), Sample::from_state(outside)));
    agrees_with_floats(inside, inside);
    agrees_with_floats(outside, outside);
}

#[test]
fn first_pairs_of_seed_42() {
    let mut rng = Xorshift64::new(42);
    for _ in 0..5 {
        let x = rng.next_sample();
        let y = rng.next_sample();
        assert!(inside_quarter_disk(x, y));
    }
}

#[test]
fn agrees_with_floats_on_edge_states() {
    for sx in EDGE_STATES {
        for sy in EDGE_STATES {
            agrees_with_floats(sx, sy);
        }
    }
}

#[test]
fn agrees_with_floats_on_scattered_states() {
    let mut rng = Xorshift64::new(0xdead_beef_cafe_f00d);
    for _ in 0..100_000 {
        let sx = rng.next_u64() >> (rng.next_u64() % 64);
        let sy = rng.next_u64() >> (rng.next_u64() % 64);
        agrees_with_floats(sx, sy);
    }
}

#[test]
fn agrees_with_floats_along_the_arc() {
    let mut rng = Xorshift64::new(2024);
    for _ in 0..100_000 {
        let sx = rng.next_u64();
        let x = float_value(sx);
        let y = (1.0 - x * x).max(0.0).sqrt();
        let centre = (y * TWO_POW_64) as u64;
        let offset = rng.next_u64() % 8192;
        agrees_with_floats(sx, centre.saturating_add(offset));
        agrees_with_floats(sx, centre.saturating_sub(offset));
    }
}
