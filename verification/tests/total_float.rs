use notcraft::total_float::TotalFloat;
use std::collections::hash_map::DefaultHasher;
use std::hash::{Hash, Hasher};

const F32_EQ_SAMPLES: &[f32] = &[
    0.0,
    -0.0,
    1.0,
    -1.0,
    f32::MIN,
    f32::MAX,
    f32::INFINITY,
    f32::NEG_INFINITY,
    f32::NAN,
    -f32::NAN,
];

const F64_EQ_SAMPLES: &[f64] = &[
    0.0,
    -0.0,
    1.0,
    -1.0,
    f64::MIN,
    f64::MAX,
    f64::INFINITY,
    f64::NEG_INFINITY,
    f64::NAN,
    -f64::NAN,
];

fn hash<H: Hash>(value: H) -> u64 {
    let mut hasher = DefaultHasher::new();
    value.hash(&mut hasher);
    hasher.finish()
}

#[test]
fn test_equality_f32() {
    for &number in F32_EQ_SAMPLES.iter() {
        assert_eq!(TotalFloat(number.to_bits()), TotalFloat(number.to_bits()));
    }
}

#[test]
fn test_equality_f64() {
    for &number in F64_EQ_SAMPLES.iter() {
        assert_eq!(TotalFloat(number.to_bits()), TotalFloat(number.to_bits()));
    }
}

#[test]
fn test_hash_f32() {
    for &number in F32_EQ_SAMPLES.iter() {
        assert_eq!(hash(TotalFloat(number.to_bits())), hash(TotalFloat(number.to_bits())));
    }
}

#[test]
fn test_hash_f64() {
    for &number in F64_EQ_SAMPLES.iter() {
        assert_eq!(hash(TotalFloat(number.to_bits())), hash(TotalFloat(number.to_bits())));
    }
}

#[test]
fn zero_and_negative_zero_differ() {
    assert_ne!(TotalFloat(0.0f32.to_bits()), TotalFloat((-0.0f32).to_bits()));
    assert_ne!(TotalFloat(0.0f64.to_bits()), TotalFloat((-0.0f64).to_bits()));
}

#[test]
fn order_follows_float_order_f32() {
    let ordered: &[f32] = &[f32::NEG_INFINITY, f32::MIN, -1.0, -0.0, 0.0, 1.0, f32::MAX, f32::INFINITY];
    for pair in ordered.windows(2) {
        let a = TotalFloat(pair[0].to_bits());
        let b = TotalFloat(pair[1].to_bits());
        assert!(a < b, "{:?} < {:?}", pair[0], pair[1]);
        assert!(
            TotalFloat::<u32>::as_orderable(pair[0].to_bits())
                < TotalFloat::<u32>::as_orderable(pair[1].to_bits())
        );
    }
    // the key of an exact bit pattern
    assert_eq!(TotalFloat::<u32>::as_orderable(1.0f32.to_bits()), 0xbf80_0000);
    assert_eq!(TotalFloat::<u32>::as_orderable((-1.0f32).to_bits()), 0x407f_ffff);
    assert_eq!(
        TotalFloat(1.0f32.to_bits()).partial_cmp(&TotalFloat(1.0f32.to_bits())),
        Some(std::cmp::Ordering::Equal)
    );
}

#[test]
fn order_follows_float_order_f64() {
    let ordered: &[f64] = &[f64::NEG_INFINITY, f64::MIN, -1.0, -0.0, 0.0, 1.0, f64::MAX, f64::INFINITY];
    for pair in ordered.windows(2) {
        let a = TotalFloat(pair[0].to_bits());
        let b = TotalFloat(pair[1].to_bits());
        assert!(a < b, "{:?} < {:?}", pair[0], pair[1]);
    }
    assert_eq!(TotalFloat::<u64>::as_orderable(0.0f64.to_bits()), 0x8000_0000_0000_0000);
    assert_eq!(TotalFloat::<u64>::as_orderable((-0.0f64).to_bits()), 0x7fff_ffff_ffff_ffff);
}
