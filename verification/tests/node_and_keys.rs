use wgsl_toy::node::{Node, LEAF_FLAG};
use wgsl_toy::order_key::{bits_from_key, less_than, order_key};

#[test]
fn leaf_flag_roundtrip() {
    let lo = [1.0f32.to_bits(); 3];
    let hi = [2.0f32.to_bits(); 3];
    let leaf = Node::make_leaf(lo, hi, 1234, 3);
    assert!(leaf.is_leaf());
    assert_eq!(leaf.first_triangle(), 1234);
    assert_eq!(leaf.tri_count, 3);
    assert_eq!(leaf.left_first, 1234 | 0x8000_0000);
    assert_eq!(leaf.bound_min, lo);
    assert_eq!(leaf.bound_max, hi);
}

#[test]
fn internal_node_is_not_leaf() {
    let lo = [0u32; 3];
    let node = Node::make_internal(lo, lo, 1, 7);
    assert!(!node.is_leaf());
    assert_eq!(node.left_first, 1);
    assert_eq!(node.tri_count, 7);
    // a child index with the top bit set cannot be told from a leaf
    let odd = Node::make_internal(lo, lo, LEAF_FLAG, 7);
    assert!(odd.is_leaf());
}

#[test]
fn order_key_sorts_like_floats() {
    let values: Vec<f32> = vec![
        f32::NEG_INFINITY,
        -f32::MAX,
        -1.5e10,
        -3.0,
        -1.0,
        -1e-30,
        0.0,
        1e-40,
        1e-30,
        0.5,
        1.0,
        2.0,
        1e20,
        f32::MAX,
        f32::INFINITY,
    ];
    for i in 0..values.len() {
        for j in 0..values.len() {
            let ki = order_key(values[i].to_bits());
            let kj = order_key(values[j].to_bits());
            assert_eq!(values[i] < values[j], ki < kj, "{} vs {}", values[i], values[j]);
        }
    }
}

#[test]
fn order_key_is_invertible() {
    for bits in [0u32, 1, 0x7f80_0000, 0x8000_0000, 0xff80_0000, 0x3f80_0000, 0xbf80_0000, u32::MAX, 0x1234_5678] {
        assert_eq!(bits_from_key(order_key(bits)), bits);
        assert_eq!(order_key(bits_from_key(bits)), bits);
    }
    assert_eq!(order_key(f32::INFINITY.to_bits()), 0xff80_0000);
    assert_eq!(order_key(f32::NEG_INFINITY.to_bits()), 0x007f_ffff);
    assert_eq!(order_key(0), 0x8000_0000);
}

#[test]
fn less_than_is_ieee_less_than() {
    let values: Vec<f32> = vec![
        f32::NEG_INFINITY,
        -2.0,
        -1e-40,
        -0.0,
        0.0,
        1e-40,
        3.5,
        f32::INFINITY,
        f32::NAN,
        -f32::NAN,
        f32::from_bits(0x7f80_0001),
        f32::from_bits(0xffc0_1234),
    ];
    for &a in &values {
        for &b in &values {
            assert_eq!(less_than(a.to_bits(), b.to_bits()), a < b, "{:?} < {:?}", a, b);
        }
    }
}
