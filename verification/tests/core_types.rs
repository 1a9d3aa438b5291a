use boolean_chains::bit_set::BitSet as SparseBitSet;
use boolean_chains::bit_set_fast::BitSet as PackedBitSet;
use boolean_chains::expression::Expression;
use boolean_chains::function::{Function, NUM_FUNCTIONS, TAUTOLOGY};
use boolean_chains::text::expression_to_str;

#[test]
fn function_new_masks_to_table_range() {
    assert_eq!(Function::new(0xffff).0, 0xffff);
    assert_eq!(Function::new(0x12345).0, 0x2345);
    assert_eq!(Function::new(!0u32).0, TAUTOLOGY);
    assert_eq!(Function::new(0).0, 0);
    assert_eq!(Function::new(0b1010).index(), 10);
    assert_eq!(NUM_FUNCTIONS, 0x10000);
}

#[test]
fn expression_evaluate_applies_each_operator() {
    let a = Function::new(0b1010);
    let b = Function::new(0b1100);
    assert_eq!(Expression::Constant(a).evaluate(), a);
    assert_eq!(Expression::And(a, b).evaluate(), Function::new(0b1000));
    assert_eq!(Expression::Or(a, b).evaluate(), Function::new(0b1110));
    assert_eq!(Expression::Xor(a, b).evaluate(), Function::new(0b0110));
    // ButNot(g, h) is g AND NOT h; NotBut(g, h) is NOT g AND h.
    assert_eq!(Expression::ButNot(a, b).evaluate(), Function::new(0b0010));
    assert_eq!(Expression::NotBut(a, b).evaluate(), Function::new(0b0100));
}

#[test]
fn expression_evaluate_masks_complements() {
    let a = Function::new(0xffff);
    let zero = Function::new(0);
    // NOT of the tautology stays within the 16-bit table range.
    assert_eq!(Expression::NotBut(a, a).evaluate(), zero);
    assert_eq!(Expression::ButNot(a, zero).evaluate(), a);
    assert_eq!(Expression::NotBut(zero, a).evaluate(), a);
}

#[test]
fn sparse_bitset_insert_get_union_intersect() {
    let mut a = SparseBitSet::new();
    let mut b = SparseBitSet::new();
    assert!(!a.get(0));
    a.insert(3);
    a.insert(100);
    a.insert(3);
    assert!(a.get(3) && a.get(100) && !a.get(99));
    b.insert(100);
    b.insert(7);
    let mut u = a.clone();
    u.add(&b);
    assert!(u.get(3) && u.get(7) && u.get(100) && !u.get(0));
    let mut i = a.clone();
    i.intersect(&b);
    assert!(i.get(100) && !i.get(3) && !i.get(7));
}

#[test]
fn sparse_bitset_disjoint_matches_intersection_emptiness() {
    let mut a = SparseBitSet::new();
    let mut b = SparseBitSet::new();
    a.insert(1);
    a.insert(5);
    b.insert(2);
    b.insert(6);
    assert!(a.is_disjoint(&b));
    let mut i = a.clone();
    i.intersect(&b);
    for bit in 0..64 {
        assert!(!i.get(bit));
    }
    b.insert(5);
    assert!(!a.is_disjoint(&b));
    let mut j = a.clone();
    j.intersect(&b);
    assert!(j.get(5));
}

#[test]
fn sparse_bitset_union_commutative_idempotent() {
    let mut a = SparseBitSet::new();
    let mut b = SparseBitSet::new();
    a.insert(4);
    a.insert(9);
    b.insert(9);
    b.insert(40);
    let mut ab = a.clone();
    ab.add(&b);
    let mut ba = b.clone();
    ba.add(&a);
    let mut aa = a.clone();
    aa.add(&a);
    for bit in 0..64 {
        assert_eq!(ab.get(bit), ba.get(bit));
        assert_eq!(aa.get(bit), a.get(bit));
    }
}

#[test]
fn packed_bitset_insert_get_union_intersect() {
    let mut a = PackedBitSet::new();
    let mut b = PackedBitSet::new();
    assert!(!a.get(0));
    a.insert(3);
    a.insert(100);
    a.insert(3);
    assert!(a.get(3) && a.get(100) && !a.get(99) && !a.get(31) && !a.get(32));
    b.insert(100);
    b.insert(7);
    let mut u = a.clone();
    u.add(&b);
    assert!(u.get(3) && u.get(7) && u.get(100) && !u.get(0));
    let mut i = a.clone();
    i.intersect(&b);
    assert!(i.get(100) && !i.get(3) && !i.get(7));
}

#[test]
fn packed_bitset_disjoint_matches_intersection_emptiness() {
    let mut a = PackedBitSet::new();
    let mut b = PackedBitSet::new();
    a.insert(1);
    a.insert(65);
    b.insert(2);
    b.insert(64);
    assert!(a.is_disjoint(&b));
    let mut i = a.clone();
    i.intersect(&b);
    for bit in 0..128 {
        assert!(!i.get(bit));
    }
    b.insert(65);
    assert!(!a.is_disjoint(&b));
    let mut j = a.clone();
    j.intersect(&b);
    assert!(j.get(65));
}

#[test]
fn packed_bitset_union_commutative_idempotent() {
    let mut a = PackedBitSet::new();
    let mut b = PackedBitSet::new();
    a.insert(4);
    a.insert(90);
    b.insert(90);
    b.insert(33);
    let mut ab = a.clone();
    ab.add(&b);
    let mut ba = b.clone();
    ba.add(&a);
    let mut aa = a.clone();
    aa.add(&a);
    for bit in 0..128 {
        assert_eq!(ab.get(bit), ba.get(bit));
        assert_eq!(aa.get(bit), a.get(bit));
    }
}

#[test]
fn packed_bitset_growth_keeps_earlier_bits() {
    let mut a = PackedBitSet::new();
    a.insert(0);
    a.insert(31);
    a.insert(1000);
    assert!(a.get(0) && a.get(31) && a.get(1000));
    let mut other = PackedBitSet::new();
    other.insert(2000);
    a.add(&other);
    assert!(a.get(0) && a.get(31) && a.get(1000) && a.get(2000));
}

#[test]
fn expression_to_str_renders_tables_and_operator() {
    let a = Function::new(0b1010);
    let b = Function::new(0b1100);
    assert_eq!(
        expression_to_str(&Expression::And(a, b)),
        "0000000000001010 & 0000000000001100"
    );
    assert_eq!(
        expression_to_str(&Expression::NotBut(a, b)),
        "0000000000001010 < 0000000000001100"
    );
    assert_eq!(expression_to_str(&Expression::Constant(a)), "0000000000001010");
}
