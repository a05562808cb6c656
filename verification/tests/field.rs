use field_expr::FieldElement;

const P: u64 = 1_000_000_007;
const Q: u64 = 18_446_744_073_709_551_557;

#[test]
fn new_reduces_modulo_the_modulus() {
    assert_eq!(FieldElement::<P>::new(P + 5).value(), 5);
    assert_eq!(FieldElement::<P>::new(P).value(), 0);
    assert_eq!(FieldElement::<7>::new(u64::MAX).value(), u64::MAX % 7);
    assert_eq!(FieldElement::<P>::new(22), FieldElement::<P>::new(P + 22));
}

#[test]
fn zero_is_the_additive_identity() {
    let x = FieldElement::<P>::new(123_456);
    assert_eq!(FieldElement::<P>::zero().value(), 0);
    assert_eq!(x.add(FieldElement::zero()), x);
    assert_eq!(FieldElement::zero().add(x), x);
}

#[test]
fn sum_wraps_at_the_modulus() {
    let a = FieldElement::<P>::new(P - 1);
    let b = FieldElement::<P>::new(3);
    assert_eq!(a.add(b).value(), 2);
    let c = FieldElement::<Q>::new(12_345_678_901_234_567_890);
    assert_eq!(c.add(c).value(), 6_244_613_728_759_584_223);
}

#[test]
fn difference_wraps_below_zero() {
    let a = FieldElement::<P>::new(7);
    let b = FieldElement::<P>::new(10);
    assert_eq!(a.sub(b).value(), 1_000_000_004);
    assert_eq!(b.sub(a).value(), 3);
    assert_eq!(a.sub(a).value(), 0);
    let c = FieldElement::<Q>::new(12_345_678_901_234_567_890);
    assert_eq!(FieldElement::<Q>::new(5).sub(c).value(), 6_101_065_172_474_983_672);
}

#[test]
fn product_of_large_residues() {
    let a = FieldElement::<Q>::new(Q - 1);
    let b = FieldElement::<Q>::new(Q - 2);
    assert_eq!(a.mul(b).value(), 2);
    let c = FieldElement::<Q>::new(12_345_678_901_234_567_890);
    assert_eq!(c.mul(c).value(), 1_241_211_485_446_974_297);
}

#[test]
fn inverse_modulo_a_prime() {
    let three = FieldElement::<P>::new(3);
    let inverse = three.try_inv().unwrap();
    assert_eq!(inverse.value(), 333_333_336);
    assert_eq!(three.mul(inverse).value(), 1);
    let c = FieldElement::<Q>::new(12_345_678_901_234_567_890);
    assert_eq!(c.try_inv().unwrap().value(), 14_220_650_772_667_176_576);
    assert_eq!(FieldElement::<P>::new(1).try_inv().unwrap().value(), 1);
}

#[test]
fn zero_has_no_inverse() {
    assert_eq!(FieldElement::<P>::zero().try_inv(), None);
    assert_eq!(FieldElement::<Q>::zero().try_inv(), None);
    assert_eq!(FieldElement::<2>::zero().try_inv(), None);
}

#[test]
fn inverse_modulo_a_composite() {
    assert_eq!(FieldElement::<6>::new(5).try_inv().unwrap().value(), 5);
    assert_eq!(FieldElement::<6>::new(1).try_inv().unwrap().value(), 1);
    assert_eq!(FieldElement::<6>::new(2).try_inv(), None);
    assert_eq!(FieldElement::<6>::new(3).try_inv(), None);
    assert_eq!(FieldElement::<6>::new(4).try_inv(), None);
    assert_eq!(FieldElement::<9>::new(6).try_inv(), None);
    assert_eq!(FieldElement::<9>::new(2).try_inv().unwrap().value(), 5);
}

#[test]
fn the_ring_of_one_element() {
    let only = FieldElement::<1>::new(17);
    assert_eq!(only.value(), 0);
    assert_eq!(only.add(only).value(), 0);
    assert_eq!(only.mul(only).value(), 0);
    assert_eq!(only.powu(0).value(), 0);
    assert_eq!(only.try_inv(), None);
}

#[test]
fn every_inverse_modulo_a_small_prime() {
    for a in 1..101u64 {
        let x = FieldElement::<101>::new(a);
        let inverse = x.try_inv().unwrap();
        assert_eq!(x.mul(inverse).value(), 1);
    }
}

#[test]
fn power_by_squaring() {
    let three = FieldElement::<P>::new(3);
    assert_eq!(three.powu(0).value(), 1);
    assert_eq!(three.powu(1).value(), 3);
    assert_eq!(three.powu(4).value(), 81);
    assert_eq!(three.powu(200).value(), 136_318_165);
    assert_eq!(FieldElement::<P>::new(2).powu(200).value(), 499_445_072);
    assert_eq!(FieldElement::<P>::zero().powu(0).value(), 1);
    assert_eq!(FieldElement::<P>::zero().powu(5).value(), 0);
    let c = FieldElement::<Q>::new(12_345_678_901_234_567_890);
    assert_eq!(c.powu(9_876_543_210_987_654_321).value(), 3_148_988_572_257_163_722);
}

#[test]
fn power_agrees_with_repeated_product() {
    let x = FieldElement::<101>::new(7);
    let mut product = FieldElement::<101>::new(1);
    for e in 0..50u64 {
        assert_eq!(x.powu(e), product);
        product = product.mul(x);
    }
}
