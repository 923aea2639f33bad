use ligero_mini_lab::field::F;

#[test]
fn basic_field_arithmetic() {
    let a = F::new(5);
    let b = F::new(96); // -1 mod 97
    assert_eq!((a + b).as_u32(), 4); // 5 + (-1) = 4
    assert_eq!((a * b).as_u32(), (5 * 96) % F::P);
    let inv = F::new(5).inv();
    assert_eq!((F::new(5) * inv).as_u32(), 1);
}

#[test]
fn new_reduces_modulo_p() {
    assert_eq!(F::new(97).as_u32(), 0);
    assert_eq!(F::new(200).as_u32(), 6);
    assert_eq!(F::new(u32::MAX).as_u32(), u32::MAX % 97);
    assert_eq!(F::from(98), F::new(1));
}

#[test]
fn subtraction_wraps_around() {
    assert_eq!(F::new(3).sub(F::new(5)).as_u32(), 95);
    assert_eq!((F::new(5) - F::new(3)).as_u32(), 2);
    assert_eq!((F::new(0) - F::new(1)).as_u32(), 96);
}

#[test]
fn negation_is_additive_inverse() {
    for x in 0..97u32 {
        let a = F::new(x);
        assert_eq!((a + (-a)).as_u32(), 0);
    }
    assert_eq!((-F::new(1)).as_u32(), 96);
    assert_eq!((-F::new(0)).as_u32(), 0);
}

#[test]
fn add_and_mul_exact_values() {
    assert_eq!(F::new(50).add(F::new(60)).as_u32(), 13);
    assert_eq!(F::new(50).mul(F::new(60)).as_u32(), 3000 % 97);
    assert_eq!((F::new(96) * F::new(96)).as_u32(), 1);
}

#[test]
fn inverse_of_every_nonzero_element() {
    for x in 1..97u32 {
        let a = F::new(x);
        let inv = a.inv();
        assert!(inv.as_u32() < 97);
        assert_eq!((a * inv).as_u32(), 1);
    }
    assert_eq!(F::new(5).inv().as_u32(), 39);
    assert_eq!(F::new(1).inv().as_u32(), 1);
    assert_eq!(F::new(96).inv().as_u32(), 96);
}

#[test]
fn division_undoes_multiplication() {
    for x in 0..97u32 {
        for y in 1..97u32 {
            let a = F::new(x);
            let b = F::new(y);
            assert_eq!((a / b) * b, a);
        }
    }
    assert_eq!((F::new(6) / F::new(3)).as_u32(), 2);
    assert_eq!((F::new(1) / F::new(2)).as_u32(), 49);
}

#[test]
fn pow_by_square_and_multiply() {
    assert_eq!(F::new(3).pow(4).as_u32(), 81);
    assert_eq!(F::new(3).pow(5).as_u32(), 243 % 97);
    assert_eq!(F::new(7).pow(0).as_u32(), 1);
    assert_eq!(F::new(0).pow(0).as_u32(), 1);
    assert_eq!(F::new(0).pow(3).as_u32(), 0);
    // Fermat: a^(p-1) = 1 for a != 0
    for x in 1..97u32 {
        assert_eq!(F::new(x).pow(96).as_u32(), 1);
    }
    assert_eq!(F::new(2).pow(u64::MAX).as_u32(), {
        // 2 has order 48 modulo 97; u64::MAX = 15 (mod 48)
        let mut acc = 1u32;
        for _ in 0..(u64::MAX % 48) {
            acc = acc * 2 % 97;
        }
        acc
    });
}
