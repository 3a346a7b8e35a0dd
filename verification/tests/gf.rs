use mazecode::gf::{add, generator_polynomial, get_generator_polynomial, mul, pow, remainder};

#[test]
fn add_is_xor() {
    assert_eq!(add(0, 0), 0);
    assert_eq!(add(0x12, 0x34), 0x26);
    assert_eq!(add(0xff, 0xff), 0);
}

#[test]
fn add_identity() {
    for a in 0u8..=255 {
        assert_eq!(add(a, 0), a);
        assert_eq!(add(0, a), a);
    }
}

#[test]
fn add_is_its_own_inverse() {
    for a in 0u8..=255 {
        assert_eq!(add(a, a), 0);
    }
}

#[test]
fn multiplication_identity() {
    for a in 0u8..=255 {
        assert_eq!(mul(a, 1), a);
        assert_eq!(mul(1, a), a);
    }
}

#[test]
fn multiplication_by_zero() {
    for a in 0u8..=255 {
        assert_eq!(mul(a, 0), 0);
        assert_eq!(mul(0, a), 0);
    }
}

#[test]
fn multiplication_is_commutative() {
    for a in 0u8..=255 {
        for b in 0u8..=255 {
            assert_eq!(mul(a, b), mul(b, a));
        }
    }
}

#[test]
fn multiplication_is_distributive() {
    for a in 0u8..32 {
        for b in 0u8..32 {
            for c in 0u8..32 {
                assert_eq!(mul(a, add(b, c)), add(mul(a, b), mul(a, c)));
            }
        }
    }
}

#[test]
fn powers() {
    for a in 0u8..=255 {
        assert_eq!(pow(a, 0), 1);
        assert_eq!(pow(a, 1), a);
        assert_eq!(pow(a, 2), mul(a, a));
        assert_eq!(pow(a, 3), mul(mul(a, a), a));
    }
}

#[test]
fn nonzero_elements_have_order_255() {
    for a in 1u8..=255 {
        assert_eq!(pow(a, 255), 1);
    }
}

#[test]
fn generator_polynomial_has_correct_shape() {
    let g = generator_polynomial::<17>();

    assert_eq!(g.len(), 17);
    assert_eq!(g[0], 1);
}

#[test]
fn get_generator_polynomial_matches_const_version() {
    assert_eq!(get_generator_polynomial(16), generator_polynomial::<17>().to_vec());

    assert_eq!(get_generator_polynomial(30), generator_polynomial::<31>().to_vec());
}

#[test]
fn remainder_of_zero_is_zero() {
    let divisor = generator_polynomial::<17>();

    let rem = remainder(&[0; 32], &divisor);

    assert_eq!(rem, vec![0; 16]);
}

#[test]
fn remainder_has_correct_length() {
    let divisor = generator_polynomial::<17>();

    let rem = remainder(&[1, 2, 3, 4, 5], &divisor);

    assert_eq!(rem.len(), divisor.len() - 1);
}

#[test]
fn remainder_of_zero_polynomial_is_zero() {
    let g = generator_polynomial::<17>();

    let rem = remainder(&[0; 32], &g);

    assert_eq!(rem, vec![0; 16]);
}

#[test]
fn remainder_has_expected_degree() {
    let g = generator_polynomial::<17>();

    let rem = remainder(&[1, 2, 3, 4, 5], &g);

    assert_eq!(rem.len(), g.len() - 1);
}

#[test]
fn codeword_has_zero_remainder() {
    let g = generator_polynomial::<17>();

    let message = [1, 2, 3, 4, 5, 6, 7, 8];

    let rem = remainder(&message, &g);

    let mut codeword = message.to_vec();
    codeword.extend_from_slice(&rem);

    assert_eq!(remainder(&codeword, &g), vec![0; g.len() - 1]);
}

#[test]
fn empty_message_has_zero_remainder() {
    let g = generator_polynomial::<17>();

    assert_eq!(remainder(&[], &g), vec![0; 16]);
}

#[test]
fn different_messages_produce_different_remainders() {
    let g = generator_polynomial::<17>();

    let r1 = remainder(&[1, 2, 3, 4], &g);
    let r2 = remainder(&[1, 2, 3, 5], &g);

    assert_ne!(r1, r2);
}

fn eval(p: &[u8], z: u8) -> u8 {
    p.iter().fold(0, |acc, &c| add(mul(acc, z), c))
}

#[test]
fn multiplication_is_associative() {
    for a in (0u8..=255).step_by(7) {
        for b in (0u8..=255).step_by(11) {
            for c in [0u8, 1, 2, 3, 29, 128, 255] {
                assert_eq!(mul(mul(a, b), c), mul(a, mul(b, c)));
            }
        }
    }
}

#[test]
fn nonzero_elements_have_inverses() {
    for a in 1u8..=255 {
        assert_eq!(mul(a, pow(a, 254)), 1);
    }
}

#[test]
fn powers_add_exponents() {
    for b in [2u8, 3, 29, 200] {
        for m in 0..20 {
            for n in 0..20 {
                assert_eq!(pow(b, m + n), mul(pow(b, m), pow(b, n)));
            }
        }
    }
}

#[test]
fn generator_polynomial_vanishes_at_consecutive_powers_of_two() {
    let g = generator_polynomial::<17>();
    assert_eq!(g[0], 1);
    for j in 0..16 {
        assert_eq!(eval(&g, pow(2, j)), 0);
    }
    assert_ne!(eval(&g, pow(2, 16)), 0);
}

#[test]
fn generator_polynomial_coefficients() {
    let g = generator_polynomial::<18>();
    assert_eq!(
        g.to_vec(),
        vec![1, 119, 66, 83, 120, 119, 22, 197, 83, 249, 41, 143, 134, 85, 53, 125, 99, 79]
    );
}

#[test]
fn remainder_of_codeword_of_supported_degrees_is_zero() {
    for r in [16usize, 22, 28, 30] {
        let g = get_generator_polynomial(r);
        let message: Vec<u8> = (0..20u8).map(|i| i.wrapping_mul(13).wrapping_add(7)).collect();
        let mut codeword = message.clone();
        codeword.extend(remainder(&message, &g));
        assert_eq!(remainder(&codeword, &g), vec![0; r]);
    }
}

#[test]
fn remainder_is_additive() {
    let g = generator_polynomial::<17>();
    let a: Vec<u8> = (0..30u8).map(|i| i.wrapping_mul(31).wrapping_add(5)).collect();
    let b: Vec<u8> = (0..30u8).map(|i| i.wrapping_mul(77) ^ 0x5a).collect();
    let sum: Vec<u8> = a.iter().zip(&b).map(|(&x, &y)| add(x, y)).collect();
    let ra = remainder(&a, &g);
    let rb = remainder(&b, &g);
    let expected: Vec<u8> = ra.iter().zip(&rb).map(|(&x, &y)| add(x, y)).collect();
    assert_eq!(remainder(&sum, &g), expected);
}
