use num_bigint::BigUint;
use rabin_williams::errors::RabinWilliamsError;
use rabin_williams::utils::{
    chinese_remainder_theorem, is_quadratic_residue, make_quadratic_residue, mod_inverse, mod_sqrt,
    try_make_quadratic_residue,
};

fn big(v: u64) -> BigUint {
    BigUint::from(v)
}

#[test]
fn test_mod_sqrt() {
    // Test case where p ≡ 3 (mod 4)
    let p = BigUint::from(7u32);
    let a = BigUint::from(2u32);
    let sqrt = mod_sqrt(&a, &p).unwrap();
    assert_eq!((&sqrt * &sqrt) % &p, a);

    // Test case where p ≡ 1 (mod 4)
    let p = BigUint::from(13u32);
    let a = BigUint::from(3u32);
    let sqrt = mod_sqrt(&a, &p).unwrap();
    assert_eq!((&sqrt * &sqrt) % &p, a);

    // Test non-quadratic residue
    let p = BigUint::from(7u32);
    let a = BigUint::from(3u32);
    assert!(mod_sqrt(&a, &p).is_err());

    // Test invalid prime
    let p = BigUint::from(1u32);
    let a = BigUint::from(2u32);
    assert!(mod_sqrt(&a, &p).is_err());
}

#[test]
fn test_chinese_remainder_theorem() {
    // Test simple case
    let remainders = vec![
        BigUint::from(2u32),
        BigUint::from(3u32),
        BigUint::from(2u32),
    ];
    let moduli = vec![
        BigUint::from(3u32),
        BigUint::from(5u32),
        BigUint::from(7u32),
    ];
    let result = chinese_remainder_theorem(&remainders, &moduli).unwrap();
    assert_eq!(result, BigUint::from(23u32));

    // Test empty input
    assert!(chinese_remainder_theorem(&[], &[]).is_err());

    // Test mismatched lengths
    let remainders = vec![BigUint::from(2u32)];
    let moduli = vec![BigUint::from(3u32), BigUint::from(5u32)];
    assert!(chinese_remainder_theorem(&remainders, &moduli).is_err());

    // Test larger numbers
    let remainders = vec![BigUint::from(123456u32), BigUint::from(789012u32)];
    let moduli = vec![BigUint::from(1000003u32), BigUint::from(1000007u32)];
    let result = chinese_remainder_theorem(&remainders, &moduli).unwrap();
    for (r, m) in remainders.iter().zip(moduli.iter()) {
        assert_eq!(&result % m, r.clone());
    }
}

#[test]
fn test_mod_inverse() {
    // Test simple case
    let a = BigUint::from(3u32);
    let m = BigUint::from(11u32);
    let inv = mod_inverse(&a, &m).unwrap();
    assert_eq!((&a * &inv) % &m, BigUint::from(1u32));

    // Test case where inverse doesn't exist
    let a = BigUint::from(2u32);
    let m = BigUint::from(4u32);
    assert!(mod_inverse(&a, &m).is_none());

    // Test with zero modulus
    let a = BigUint::from(3u32);
    let m = BigUint::from(0u32);
    assert!(mod_inverse(&a, &m).is_none());

    // Test with larger numbers
    let a = BigUint::from(123456u32);
    let m = BigUint::from(1000003u32);
    let inv = mod_inverse(&a, &m).unwrap();
    assert_eq!((&a * &inv) % &m, BigUint::from(1u32));
}

#[test]
fn test_is_quadratic_residue() {
    // Test quadratic residues
    let p = BigUint::from(7u32);
    assert!(is_quadratic_residue(&BigUint::from(2u32), &p));
    assert!(is_quadratic_residue(&BigUint::from(4u32), &p));

    // Test non-quadratic residues
    assert!(!is_quadratic_residue(&BigUint::from(3u32), &p));
    assert!(!is_quadratic_residue(&BigUint::from(5u32), &p));

    // Test edge cases
    assert!(!is_quadratic_residue(&BigUint::from(2u32), &BigUint::from(0u32)));
    assert!(!is_quadratic_residue(&BigUint::from(2u32), &BigUint::from(1u32)));
}

#[test]
fn test_make_quadratic_residue() {
    let p = BigUint::from(7u32);
    let q = BigUint::from(11u32);
    let n = &p * &q;

    // Test case where a is already a quadratic residue
    let a = BigUint::from(4u32);
    let (result, (_e, _f)) = make_quadratic_residue(&a, &p, &q);
    println!(
        "a = {}, result = {}, p = {}, is_qr = {}",
        a,
        result,
        p,
        is_quadratic_residue(&result, &p)
    );
    assert!(is_quadratic_residue(&result, &p));
    assert!(is_quadratic_residue(&result, &q));

    // Test case where a needs to be negated
    let a = BigUint::from(3u32);
    let (result, (_e, _f)) = make_quadratic_residue(&a, &p, &q);
    println!(
        "a = {}, result = {}, p = {}, is_qr = {}",
        a,
        result,
        p,
        is_quadratic_residue(&result, &p)
    );
    assert!(is_quadratic_residue(&result, &p));
    assert!(is_quadratic_residue(&result, &q));

    // Test case where a needs to be multiplied by 2
    let a = BigUint::from(5u32);
    let (result, (_e, _f)) = make_quadratic_residue(&a, &p, &q);
    println!(
        "a = {}, result = {}, p = {}, is_qr = {}",
        a,
        result,
        p,
        is_quadratic_residue(&result, &p)
    );
    assert!(is_quadratic_residue(&result, &p));
    assert!(is_quadratic_residue(&result, &q));

    // Verify the result is always less than n
    assert!(result < n);
}

#[test]
fn mod_inverse_exact_values() {
    assert_eq!(mod_inverse(&big(3), &big(11)), Some(big(4)));
    assert_eq!(mod_inverse(&big(2), &big(4)), None);
    assert_eq!(mod_inverse(&big(10), &big(7)), Some(big(5)));
    assert_eq!(mod_inverse(&big(1), &big(2)), Some(big(1)));
    // modulo one everything is congruent, and the only residue is zero
    assert_eq!(mod_inverse(&big(5), &big(1)), Some(big(0)));
    assert_eq!(mod_inverse(&big(0), &big(1)), Some(big(0)));
    assert_eq!(mod_inverse(&big(0), &big(5)), None);
    assert_eq!(mod_inverse(&big(0), &big(0)), None);
}

#[test]
fn mod_inverse_is_reduced_and_inverts() {
    for m in 2u64..40 {
        for a in 0u64..80 {
            match mod_inverse(&big(a), &big(m)) {
                Some(x) => {
                    assert!(x < big(m));
                    assert_eq!((big(a) * x) % big(m), big(1));
                }
                None => {
                    let mut shared = false;
                    for d in 2..=m {
                        if a % d == 0 && m % d == 0 {
                            shared = true;
                        }
                    }
                    assert!(shared, "a = {}, m = {}", a, m);
                }
            }
        }
    }
}

#[test]
fn quadratic_residue_matches_squares_modulo_a_prime() {
    let p = 23u64;
    for a in 1..p {
        let mut square = false;
        for x in 1..p {
            if (x * x) % p == a {
                square = true;
            }
        }
        assert_eq!(is_quadratic_residue(&big(a), &big(p)), square, "a = {}", a);
    }
    // zero is not counted, and neither is a multiple of the modulus
    assert!(!is_quadratic_residue(&big(0), &big(p)));
    assert!(!is_quadratic_residue(&big(2 * p), &big(p)));
}

#[test]
fn crt_rejects_bad_moduli() {
    assert_eq!(
        chinese_remainder_theorem(&[big(1), big(2)], &[big(4), big(6)]),
        Err(RabinWilliamsError::ComputationError)
    );
    assert_eq!(
        chinese_remainder_theorem(&[big(1), big(2)], &[big(0), big(5)]),
        Err(RabinWilliamsError::ComputationError)
    );
    assert_eq!(
        chinese_remainder_theorem(&[], &[]),
        Err(RabinWilliamsError::ComputationError)
    );
    assert_eq!(
        chinese_remainder_theorem(&[big(1)], &[]),
        Err(RabinWilliamsError::ComputationError)
    );
}

#[test]
fn crt_result_is_below_the_product() {
    let moduli = [big(3), big(5), big(7)];
    for r0 in 0u64..3 {
        for r1 in 0u64..5 {
            for r2 in 0u64..7 {
                let x = chinese_remainder_theorem(&[big(r0), big(r1), big(r2)], &moduli).unwrap();
                assert!(x < big(105));
                assert_eq!(&x % big(3), big(r0));
                assert_eq!(&x % big(5), big(r1));
                assert_eq!(&x % big(7), big(r2));
            }
        }
    }
    // remainders need not be reduced, and a single modulus is allowed
    assert_eq!(chinese_remainder_theorem(&[big(17)], &[big(5)]), Ok(big(2)));
    assert_eq!(chinese_remainder_theorem(&[big(9)], &[big(1)]), Ok(big(0)));
}

#[test]
fn mod_sqrt_errors() {
    assert_eq!(mod_sqrt(&big(2), &big(0)), Err(RabinWilliamsError::InvalidPrime));
    assert_eq!(mod_sqrt(&big(2), &big(1)), Err(RabinWilliamsError::InvalidPrime));
    assert_eq!(
        mod_sqrt(&big(3), &big(7)),
        Err(RabinWilliamsError::SquareRootModPrimeFailed)
    );
    assert_eq!(
        mod_sqrt(&big(2), &big(13)),
        Err(RabinWilliamsError::SquareRootModPrimeFailed)
    );
}

#[test]
fn mod_sqrt_finds_roots_for_every_residue() {
    for p in [2u64, 3, 5, 7, 11, 13, 17, 29, 41, 73, 97, 193, 257] {
        for a in 0..p {
            let residue = is_quadratic_residue(&big(a), &big(p));
            match mod_sqrt(&big(a), &big(p)) {
                Ok(x) => {
                    assert!(residue);
                    assert!(x < big(p));
                    assert_eq!((&x * &x) % big(p), big(a));
                }
                Err(e) => {
                    assert!(!residue, "a = {}, p = {}", a, p);
                    assert_eq!(e, RabinWilliamsError::SquareRootModPrimeFailed);
                }
            }
        }
    }
}

#[test]
fn mod_sqrt_exact_values() {
    // 7 is three modulo four: the root is 2^2 mod 7
    assert_eq!(mod_sqrt(&big(2), &big(7)), Ok(big(4)));
    assert_eq!(mod_sqrt(&big(1), &big(2)), Ok(big(1)));
    assert_eq!(mod_sqrt(&big(4), &big(2)), Ok(big(0)));
    let x = mod_sqrt(&big(10), &big(13)).unwrap();
    assert!(x == big(6) || x == big(7));
}

#[test]
fn make_quadratic_residue_picks_the_first_form() {
    let (p, q) = (big(7), big(11));
    // 4 is a square modulo both
    assert_eq!(make_quadratic_residue(&big(4), &p, &q), (big(4), (1, 1)));
    // 3 is not a square modulo 7, 77 - 3 = 74 is not one modulo 11,
    // 6 is none modulo 7, and 2 * 74 mod 77 = 71 is a square modulo both
    assert_eq!(make_quadratic_residue(&big(3), &p, &q), (big(71), (-1, 2)));
    assert_eq!(
        try_make_quadratic_residue(&big(3), &p, &q),
        Some((big(71), (-1, 2)))
    );
    let mut seen = [0u32; 4];
    for a in 1u64..77 {
        if a % 7 == 0 || a % 11 == 0 {
            assert_eq!(try_make_quadratic_residue(&big(a), &p, &q), None);
            continue;
        }
        let (c, (e, f)) = make_quadratic_residue(&big(a), &p, &q);
        let expected = match (e, f) {
            (1, 1) => a,
            (-1, 1) => 77 - a,
            (1, 2) => (2 * a) % 77,
            (-1, 2) => (2 * (77 - a)) % 77,
            _ => panic!("unexpected tag"),
        };
        assert_eq!(c, big(expected));
        assert!(is_quadratic_residue(&c, &p) && is_quadratic_residue(&c, &q));
        seen[(if e == -1 { 1 } else { 0 }) + (if f == 2 { 2 } else { 0 })] += 1;
    }
    assert_eq!(seen, [15, 15, 15, 15]);
}

#[test]
fn try_make_quadratic_residue_without_a_form() {
    // above the modulus, and no square modulo 7
    assert_eq!(try_make_quadratic_residue(&big(80), &big(7), &big(11)), None);
    // zero and the modulus itself share every factor with it
    assert_eq!(try_make_quadratic_residue(&big(0), &big(7), &big(11)), None);
    assert_eq!(try_make_quadratic_residue(&big(77), &big(7), &big(11)), None);
    // degenerate primes
    assert_eq!(try_make_quadratic_residue(&big(0), &big(0), &big(11)), None);
    assert_eq!(try_make_quadratic_residue(&big(1), &big(1), &big(11)), None);
}

#[test]
fn mod_sqrt_modulo_a_large_prime() {
    // 2^255 - 19 leaves one modulo four
    let p = (BigUint::from(1u32) << 255u32) - BigUint::from(19u32);
    assert_eq!(&p % 4u32, big(1));
    for a in [4u64, 9, 2, 3, 5, 1 << 40] {
        let a = big(a);
        if is_quadratic_residue(&a, &p) {
            let x = mod_sqrt(&a, &p).unwrap();
            assert!(x < p);
            assert_eq!((&x * &x) % &p, a);
        } else {
            assert_eq!(mod_sqrt(&a, &p), Err(RabinWilliamsError::SquareRootModPrimeFailed));
        }
    }
    let x = mod_sqrt(&big(4), &p).unwrap();
    assert!(x == big(2) || x == &p - 2u32);
    // 2 is not a square modulo this prime
    assert!(!is_quadratic_residue(&big(2), &p));
    // a prime with a large power of two in p - 1: 3 * 2^30 + 1
    let p = big(3221225473);
    for a in 1u64..200 {
        let a = big(a);
        match mod_sqrt(&a, &p) {
            Ok(x) => assert_eq!((&x * &x) % &p, a),
            Err(e) => {
                assert_eq!(e, RabinWilliamsError::SquareRootModPrimeFailed);
                assert!(!is_quadratic_residue(&a, &p));
            }
        }
    }
}

#[test]
fn error_messages() {
    assert_eq!(RabinWilliamsError::InvalidKeySize.message(), "Invalid key size");
    assert_eq!(RabinWilliamsError::InvalidPrime.message(), "Invalid prime number");
    assert_eq!(RabinWilliamsError::MessageTooLarge.message(), "Message too large");
    assert_eq!(RabinWilliamsError::InvalidSignature.message(), "Invalid signature");
    assert_eq!(
        RabinWilliamsError::SquareRootModPrimeFailed.message(),
        "Square root modulo prime computation failed"
    );
    assert_eq!(RabinWilliamsError::ComputationError.message(), "Internal computation error");
}

#[test]
fn make_quadratic_residue_above_the_modulus() {
    // 81 exceeds 77 and is a square modulo 11 and modulo 7: it is taken as
    // it is, without reduction
    assert_eq!(make_quadratic_residue(&big(81), &big(11), &big(7)), (big(81), (1, 1)));
    assert_eq!(
        try_make_quadratic_residue(&big(81), &big(11), &big(7)),
        Some((big(81), (1, 1)))
    );
    // 78 = 77 + 1 likewise
    assert_eq!(
        try_make_quadratic_residue(&big(78), &big(7), &big(11)),
        Some((big(78), (1, 1)))
    );
    // 79 is 2 modulo 7 and modulo 11; 2 is no square modulo 11, and a
    // number above the modulus has no other form
    assert_eq!(try_make_quadratic_residue(&big(79), &big(7), &big(11)), None);
}
