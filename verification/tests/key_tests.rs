use num_bigint::BigUint;
use rabin_williams::errors::RabinWilliamsError;
use rabin_williams::hash::{HashWrapper, Sha256, Sha512};
use rabin_williams::keys::{
    has_remainder, next_candidate, search_bounds, KeyPair, PrivateKey, PublicKey,
};
use rand::{thread_rng, Rng};

// Helper function to generate random message
fn generate_random_message() -> Vec<u8> {
    let mut rng = thread_rng();
    let len = rng.gen_range(10..100); // Random length between 10 and 100 bytes
    let random_bytes: Vec<u8> = (0..len).map(|_| rng.gen()).collect();
    random_bytes
}

fn big(v: u64) -> BigUint {
    BigUint::from(v)
}

#[test]
fn test_key_generation() -> Result<(), RabinWilliamsError> {
    // Generate a keypair with 1024-bit modulus using default SHA-256
    let keypair: KeyPair<Sha256> = KeyPair::generate(1024)?;

    // Verify key sizes
    assert!(keypair.public.n.bits() >= 1023); // Allow for slight variation
    assert!(keypair.private.p.bits() >= 511);
    assert!(keypair.private.q.bits() >= 511);

    // Verify p ≡ 3 (mod 8)
    assert_eq!(&keypair.private.p % 8u32, 3u32.into());

    // Verify q ≡ 7 (mod 8)
    assert_eq!(&keypair.private.q % 8u32, 7u32.into());

    // Verify n = p * q
    assert_eq!(keypair.public.n, &keypair.private.p * &keypair.private.q);

    Ok(())
}

#[test]
fn keys_test_sign_verify() -> Result<(), RabinWilliamsError> {
    let key_pair: KeyPair<Sha256> = KeyPair::generate(1024)?;

    for i in 0..10 {
        let message = generate_random_message();

        // Sign message
        let signature = key_pair.private.sign(&message)?;

        println!("Signature: {:?}", BigUint::from_bytes_be(&signature));

        // Verify signature and assert it's valid
        let is_valid = key_pair.public.verify(&message, &signature)?;
        assert!(is_valid, "Signature verification failed for message {}", i);
        println!("Is valid {i}: {:?}", is_valid);
    }

    Ok(())
}

#[test]
fn test_blind_sign_verify() -> Result<(), RabinWilliamsError> {
    let key_pair: KeyPair<Sha256> = KeyPair::generate(1024)?;
    let message = generate_random_message();

    // Blind the message
    let (blinded_message, r) = key_pair.public.blind_message(&message)?;

    // Sign the blinded message
    let blinded_signature = key_pair.private.raw_sign(&blinded_message.to_bytes_be())?;

    // Unblind the signature
    let unblinded_signature = key_pair.public.unblind_signature(&blinded_signature, &r)?;

    // Verify the unblinded signature
    let is_valid = key_pair.public.verify(&message, &unblinded_signature)?;
    assert!(is_valid);

    Ok(())
}

#[test]
fn keys_test_invalid_signature() -> Result<(), RabinWilliamsError> {
    let key_pair: KeyPair<Sha256> = KeyPair::generate(1024)?;
    let message = b"Hello, World!";
    let mut signature = key_pair.private.sign(message)?;

    // Tamper with signature
    signature[0] ^= 1;

    let is_valid = key_pair.public.verify(message, &signature)?;
    assert!(!is_valid);

    Ok(())
}

#[test]
fn test_custom_hash() -> Result<(), RabinWilliamsError> {
    // Generate a keypair with SHA-512
    let hash_fn = HashWrapper::<Sha512>::default();
    let keypair: KeyPair<Sha512> = KeyPair::generate_with_hash(1024, hash_fn)?;

    let message = b"Hello, World!";
    let signature = keypair.private.sign(message)?;
    let is_valid = keypair.public.verify(message, &signature)?;
    assert!(is_valid);

    Ok(())
}

#[test]
fn generate_rejects_small_sizes() {
    for bits in [0usize, 1, 512, 1023] {
        match KeyPair::generate(bits) {
            Err(e) => assert_eq!(e, RabinWilliamsError::InvalidKeySize),
            Ok(_) => panic!("a key of {} bits was generated", bits),
        }
    }
    match KeyPair::generate_with_hash(512, HashWrapper::<Sha512>::new()) {
        Err(e) => assert_eq!(e, RabinWilliamsError::InvalidKeySize),
        Ok(_) => panic!("a key of 512 bits was generated"),
    }
}

#[test]
fn generated_primes_have_exact_size_and_differ() {
    let pair = KeyPair::generate(1024).unwrap();
    assert_eq!(pair.private.p.bits(), 512);
    assert_eq!(pair.private.q.bits(), 512);
    assert_ne!(pair.private.p, pair.private.q);
    assert_eq!(pair.private.n(), pair.public.n);
    assert_eq!(pair.public.n(), &pair.public.n);
    let bits = pair.public.n.bits();
    assert!(bits == 1023 || bits == 1024);
}

#[test]
fn pack_and_extract_are_inverse() {
    let key = PublicKey::<Sha256>::from_n(big(77));
    for e in [1i32, -1] {
        for f in [1u32, 2] {
            for x in [0u64, 1, 76, 255, 256, 65535, 65536, u64::MAX] {
                let packed = PrivateKey::<Sha256>::pack_signature(e, f, &big(x));
                assert_eq!(key.extract_signature(&packed), Ok((e, f, big(x))));
            }
        }
    }
}

#[test]
fn pack_signature_wire_format() {
    assert_eq!(PrivateKey::<Sha256>::pack_signature(1, 1, &big(0)), vec![0, 0]);
    assert_eq!(PrivateKey::<Sha256>::pack_signature(-1, 1, &big(5)), vec![1, 5]);
    assert_eq!(PrivateKey::<Sha256>::pack_signature(1, 2, &big(256)), vec![2, 1, 0]);
    assert_eq!(
        PrivateKey::<Sha256>::pack_signature(-1, 2, &big(0x01_02_03)),
        vec![3, 1, 2, 3]
    );
}

#[test]
fn extract_signature_rejects_malformed_input() {
    let key = PublicKey::<Sha256>::from_n(big(77));
    assert_eq!(key.extract_signature(&[]), Err(RabinWilliamsError::InvalidSignature));
    assert_eq!(key.extract_signature(&[0]), Err(RabinWilliamsError::InvalidSignature));
    assert_eq!(key.extract_signature(&[3]), Err(RabinWilliamsError::InvalidSignature));
    for bit in 2..8 {
        assert_eq!(
            key.extract_signature(&[1u8 << bit, 9]),
            Err(RabinWilliamsError::InvalidSignature)
        );
        assert_eq!(
            key.extract_signature(&[3 | (1u8 << bit), 9]),
            Err(RabinWilliamsError::InvalidSignature)
        );
    }
    // leading zero bytes of the magnitude are accepted
    assert_eq!(key.extract_signature(&[2, 0, 0, 9]), Ok((1, 2, big(9))));
}

#[test]
fn flipping_a_reserved_bit_is_an_error_not_a_mismatch() {
    let pair = KeyPair::generate(1024).unwrap();
    let message = b"reserved bits";
    let signature = pair.private.sign(message).unwrap();
    for bit in 2..8 {
        let mut tampered = signature.clone();
        tampered[0] ^= 1 << bit;
        assert_eq!(
            pair.public.verify(message, &tampered),
            Err(RabinWilliamsError::InvalidSignature)
        );
    }
}

#[test]
fn flipping_a_magnitude_bit_is_a_mismatch_not_an_error() {
    let pair = KeyPair::generate(1024).unwrap();
    let message = b"magnitude bits";
    let signature = pair.private.sign(message).unwrap();
    assert_eq!(pair.public.verify(message, &signature), Ok(true));
    for index in [1usize, 2, signature.len() / 2, signature.len() - 1] {
        for bit in [0u8, 3, 7] {
            let mut tampered = signature.clone();
            tampered[index] ^= 1 << bit;
            assert_eq!(pair.public.verify(message, &tampered), Ok(false));
        }
    }
    assert_eq!(pair.public.verify(b"another message", &signature), Ok(false));
}

#[test]
fn sign_and_verify_with_small_primes() {
    // 11 is three and 7 is seven modulo eight
    let private = PrivateKey::<Sha256>::from_primes(big(11), big(7));
    let public = PublicKey::<Sha256>::from_n(big(77));
    let mut signed = 0;
    for a in 0u64..=77 {
        match private.raw_sign(&big(a).to_bytes_be()) {
            Ok(sig) => {
                assert!(a % 7 != 0 && a % 11 != 0);
                let (e, f, x) = public.extract_signature(&sig).unwrap();
                assert!(x < big(77));
                let square = (&x * &x) % big(77);
                let recovered = match (e, f) {
                    (1, 1) => square,
                    (1, 2) => (square * big(39)) % big(77),
                    (-1, 1) => (big(77) - square) % big(77),
                    (-1, 2) => ((big(77) - square) * big(39)) % big(77),
                    _ => panic!("unexpected tag"),
                };
                assert_eq!(recovered, big(a));
                signed += 1;
            }
            Err(e) => {
                assert!(a % 7 == 0 || a % 11 == 0);
                assert_eq!(e, RabinWilliamsError::ComputationError);
            }
        }
    }
    assert_eq!(signed, 60);
}

#[test]
fn raw_sign_exact_signature() {
    let private = PrivateKey::<Sha256>::from_primes(big(11), big(7));
    // 4 is a square modulo both primes; its roots 4^3 mod 11 = 9 and
    // 4^2 mod 7 = 2 combine to 9
    assert_eq!(private.raw_sign(&[4]), Ok(vec![0, 9]));
    // 3 takes the negated and doubled form 71, with roots 5^3 mod 11 = 4
    // and 1^2 mod 7 = 1, which combine to 15
    assert_eq!(private.raw_sign(&[3]), Ok(vec![3, 15]));
}

#[test]
fn raw_sign_errors() {
    let private = PrivateKey::<Sha256>::from_primes(big(11), big(7));
    assert_eq!(private.raw_sign(&[78]), Err(RabinWilliamsError::MessageTooLarge));
    assert_eq!(private.raw_sign(&[1, 0]), Err(RabinWilliamsError::MessageTooLarge));
    assert_eq!(private.raw_sign(&[7]), Err(RabinWilliamsError::ComputationError));
    assert_eq!(private.raw_sign(&[]), Err(RabinWilliamsError::ComputationError));
    // moduli that share a factor pass Euler's criterion together but cannot
    // be combined: 35 leaves three modulo eight and is a multiple of 7
    let shared = PrivateKey::<Sha256>::from_primes(big(35), big(7));
    assert_eq!(shared.raw_sign(&[1]), Err(RabinWilliamsError::ComputationError));
    // a 256-bit hash always exceeds a modulus this small
    assert_eq!(private.sign(b"message"), Err(RabinWilliamsError::MessageTooLarge));
}

#[test]
fn verify_small_signatures() {
    let public = PublicKey::<Sha256>::from_n(big(77));
    // the recovered representative is below 77, a SHA-256 value is not
    assert_eq!(public.verify(b"message", &[0, 9]), Ok(false));
    assert_eq!(
        public.verify(b"message", &[4, 9]),
        Err(RabinWilliamsError::InvalidSignature)
    );
    assert_eq!(public.verify(b"message", &[0]), Err(RabinWilliamsError::InvalidSignature));
    let zero = PublicKey::<Sha256>::from_n(big(0));
    assert_eq!(zero.verify(b"message", &[0, 9]), Err(RabinWilliamsError::ComputationError));
    assert_eq!(zero.verify(b"message", &[9, 9]), Err(RabinWilliamsError::InvalidSignature));
}

#[test]
fn blinding_factors() {
    let public = PublicKey::<Sha256>::from_n(big(77));
    for r in 0u64..100 {
        let expected = r >= 1 && r < 77 && r % 7 != 0 && r % 11 != 0;
        assert_eq!(public.accepts_blinding_factor(&big(r)), expected, "r = {}", r);
    }
    for _ in 0..50 {
        let r = public.coprime().unwrap();
        assert!(public.accepts_blinding_factor(&r));
        let (r, r_squared) = public.blinding().unwrap();
        assert!(public.accepts_blinding_factor(&r));
        assert_eq!(r_squared, (&r * &r) % big(77));
    }
    for n in [0u64, 1] {
        let degenerate = PublicKey::<Sha256>::from_n(big(n));
        assert_eq!(degenerate.coprime(), Err(RabinWilliamsError::ComputationError));
        assert_eq!(degenerate.blinding(), Err(RabinWilliamsError::ComputationError));
        assert_eq!(
            degenerate.blind_message(b"message"),
            Err(RabinWilliamsError::ComputationError)
        );
    }
    assert_eq!(PublicKey::<Sha256>::from_n(big(2)).coprime(), Ok(big(1)));
}

#[test]
fn blind_message_with_a_given_factor() {
    let public = PublicKey::<Sha256>::from_n(big(77));
    let hash = HashWrapper::<Sha256>::new().hash(b"message");
    for r in [1u64, 2, 5, 76] {
        let blinded = public.blind_message_with(b"message", &big(r)).unwrap();
        assert_eq!(blinded, (big(r * r) * &hash) % big(77));
    }
    assert_eq!(
        PublicKey::<Sha256>::from_n(big(0)).blind_message_with(b"message", &big(3)),
        Err(RabinWilliamsError::ComputationError)
    );
    let (blinded, r) = public.blind_message(b"message").unwrap();
    assert_eq!(Ok(blinded), public.blind_message_with(b"message", &r));
}

#[test]
fn unblind_signature_divides_the_magnitude() {
    let public = PublicKey::<Sha256>::from_n(big(77));
    // the inverse of 3 modulo 77 is 26, and 26 * 9 mod 77 = 3
    assert_eq!(public.unblind_signature(&[3, 9], &big(3)), Ok(vec![3, 3]));
    assert_eq!(public.unblind_signature(&[0, 9], &big(1)), Ok(vec![0, 9]));
    assert_eq!(
        public.unblind_signature(&[0, 9], &big(7)),
        Err(RabinWilliamsError::InvalidSignature)
    );
    assert_eq!(
        public.unblind_signature(&[8, 9], &big(3)),
        Err(RabinWilliamsError::InvalidSignature)
    );
    assert_eq!(
        PublicKey::<Sha256>::from_n(big(0)).unblind_signature(&[0, 9], &big(3)),
        Err(RabinWilliamsError::InvalidSignature)
    );
}

#[test]
fn blind_protocol_with_every_factor_of_a_small_key() {
    let private = PrivateKey::<Sha256>::from_primes(big(11), big(7));
    let public = PublicKey::<Sha256>::from_n(big(77));
    for a in 1u64..77 {
        if a % 7 == 0 || a % 11 == 0 {
            continue;
        }
        for r in 1u64..77 {
            if r % 7 == 0 || r % 11 == 0 {
                continue;
            }
            let blinded = (big(r * r) % big(77)) * big(a) % big(77);
            let blinded_sig = private.raw_sign(&blinded.to_bytes_be()).unwrap();
            let sig = public.unblind_signature(&blinded_sig, &big(r)).unwrap();
            let (e, f, x) = public.extract_signature(&sig).unwrap();
            let square = (&x * &x) % big(77);
            let recovered = match (e, f) {
                (1, 1) => square,
                (1, 2) => (square * big(39)) % big(77),
                (-1, 1) => (big(77) - square) % big(77),
                (-1, 2) => ((big(77) - square) * big(39)) % big(77),
                _ => panic!("unexpected tag"),
            };
            assert_eq!(recovered, big(a), "a = {}, r = {}", a, r);
        }
    }
}

#[test]
fn checked_from_primes_validates_the_congruences() {
    let key = PrivateKey::<Sha256>::checked_from_primes(big(11), big(7)).unwrap();
    assert_eq!(key.p, big(11));
    assert_eq!(key.q, big(7));
    assert_eq!(key.n(), big(77));
    for (p, q) in [(5u64, 7u64), (7, 11), (11, 11), (11, 3), (0, 7), (3, 0), (4, 7), (11, 15 + 8)]
    {
        let expected = p % 8 == 3 && q % 8 == 7;
        match PrivateKey::<Sha256>::checked_from_primes(big(p), big(q)) {
            Ok(key) => {
                assert!(expected, "p = {}, q = {}", p, q);
                assert_eq!(key.p, big(p));
                assert_eq!(key.q, big(q));
            }
            Err(e) => {
                assert!(!expected, "p = {}, q = {}", p, q);
                assert_eq!(e, RabinWilliamsError::InvalidPrime);
            }
        }
    }
}

#[test]
fn whatever_a_checked_key_signs_verifies() {
    // none of these moduli is a product of two primes of the right kind by
    // construction alone; the congruences are all that is checked
    for (p, q) in [(11u64, 7u64), (3, 7), (19, 23), (43, 31), (35, 23), (11, 15)] {
        let private = PrivateKey::<Sha256>::checked_from_primes(big(p), big(q)).unwrap();
        let n = p * q;
        let public = PublicKey::<Sha256>::from_n(big(n));
        for a in 0..=n {
            if let Ok(sig) = private.raw_sign(&big(a).to_bytes_be()) {
                let (e, f, x) = public.extract_signature(&sig).unwrap();
                let square = (&x * &x) % big(n);
                let half = big((n + 1) / 2);
                let recovered = match (e, f) {
                    (1, 1) => square,
                    (1, 2) => (square * half) % big(n),
                    (-1, 1) => (big(n) - square) % big(n),
                    (-1, 2) => ((big(n) - square) * half) % big(n),
                    _ => panic!("unexpected tag"),
                };
                assert_eq!(recovered, big(a), "p = {}, q = {}, a = {}", p, q, a);
            }
        }
    }
}

#[test]
fn search_bounds_are_the_numbers_of_the_size() {
    assert_eq!(search_bounds(2), (big(2), big(3)));
    assert_eq!(search_bounds(8), (big(128), big(255)));
    let (min, max) = search_bounds(512);
    assert_eq!(min, BigUint::from(1u32) << 511u32);
    assert_eq!(max, (BigUint::from(1u32) << 512u32) - 1u32);
    assert_eq!(min.bits(), 512);
    assert_eq!(max.bits(), 512);
    assert_eq!((max + 1u32).bits(), 513);
}

#[test]
fn has_remainder_tests_the_congruence() {
    for c in 0u64..64 {
        for modulus in 1u32..10 {
            for remainder in 0u32..10 {
                assert_eq!(
                    has_remainder(&big(c), remainder, modulus),
                    c % (modulus as u64) == remainder as u64
                );
            }
        }
    }
    let large = (BigUint::from(1u32) << 200u32) + 11u32;
    assert!(has_remainder(&large, 3, 8));
    assert!(!has_remainder(&large, 7, 8));
}

#[test]
fn next_candidate_steps_within_the_round_and_the_range() {
    let max = big(255);
    assert_eq!(next_candidate(&big(128), 0, 8, &max), Some(big(129)));
    assert_eq!(next_candidate(&big(200), 6, 8, &max), Some(big(201)));
    // the round has looked at eight candidates
    assert_eq!(next_candidate(&big(200), 7, 8, &max), None);
    assert_eq!(next_candidate(&big(200), 8, 8, &max), None);
    assert_eq!(next_candidate(&big(200), usize::MAX, 8, &max), None);
    // the range is used up
    assert_eq!(next_candidate(&big(254), 0, 8, &max), Some(big(255)));
    assert_eq!(next_candidate(&big(255), 0, 8, &max), None);
    assert_eq!(next_candidate(&big(300), 0, 8, &max), None);
    // no round of no candidates
    assert_eq!(next_candidate(&big(1), 0, 0, &max), None);
    assert_eq!(next_candidate(&big(1), 0, 1, &max), None);
    assert_eq!(next_candidate(&big(1), 0, 2, &max), Some(big(2)));
}
