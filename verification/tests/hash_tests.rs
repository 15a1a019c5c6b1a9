use num_bigint::BigUint;
use num_traits::Zero;
use rabin_williams::hash::{HashFunction, HashWrapper, Sha256, Sha256Hash, Sha512};

#[test]
fn test_hash_wrapper() {
    let wrapper = HashWrapper::<Sha256>::default();
    let message = b"Hello, World!";
    let hash = wrapper.hash(message);
    assert!(!hash.is_zero());
}

#[test]
fn test_different_hash_functions() {
    let sha256 = HashWrapper::<Sha256>::default();
    let sha512 = HashWrapper::<Sha512>::default();
    let message = b"Hello, World!";

    let hash256 = sha256.hash(message);
    let hash512 = sha512.hash(message);

    // Different hash functions should produce different outputs
    assert_ne!(hash256, hash512);
}

#[test]
fn sha256_of_known_messages() {
    let wrapper = HashWrapper::<Sha256>::new();
    let empty = BigUint::parse_bytes(
        b"e3b0c44298fc1c149afbf4c8996fb92427ae41e4649b934ca495991b7852b855",
        16,
    )
    .unwrap();
    assert_eq!(wrapper.hash(b""), empty);
    let abc = BigUint::parse_bytes(
        b"ba7816bf8f01cfea414140de5dae2223b00361a396177a9cb410ff61f20015ad",
        16,
    )
    .unwrap();
    assert_eq!(wrapper.hash(b"abc"), abc);
}

#[test]
fn sha512_of_a_known_message() {
    let wrapper = HashWrapper::<Sha512>::new();
    let abc = BigUint::parse_bytes(
        b"ddaf35a193617abacc417349ae20413112e6fa4e89a97ea20a9eeee64b55d39a\
2192992a274fc1a836ba3c23a3feebbd454d4423643ce80e2a9ac94fa54ca49f",
        16,
    )
    .unwrap();
    assert_eq!(wrapper.hash(b"abc"), abc);
}

#[test]
fn hashing_is_deterministic() {
    let one = HashWrapper::<Sha256>::new();
    let other = HashWrapper::<Sha256>::default();
    assert_eq!(one.hash(b"message"), other.hash(b"message"));
    assert_ne!(one.hash(b"message"), one.hash(b"massage"));
}

#[test]
fn digests_have_the_length_of_their_function() {
    assert_eq!(Sha256::new().digest(b"abc").len(), 32);
    assert_eq!(Sha512::new().digest(b"abc").len(), 64);
    assert_eq!(
        BigUint::from_bytes_be(&Sha256::new().digest(b"abc")),
        HashWrapper::<Sha256>::new().hash(b"abc")
    );
}

#[test]
fn sha256_hash_is_the_wrapper_of_sha256() {
    let wrapper = Sha256Hash::new();
    assert_eq!(wrapper.hash(b"abc"), HashWrapper::<Sha256>::new().hash(b"abc"));
}
