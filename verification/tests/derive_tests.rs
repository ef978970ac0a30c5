use paygate::derive::derive_address;
use paygate::model::Error;

// The public master key of the first BIP32 reference test vector.
const TEST_XPUB: &str = "xpub661MyMwAqRbcFtXgS5sYJABqqG9YLmC4Q1Rdap9gSE8NqtwybGhePY2gZ29ESFjqJoCu1Rupje8YtGqsefD265TMg7usUDFdp6W1EGMcet8";

#[test]
fn derived_addresses_are_canonical_and_deterministic() {
    let a0 = derive_address(TEST_XPUB, 0).unwrap();
    let again = derive_address(TEST_XPUB, 0).unwrap();
    assert_eq!(a0, again);
    assert_eq!(a0.len(), 42);
    assert!(a0.starts_with("0x"));
    assert!(a0.chars().skip(2).all(|c| c.is_ascii_hexdigit() && !c.is_ascii_uppercase()));
    let a1 = derive_address(TEST_XPUB, 1).unwrap();
    assert_ne!(a0, a1);
}

#[test]
fn bad_keys_and_hardened_indexes_are_crypto_errors() {
    assert_eq!(derive_address("not-an-xpub", 0), Err(Error::Crypto));
    // Too short for even the base58 checksum.
    assert_eq!(derive_address("", 0), Err(Error::Crypto));
    assert_eq!(derive_address("z", 0), Err(Error::Crypto));
    assert_eq!(derive_address("11111", 0), Err(Error::Crypto));
    // Index 2^31 and above would need hardened derivation.
    assert_eq!(derive_address(TEST_XPUB, 1u32 << 31), Err(Error::Crypto));
}
