//! Receiving-address derivation: non-hardened BIP32 child derivation from
//! a chain's extended public key, encoded as a canonical lowercase EVM
//! address.

use vstd::prelude::*;

use coins_bip32::xkeys::Parent;
use std::str::FromStr;

use crate::encoding::{normalized, to_lowercase_ascii};
use crate::model::Error;

verus! {

#[verifier::external_type_specification]
#[verifier::external_body]
pub struct ExBip32Error(coins_bip32::Bip32Error);

/// The checksummed EVM address of the child key `index` under `xpub`; it
/// depends on the key string and the index alone.
pub uninterp spec fn evm_address_of(xpub: Seq<char>, index: u32) -> Seq<char>;

/// Whether `xpub` decodes to a valid extended public key whose child
/// `index` can be derived (a hardened index cannot); like the address,
/// this depends on the key string and the index alone.
pub uninterp spec fn xpub_parses(xpub: Seq<char>, index: u32) -> bool;

/// Relies on coins_bip32's XPub::from_str and Parent::derive_child and on
/// alloy's Address::from_public_key with its checksummed Display: whether
/// the call succeeds and which address it returns are deterministic in the
/// xpub string and the index. The six-character minimum keeps the base58
/// payload at no less than the four checksum bytes that the decoder
/// splits off unchecked.
#[verifier::external_body]
fn xpub_child_address(xpub: &str, index: u32) -> (r: Result<String, coins_bip32::Bip32Error>)
    requires
        xpub@.len() >= 6,
    ensures
        r is Ok <==> xpub_parses(xpub@, index),
        r is Ok ==> r->Ok_0@ == evm_address_of(xpub@, index),
{
    let parsed = coins_bip32::xkeys::XPub::from_str(xpub)?;
    let child = parsed.derive_child(index)?;
    Ok(alloy::primitives::Address::from_public_key(child.as_ref()).to_string())
}

/// The receiving address for derivation index `index` under the chain's
/// xpub, in canonical lowercase form. Derivation succeeds exactly when
/// the key parses and the index is derivable; anything else (a malformed
/// or too-short key, a hardened index) is a `Crypto` error.
pub fn derive_address(xpub: &str, index: u32) -> (r: Result<String, Error>)
    ensures
        match r {
            Ok(addr) => xpub@.len() >= 6 && xpub_parses(xpub@, index) && addr@ == normalized(
                evm_address_of(xpub@, index),
            ),
            Err(e) => e == Error::Crypto && (xpub@.len() < 6 || !xpub_parses(xpub@, index)),
        },
{
    if xpub.unicode_len() < 6 {
        return Err(Error::Crypto);
    }
    match xpub_child_address(xpub, index) {
        Ok(addr) => Ok(to_lowercase_ascii(addr.as_str())),
        Err(_) => Err(Error::Crypto),
    }
}

} // verus!
