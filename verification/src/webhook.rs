//! Webhook delivery planning: the HMAC signature over a delivery body and
//! the exponential-backoff retry policy.

use vstd::prelude::*;

use hmac::{KeyInit, Mac};

verus! {

/// What HMAC-SHA-256 returns for a key and message; it depends on the two
/// byte strings alone.
pub uninterp spec fn hmac_sha256_of(key: Seq<u8>, msg: Seq<u8>) -> Seq<u8>;

/// Relies on hmac's Hmac<sha2::Sha256>: `new_from_slice` accepts a key of
/// any length, and the 32-byte tag is a function of key and message alone.
#[verifier::external_body]
fn hmac_sha256(key: &[u8], msg: &[u8]) -> (r: Vec<u8>)
    ensures
        r@ == hmac_sha256_of(key@, msg@),
        r@.len() == 32,
{
    let mut mac = <hmac::Hmac<sha2::Sha256> as KeyInit>::new_from_slice(key).unwrap();
    mac.update(msg);
    mac.finalize().into_bytes().to_vec()
}

/// The lowercase hex character of a value below sixteen.
pub open spec fn hex_digit(d: nat) -> char {
    if d < 10 {
        ((48 + d) as u8) as char
    } else {
        ((87 + d % 16) as u8) as char
    }
}

/// The lowercase hex encoding: two digits for each byte, in order.
pub open spec fn hex_of(bytes: Seq<u8>) -> Seq<char>
    decreases bytes.len(),
{
    if bytes.len() == 0 {
        Seq::empty()
    } else {
        hex_of(bytes.drop_last()) + seq![
            hex_digit(bytes.last() as nat / 16),
            hex_digit(bytes.last() as nat % 16),
        ]
    }
}

/// Relies on hex::encode: each byte becomes exactly two lowercase hex
/// digits, most significant first.
#[verifier::external_body]
fn hex_encode(bytes: &Vec<u8>) -> (r: String)
    ensures
        r@ == hex_of(bytes@),
{
    hex::encode(bytes)
}

/// The payload a delivery signs: `timestamp`, one dot, then the body.
pub open spec fn signed_payload(timestamp: Seq<u8>, body: Seq<u8>) -> Seq<u8> {
    timestamp + seq![46u8] + body
}

/// The signature sent with a webhook delivery: the lowercase hex of
/// HMAC-SHA-256 over `timestamp + "." + body` under the invoice's secret.
pub open spec fn signature_spec(secret: Seq<u8>, timestamp: Seq<u8>, body: Seq<u8>) -> Seq<char> {
    hex_of(hmac_sha256_of(secret, signed_payload(timestamp, body)))
}

/// Computes a delivery's `X-Webhook-Signature` value.
pub fn generate_signature(timestamp: &[u8], secret: &[u8], body: &[u8]) -> (r: String)
    ensures
        r@ == signature_spec(secret@, timestamp@, body@),
{
    let mut payload: Vec<u8> = Vec::new();
    payload.extend_from_slice(timestamp);
    payload.push(46);
    payload.extend_from_slice(body);
    proof {
        assert(payload@ =~= signed_payload(timestamp@, body@));
    }
    let tag = hmac_sha256(secret, payload.as_slice());
    hex_encode(&tag)
}

/// What the dispatcher does with a delivery that did not get a 2xx reply.
#[derive(Debug, Clone, Copy, PartialEq, Eq, Structural)]
pub enum RetryDecision {
    GiveUp,
    Retry { attempts: i32, delay_secs: u64 },
}

/// The wait before attempt `n`: two to the `n` seconds, pinned to one
/// second below zero and to the largest wait at sixty-four and beyond.
pub open spec fn retry_delay_secs(n: int) -> u64 {
    if n < 0 {
        1u64
    } else if n < 64 {
        vstd::arithmetic::power2::pow2(n as nat) as u64
    } else {
        u64::MAX
    }
}

/// After a failed delivery: give up once the new attempt count reaches
/// `max_retries`, otherwise retry after `2^attempts'` seconds.
pub fn retry_decision(attempts: i32, max_retries: i32) -> (r: RetryDecision)
    ensures
        attempts + 1 >= max_retries ==> r == RetryDecision::GiveUp,
        attempts + 1 < max_retries ==> r == (RetryDecision::Retry {
            attempts: (attempts + 1) as i32,
            delay_secs: retry_delay_secs(attempts + 1),
        }),
{
    let new_attempts: i64 = attempts as i64 + 1;
    if new_attempts >= max_retries as i64 {
        return RetryDecision::GiveUp;
    }
    let delay_secs: u64 = if new_attempts < 0 {
        1
    } else if new_attempts < 64 {
        let sh: u64 = new_attempts as u64;
        proof {
            vstd::arithmetic::power2::lemma2_to64();
            vstd::arithmetic::power2::lemma_pow2_strictly_increases(sh as nat, 64);
            vstd::bits::lemma_u64_shl_is_mul(1u64, sh);
        }
        1u64 << sh
    } else {
        u64::MAX
    };
    RetryDecision::Retry { attempts: new_attempts as i32, delay_secs }
}

} // verus!
