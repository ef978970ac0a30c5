use hmac::{KeyInit, Mac};
use paygate::webhook::{generate_signature, retry_decision, RetryDecision};

#[test]
fn signature_matches_direct_hmac() {
    let timestamp = b"1700000000";
    let secret = b"test_secret";
    let body = br#"{"event_type":"invoice_paid","data":{"invoice_id":"inv-1","paid_amount":"1"}}"#;
    let signature = generate_signature(timestamp, secret, body);

    let mut payload = Vec::new();
    payload.extend_from_slice(timestamp);
    payload.push(b'.');
    payload.extend_from_slice(body);
    let mut mac = <hmac::Hmac<sha2::Sha256> as KeyInit>::new_from_slice(secret).unwrap();
    mac.update(&payload);
    let expected = hex::encode(mac.finalize().into_bytes());
    assert_eq!(signature, expected);
    assert_eq!(signature.len(), 64);
    assert!(signature.chars().all(|c| c.is_ascii_hexdigit() && !c.is_ascii_uppercase()));
}

#[test]
fn signature_depends_on_every_part() {
    let s1 = generate_signature(b"100", b"secret", b"body");
    let s2 = generate_signature(b"101", b"secret", b"body");
    let s3 = generate_signature(b"100", b"other", b"body");
    let s4 = generate_signature(b"100", b"secret", b"bodY");
    assert_ne!(s1, s2);
    assert_ne!(s1, s3);
    assert_ne!(s1, s4);
    assert_eq!(s1, generate_signature(b"100", b"secret", b"body"));
}

#[test]
fn retry_schedule_is_exponential() {
    // First failure: one attempt made, next try two seconds out.
    assert_eq!(retry_decision(0, 10), RetryDecision::Retry { attempts: 1, delay_secs: 2 });
    assert_eq!(retry_decision(1, 10), RetryDecision::Retry { attempts: 2, delay_secs: 4 });
    assert_eq!(retry_decision(8, 10), RetryDecision::Retry { attempts: 9, delay_secs: 512 });
    // The tenth failure gives up.
    assert_eq!(retry_decision(9, 10), RetryDecision::GiveUp);
    assert_eq!(retry_decision(100, 10), RetryDecision::GiveUp);
}

#[test]
fn new_ids_are_distinct() {
    let a = paygate::ids::new_uuid();
    let b = paygate::ids::new_uuid();
    assert_eq!(a.len(), 36);
    assert_ne!(a, b);
}
