use hmac::Mac;
use std::collections::VecDeque;
use weighflow::decimal::Decimal;
use weighflow::events::{SignedEvent, WeighEvent, WeightUnit};
use weighflow::sealer::{matches_tag, record_event, seal, seal_message, seal_with_tag, sign, verify, IdSequence};

fn dec(s: &str) -> Decimal {
    Decimal::parse(s.as_bytes()).unwrap()
}

fn reading(v: &str) -> WeighEvent {
    WeighEvent {
        value: dec(v),
        unit: WeightUnit::Kg,
        stable: true,
        timestamp_ms: 1700000000000,
        raw: b"S 1 kg".to_vec(),
    }
}

#[test]
fn same_inputs_produce_same_hmac() {
    let key = b"test-key";
    let h1 = sign(1, &dec("24.55"), 1700000000000, "kg", key);
    let h2 = sign(1, &dec("24.55"), 1700000000000, "kg", key);
    assert_eq!(h1, h2);
}

#[test]
fn different_value_produces_different_hmac() {
    let key = b"test-key";
    let h1 = sign(1, &dec("24.55"), 1700000000000, "kg", key);
    let h2 = sign(1, &dec("24.56"), 1700000000000, "kg", key);
    assert_ne!(h1, h2);
}

#[test]
fn hmac_is_64_hex_chars() {
    let h = sign(1, &dec("10.0"), 0, "kg", b"key");
    assert_eq!(h.len(), 64);
}

#[test]
fn message_format_is_exact() {
    let m = seal_message(1, &dec("24.55"), 1700000000000, "kg");
    assert_eq!(m, b"1|24.550000|1700000000000|kg".to_vec());
    let m = seal_message(12, &dec("-0.0000004"), 5, "t");
    assert_eq!(m, b"12|-0.000000|5|t".to_vec());
    let m = seal_message(0, &dec("9.9999996"), 0, "?");
    assert_eq!(m, b"0|10.000000|0|?".to_vec());
}

#[test]
fn sign_matches_hmac_sha256_of_message() {
    let key = b"clave";
    let msg = b"5|1.250000|99|kg";
    let mut mac = <hmac::Hmac<sha2::Sha256> as Mac>::new_from_slice(key).unwrap();
    mac.update(msg);
    let expected = hex::encode(mac.finalize().into_bytes());
    assert_eq!(sign(5, &dec("1.25"), 99, "kg", key), expected);
    // RFC 4231, test case 2 (key "Jefe", data "what do ya want for nothing?") through the tag path.
    let mut mac = <hmac::Hmac<sha2::Sha256> as Mac>::new_from_slice(b"Jefe").unwrap();
    mac.update(b"what do ya want for nothing?");
    let tag = mac.finalize().into_bytes().to_vec();
    let e = seal_with_tag(&reading("1"), 1, &tag);
    assert_eq!(e.hmac, "5bdcc146bf60754e6a042426089575c75a003f089d2739839dec58b964ec3843");
    assert!(matches_tag(&e, &tag));
    assert!(!matches_tag(&e, &[0u8; 32]));
}

#[test]
fn sealed_event_verifies_and_detects_tampering() {
    let key = b"clave-secreta";
    let mut e = seal(&reading("50.000"), 9, key);
    assert_eq!(e.id, 9);
    assert_eq!(e.unit, "kg");
    assert!(verify(&e, key));
    assert!(!verify(&e, b"otra-clave"));
    e.value = dec("9999.999");
    assert!(!verify(&e, key));
    let mut f = seal(&reading("50.000"), 9, key);
    f.unit = "lb".to_string();
    assert!(!verify(&f, key));
    let mut g = seal(&reading("50.000"), 9, key);
    g.id = 10;
    assert!(!verify(&g, key));
}

#[test]
fn ring_log_keeps_latest() {
    let mut log: VecDeque<SignedEvent> = VecDeque::new();
    for i in 1..=7u64 {
        record_event(&mut log, 3, seal(&reading("1"), i, b"k"));
    }
    let ids: Vec<u64> = log.iter().map(|e| e.id).collect();
    assert_eq!(ids, vec![5, 6, 7]);
    let mut zero: VecDeque<SignedEvent> = VecDeque::new();
    record_event(&mut zero, 0, seal(&reading("1"), 1, b"k"));
    record_event(&mut zero, 0, seal(&reading("1"), 2, b"k"));
    assert_eq!(zero.len(), 1);
    assert_eq!(zero[0].id, 2);
}

#[test]
fn id_sequence_starts_at_one_and_counts_up() {
    let mut ids = IdSequence::new();
    assert!(ids.can_take());
    assert_eq!(ids.take(), 1);
    assert_eq!(ids.take(), 2);
    assert_eq!(ids.take(), 3);
}
