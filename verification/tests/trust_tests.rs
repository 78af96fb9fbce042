use gander::trust::{format_port, parse_port, TrustRecord, TrustStore, VerifyOutcome};

#[test]
fn first_contact_learns_and_persists() {
    let mut store = TrustStore::new();
    let r = store.verify(&"10.0.0.1".to_string(), 22, &"fp-a".to_string());
    assert_eq!(r, VerifyOutcome::Learned);
    assert_eq!(store.records.len(), 1);
    assert_eq!(store.records[0].address, "10.0.0.1");
    assert_eq!(store.records[0].port, 22);
    assert_eq!(store.records[0].fingerprint, "fp-a");
}

#[test]
fn second_contact_with_same_identity_is_trusted() {
    let mut store = TrustStore::new();
    store.verify(&"10.0.0.1".to_string(), 22, &"fp-a".to_string());
    let r = store.verify(&"10.0.0.1".to_string(), 22, &"fp-a".to_string());
    assert_eq!(r, VerifyOutcome::Trusted);
    assert_eq!(store.records.len(), 1);
}

#[test]
fn changed_identity_is_rejected_and_record_kept() {
    let mut store = TrustStore::new();
    store.verify(&"10.0.0.1".to_string(), 22, &"fp-a".to_string());
    let r = store.verify(&"10.0.0.1".to_string(), 22, &"fp-b".to_string());
    assert_eq!(r, VerifyOutcome::Mismatch);
    // The stored fingerprint was not overwritten.
    assert_eq!(store.records.len(), 1);
    assert_eq!(store.records[0].fingerprint, "fp-a");
    // And it still mismatches on the next contact with the impostor identity.
    let again = store.verify(&"10.0.0.1".to_string(), 22, &"fp-b".to_string());
    assert_eq!(again, VerifyOutcome::Mismatch);
}

#[test]
fn endpoints_differing_in_port_are_distinct() {
    let mut store = TrustStore::new();
    assert_eq!(
        store.verify(&"10.0.0.1".to_string(), 22, &"fp-a".to_string()),
        VerifyOutcome::Learned
    );
    assert_eq!(
        store.verify(&"10.0.0.1".to_string(), 2222, &"fp-b".to_string()),
        VerifyOutcome::Learned
    );
    assert_eq!(store.records.len(), 2);
    assert_eq!(
        store.verify(&"10.0.0.1".to_string(), 22, &"fp-a".to_string()),
        VerifyOutcome::Trusted
    );
    assert_eq!(
        store.verify(&"10.0.0.1".to_string(), 2222, &"fp-a".to_string()),
        VerifyOutcome::Mismatch
    );
}

#[test]
fn insert_adds_unknown_and_keeps_existing() {
    let mut store = TrustStore::new();
    let rec_a = TrustRecord {
        address: "10.0.0.1".to_string(),
        port: 22,
        fingerprint: "fp-a".to_string(),
    };
    assert!(store.insert(&rec_a));
    let rec_b = TrustRecord {
        address: "10.0.0.1".to_string(),
        port: 22,
        fingerprint: "fp-b".to_string(),
    };
    assert!(!store.insert(&rec_b));
    assert_eq!(store.records.len(), 1);
    assert_eq!(store.records[0].fingerprint, "fp-a");
}

#[test]
fn port_digits_round_trip() {
    for p in [0u16, 9, 10, 22, 2022, 65535] {
        let digits = format_port(p);
        assert_eq!(parse_port(&digits), Some(p));
    }
    assert_eq!(format_port(2022), b"2022".to_vec());
    assert_eq!(format_port(0), b"0".to_vec());
}

#[test]
fn parse_port_accepts_only_fitting_digit_strings() {
    assert_eq!(parse_port(b""), None);
    assert_eq!(parse_port(b"12a"), None);
    assert_eq!(parse_port(b" 22"), None);
    assert_eq!(parse_port(b"65535"), Some(65535));
    assert_eq!(parse_port(b"65536"), None);
    assert_eq!(parse_port(b"99999999"), None);
    assert_eq!(parse_port(b"022"), Some(22));
}
