use aster::key::{PublicKey, SecretKey, Signature};

#[test]
fn keys_are_those_of_the_curve() {
    let key = SecretKey::from_bytes(&[5; 32]);
    let outside = iroh_base::SecretKey::from_bytes(&[5; 32]);
    assert_eq!(key.public().bytes, *outside.public().as_bytes());
    assert_eq!(key.to_bytes(), [5; 32]);
    assert_ne!(key.public().bytes, [5; 32]);
}

#[test]
fn generated_keys_differ() {
    assert_ne!(SecretKey::generate().to_bytes(), SecretKey::generate().to_bytes());
}

#[test]
fn signatures_are_accepted_only_of_their_message_and_key() {
    let key = SecretKey::from_bytes(&[5; 32]);
    let other = SecretKey::from_bytes(&[6; 32]);
    let signature = key.sign(b"hello");
    assert!(key.public().verify(b"hello", &signature));
    assert!(!key.public().verify(b"hullo", &signature));
    assert!(!other.public().verify(b"hello", &signature));
    assert!(!key.public().verify(b"hello", &Signature { bytes: [0; 64] }));
    assert_eq!(
        signature.bytes,
        iroh_base::SecretKey::from_bytes(&[5; 32]).sign(b"hello").to_bytes()
    );
}

#[test]
fn bytes_that_are_no_point_are_no_key() {
    let mut bad = None;
    for n in 0..=255u8 {
        let mut bytes = [0u8; 32];
        bytes[0] = n;
        match iroh_base::PublicKey::from_bytes(&bytes) {
            Ok(_) => assert_eq!(PublicKey::from_bytes(&bytes), Ok(PublicKey { bytes })),
            Err(e) => {
                let told = format!("{:#}", anyhow::Error::new(e));
                assert_eq!(PublicKey::from_bytes(&bytes), Err(told));
                bad = Some(bytes);
            }
        }
    }
    let bad = bad.unwrap();
    let key = PublicKey { bytes: bad };
    assert!(!key.verify(b"hello", &Signature { bytes: [0; 64] }));
    let good = SecretKey::from_bytes(&[5; 32]).public();
    assert_eq!(PublicKey::from_bytes(&good.bytes), Ok(good));
}

#[test]
fn keys_are_parsed_from_text() {
    let outside = iroh_base::SecretKey::from_bytes(&[5; 32]).public();
    let key = PublicKey::parse(&outside.to_string()).unwrap();
    assert_eq!(key.bytes, *outside.as_bytes());
    assert_eq!(PublicKey::parse(""), Err("invalid length".to_string()));
    for text in ["nonsense", "x", "ZZ", &"z".repeat(64), &"ee".repeat(32), &"02".repeat(32)] {
        let told = text
            .parse::<iroh_base::PublicKey>()
            .map(|key| PublicKey { bytes: *key.as_bytes() })
            .map_err(|e| format!("{:#}", anyhow::Error::new(e)));
        assert_eq!(PublicKey::parse(text), told);
    }
    assert!(PublicKey::parse("nonsense").is_err());
}

#[test]
fn keys_are_ordered_as_their_bytes() {
    let mut low = PublicKey { bytes: [7; 32] };
    let high = PublicKey { bytes: [7; 32] };
    assert!(!low.is_before(&high));
    low.bytes[31] = 6;
    assert!(low.is_before(&high));
    assert!(!high.is_before(&low));
    low.bytes[0] = 8;
    assert!(high.is_before(&low));
    for n in 0..20u8 {
        let a = SecretKey::from_bytes(&[n; 32]).public();
        let b = SecretKey::from_bytes(&[n + 1; 32]).public();
        let outside_a = iroh_base::PublicKey::from_bytes(&a.bytes).unwrap();
        let outside_b = iroh_base::PublicKey::from_bytes(&b.bytes).unwrap();
        assert_eq!(a.is_before(&b), outside_a < outside_b);
    }
}
