use std::str::FromStr;

use solana_sdk::pubkey::Pubkey;
use tpu_direct::{DirectError, ValidatorIdentity};

#[test]
fn parse_decodes_base58_public_keys() {
    let text = "HbvJJaRJu77dzH7KveoPiro8QUwjWS55RwCMB24cLtMT";
    let id = ValidatorIdentity::parse(text).unwrap();
    assert_eq!(id.bytes, Pubkey::from_str(text).unwrap().to_bytes());
    assert_ne!(id.bytes, [0u8; 32]);
    let system = ValidatorIdentity::parse("11111111111111111111111111111111").unwrap();
    assert_eq!(system.bytes, [0u8; 32]);
}

#[test]
fn parse_rejects_malformed_text() {
    assert_eq!(ValidatorIdentity::parse("").unwrap_err(), DirectError::QueryError);
    assert_eq!(ValidatorIdentity::parse("0OIl").unwrap_err(), DirectError::QueryError);
    assert_eq!(ValidatorIdentity::parse("2").unwrap_err(), DirectError::QueryError);
}

#[test]
fn identities_compare_by_bytes() {
    let mut b = [3u8; 32];
    let x = ValidatorIdentity::new(b);
    let y = ValidatorIdentity::new(b);
    b[31] = 4;
    let z = ValidatorIdentity::new(b);
    assert!(x.same_as(&y));
    assert!(x == y);
    assert!(!x.same_as(&z));
    assert!(x != z);
}
