use solana_sdk::signature::{Keypair, Signer};
use solana_sdk::transaction::Transaction;
use tpu_direct::{
    build_and_sign, DirectError, SignedTransaction, SignerKey, TransferInstruction,
    ValidatorIdentity,
};

fn key_from(kp: &Keypair) -> SignerKey {
    SignerKey::new(kp.to_bytes())
}

fn transfer_from(kp: &Keypair, to: u8, lamports: u64) -> TransferInstruction {
    TransferInstruction {
        from: ValidatorIdentity::new(kp.pubkey().to_bytes()),
        to: ValidatorIdentity::new([to; 32]),
        lamports,
    }
}

#[test]
fn signing_twice_gives_identical_bytes() {
    let kp = Keypair::new();
    let key = key_from(&kp);
    let ix = transfer_from(&kp, 9, 10_000_000);
    let payer = key.identity();
    let anchor = [5u8; 32];
    let t1 = build_and_sign(&ix, &payer, &vec![key], &anchor).unwrap();
    let t2 = build_and_sign(&ix, &payer, &vec![key], &anchor).unwrap();
    assert_eq!(t1.wire_bytes(), t2.wire_bytes());
}

#[test]
fn signed_bytes_decode_to_a_verified_transfer() {
    let kp = Keypair::new();
    let key = key_from(&kp);
    let ix = transfer_from(&kp, 9, 10_000_000);
    let anchor = [7u8; 32];
    let t = build_and_sign(&ix, &key.identity(), &vec![key], &anchor).unwrap();
    assert_eq!(t.wire_bytes().len(), 215);
    let tx: Transaction = bincode::deserialize(t.wire_bytes()).unwrap();
    assert!(tx.verify().is_ok());
    assert_eq!(tx.message.recent_blockhash, solana_sdk::hash::Hash::new_from_array(anchor));
    assert_eq!(tx.message.account_keys[0], kp.pubkey());
    let other = build_and_sign(&transfer_from(&kp, 9, 10_000_001), &key.identity(), &vec![key], &anchor)
        .unwrap();
    assert_ne!(other.wire_bytes(), t.wire_bytes());
}

#[test]
fn signer_is_picked_from_the_set() {
    let kp = Keypair::new();
    let stranger = Keypair::new();
    let key = key_from(&kp);
    let ix = transfer_from(&kp, 1, 1);
    let anchor = [1u8; 32];
    let alone = build_and_sign(&ix, &key.identity(), &vec![key], &anchor).unwrap();
    let among = build_and_sign(&ix, &key.identity(), &vec![key_from(&stranger), key], &anchor).unwrap();
    assert_eq!(alone.wire_bytes(), among.wire_bytes());
}

#[test]
fn unauthorized_payer_is_a_signing_error() {
    let kp = Keypair::new();
    let stranger = Keypair::new();
    let ix = transfer_from(&kp, 1, 1);
    let anchor = [1u8; 32];
    let payer = ValidatorIdentity::new(kp.pubkey().to_bytes());
    let r = build_and_sign(&ix, &payer, &vec![key_from(&stranger)], &anchor);
    assert_eq!(r.err(), Some(DirectError::SigningError));
    let r = build_and_sign(&ix, &payer, &Vec::new(), &anchor);
    assert_eq!(r.err(), Some(DirectError::SigningError));
    let other_payer = ValidatorIdentity::new(stranger.pubkey().to_bytes());
    let r = build_and_sign(&ix, &other_payer, &vec![key_from(&stranger)], &anchor);
    assert_eq!(r.err(), Some(DirectError::SigningError));
}

#[test]
fn mismatched_key_material_is_a_credential_error() {
    let kp = Keypair::new();
    let other = Keypair::new();
    let mut bytes = kp.to_bytes();
    bytes[..32].copy_from_slice(&other.to_bytes()[..32]);
    let key = SignerKey::new(bytes);
    let payer = key.identity();
    assert_eq!(payer.bytes, kp.pubkey().to_bytes());
    let ix = transfer_from(&kp, 1, 1);
    let r = build_and_sign(&ix, &payer, &vec![key], &[0u8; 32]);
    assert_eq!(r.err(), Some(DirectError::CredentialError));
}

#[test]
fn seal_maps_rejection_to_credential_error() {
    assert_eq!(SignedTransaction::seal(None).err(), Some(DirectError::CredentialError));
    let t = SignedTransaction::seal(Some(vec![1, 2, 3])).unwrap();
    assert_eq!(t.wire_bytes(), &vec![1u8, 2, 3]);
}
