use vstd::prelude::*;

use std::str::FromStr;

use solana_sdk::pubkey::Pubkey;

use crate::error::DirectError;

verus! {

/// The 32 bytes that the base58 text `text` encodes, if it is a public key.
pub uninterp spec fn decoded_pubkey(text: Seq<char>) -> Option<Seq<u8>>;

/// Relies on solana_sdk's `Pubkey::from_str`: base58 text that decodes to
/// exactly 32 bytes; the empty text decodes to no bytes and is rejected.
#[verifier::external_body]
fn pubkey_from_text(text: &str) -> (r: Option<[u8; 32]>)
    ensures
        r matches Some(b) ==> decoded_pubkey(text@) == Some(b@),
        r is None ==> decoded_pubkey(text@) is None,
        text@.len() == 0 ==> r is None,
{
    Pubkey::from_str(text).ok().map(|k| k.to_bytes())
}

/// Length in bytes of a validator or client identity (an ed25519 public key).
pub const IDENTITY_LEN: usize = 32;

/// The public key that names a network participant. It is the join key
/// between the stake records and the contact records of the cluster.
#[derive(Clone, Copy, Debug, Hash)]
pub struct ValidatorIdentity {
    pub bytes: [u8; 32],
}

impl View for ValidatorIdentity {
    type V = Seq<u8>;

    open spec fn view(&self) -> Seq<u8> {
        self.bytes@
    }
}

impl ValidatorIdentity {
    pub fn new(bytes: [u8; 32]) -> (r: ValidatorIdentity)
        ensures
            r@ == bytes@,
    {
        ValidatorIdentity { bytes }
    }

    /// Reads an identity from its base58 text, as cluster queries report it.
    /// Text that is not a public key is a malformed response: `QueryError`.
    pub fn parse(text: &str) -> (r: Result<ValidatorIdentity, DirectError>)
        ensures
            match decoded_pubkey(text@) {
                Some(b) => r matches Ok(id) && id@ == b,
                None => r == Err::<ValidatorIdentity, DirectError>(DirectError::QueryError),
            },
    {
        match pubkey_from_text(text) {
            Some(bytes) => Ok(ValidatorIdentity { bytes }),
            None => Err(DirectError::QueryError),
        }
    }

    /// Byte-wise comparison of two identities.
    pub fn same_as(&self, other: &ValidatorIdentity) -> (r: bool)
        ensures
            r == (self@ == other@),
    {
        broadcast use vstd::array::group_array_axioms;
        let mut i: usize = 0;
        while i < IDENTITY_LEN
            invariant
                self@.len() == IDENTITY_LEN,
                other@.len() == IDENTITY_LEN,
                i <= IDENTITY_LEN,
                forall|j: int| 0 <= j < i ==> self@[j] == other@[j],
            decreases IDENTITY_LEN - i,
        {
            if self.bytes[i] != other.bytes[i] {
                return false;
            }
            i = i + 1;
        }
        assert(self@ =~= other@);
        true
    }
}

impl PartialEq for ValidatorIdentity {
    fn eq(&self, other: &ValidatorIdentity) -> (r: bool) {
        self.same_as(other)
    }
}

impl vstd::std_specs::cmp::PartialEqSpecImpl for ValidatorIdentity {
    open spec fn obeys_eq_spec() -> bool {
        true
    }

    open spec fn eq_spec(&self, other: &ValidatorIdentity) -> bool {
        self@ == other@
    }
}

impl Eq for ValidatorIdentity {
}

/// A network address without its port.
#[derive(PartialEq, Eq, Structural, Clone, Copy, Debug, Hash)]
pub enum IpAddress {
    /// An IPv4 address as its 32-bit big-endian value.
    V4(u32),
    /// An IPv6 address as its 128-bit big-endian value.
    V6(u128),
}

/// A transport endpoint: address and port.
#[derive(PartialEq, Eq, Structural, Clone, Copy, Debug, Hash)]
pub struct Endpoint {
    pub ip: IpAddress,
    pub port: u16,
}

} // verus!
