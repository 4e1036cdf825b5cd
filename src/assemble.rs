use vstd::prelude::*;

use solana_sdk::pubkey::Pubkey;
use solana_sdk::signature::{Keypair, Signer};
use solana_sdk::system_instruction;
use solana_sdk::transaction::Transaction;

use crate::error::DirectError;
use crate::identity::ValidatorIdentity;

verus! {

/// The wire encoding of the transfer of `lamports` to `to`, paid and signed by
/// the keypair whose 64 bytes are `key`, against the freshness anchor
/// `anchor`; `None` when the key material is rejected.
pub uninterp spec fn signed_transfer_wire(
    key: Seq<u8>,
    to: Seq<u8>,
    lamports: u64,
    anchor: Seq<u8>,
) -> Option<Seq<u8>>;

/// Relies on solana_sdk's `Keypair::from_bytes` (rejects key material whose
/// public half does not match its secret half), `system_instruction::transfer`
/// and `Transaction::new_signed_with_payer` (the keypair pays and signs), and
/// on bincode's `serialize` for the wire encoding. Ed25519 signing is
/// deterministic, so the bytes depend on the arguments alone.
#[verifier::external_body]
fn sign_transfer_wire(key: &[u8; 64], to: &[u8; 32], lamports: u64, anchor: &[u8; 32]) -> (r:
    Option<Vec<u8>>)
    ensures
        r matches Some(b) ==> signed_transfer_wire(key@, to@, lamports, anchor@) == Some(b@),
        r is None ==> signed_transfer_wire(key@, to@, lamports, anchor@) is None,
{
    let keypair = Keypair::from_bytes(key).ok()?;
    let payer = keypair.pubkey();
    let ix = system_instruction::transfer(&payer, &Pubkey::new_from_array(*to), lamports);
    let blockhash = solana_sdk::hash::Hash::new_from_array(*anchor);
    let tx = Transaction::new_signed_with_payer(&[ix], Some(&payer), &[&keypair], blockhash);
    bincode::serialize(&tx).ok()
}

/// A transfer of native tokens from one account to another.
#[derive(Clone, Copy, Debug)]
pub struct TransferInstruction {
    pub from: ValidatorIdentity,
    pub to: ValidatorIdentity,
    pub lamports: u64,
}

/// Ed25519 key material in the 64-byte keypair layout: the secret half, then
/// the public half.
#[derive(Clone, Copy)]
pub struct SignerKey {
    pub bytes: [u8; 64],
}

impl View for SignerKey {
    type V = Seq<u8>;

    open spec fn view(&self) -> Seq<u8> {
        self.bytes@
    }
}

/// The identity that key material `k` signs for: its public half.
pub open spec fn key_identity(k: Seq<u8>) -> Seq<u8> {
    k.subrange(32, 64)
}

/// `i` is the first signer in `s` that can sign for `id`.
pub open spec fn first_signer_for(s: Seq<SignerKey>, id: Seq<u8>, i: int) -> bool {
    &&& 0 <= i < s.len()
    &&& key_identity(s[i]@) == id
    &&& forall|j: int| 0 <= j < i ==> key_identity(#[trigger] s[j]@) != id
}

/// How the encoding step's outcome becomes the assembler's result.
pub open spec fn sealed(w: Option<Seq<u8>>) -> Result<Seq<u8>, DirectError> {
    match w {
        Some(b) => Ok(b),
        None => Err(DirectError::CredentialError),
    }
}

/// What assembling `ix`, paid by `payer`, with `signers` against `anchor`
/// yields: `SigningError` when the source is not the payer or no key signs
/// for the payer; otherwise the encoding made with the first key that does.
pub open spec fn signing_outcome(
    ix: TransferInstruction,
    payer: Seq<u8>,
    signers: Seq<SignerKey>,
    anchor: Seq<u8>,
    out: Result<Seq<u8>, DirectError>,
) -> bool {
    if ix.from@ != payer || forall|i: int|
        0 <= i < signers.len() ==> key_identity(#[trigger] signers[i]@) != payer {
        out == Err::<Seq<u8>, DirectError>(DirectError::SigningError)
    } else {
        exists|i: int|
            first_signer_for(signers, payer, i) && out == sealed(
                signed_transfer_wire(signers[i]@, ix.to@, ix.lamports, anchor),
            )
    }
}

/// Identical instruction, payer, key material and anchor give identical
/// results: the same signed bytes, or the same error.
pub proof fn lemma_signing_deterministic(
    ix: TransferInstruction,
    payer: Seq<u8>,
    signers: Seq<SignerKey>,
    anchor: Seq<u8>,
    out1: Result<Seq<u8>, DirectError>,
    out2: Result<Seq<u8>, DirectError>,
)
    requires
        signing_outcome(ix, payer, signers, anchor, out1),
        signing_outcome(ix, payer, signers, anchor, out2),
    ensures
        out1 == out2,
{
    if !(ix.from@ != payer || forall|i: int|
        0 <= i < signers.len() ==> key_identity(#[trigger] signers[i]@) != payer) {
        let i1 = choose|i: int|
            first_signer_for(signers, payer, i) && out1 == sealed(
                signed_transfer_wire(signers[i]@, ix.to@, ix.lamports, anchor),
            );
        let i2 = choose|i: int|
            first_signer_for(signers, payer, i) && out2 == sealed(
                signed_transfer_wire(signers[i]@, ix.to@, ix.lamports, anchor),
            );
        if i1 < i2 {
            assert(key_identity(signers[i1]@) == payer);
        } else if i2 < i1 {
            assert(key_identity(signers[i2]@) == payer);
        }
    }
}

impl SignerKey {
    pub fn new(bytes: [u8; 64]) -> (r: SignerKey)
        ensures
            r@ == bytes@,
    {
        SignerKey { bytes }
    }

    /// The identity this key signs for.
    pub fn identity(&self) -> (r: ValidatorIdentity)
        ensures
            r@ == key_identity(self@),
    {
        broadcast use vstd::array::group_array_axioms;
        let mut out: [u8; 32] = [0u8; 32];
        let mut i: usize = 0;
        while i < 32
            invariant
                i <= 32,
                self@.len() == 64,
                out@.len() == 32,
                forall|j: int| 0 <= j < i ==> out@[j] == self@[j + 32],
            decreases 32 - i,
        {
            out[i] = self.bytes[i + 32];
            i = i + 1;
        }
        let r = ValidatorIdentity::new(out);
        assert(r@ =~= key_identity(self@));
        r
    }
}

/// A signed transaction, held in its wire encoding.
pub struct SignedTransaction {
    wire: Vec<u8>,
}

impl View for SignedTransaction {
    type V = Seq<u8>;

    closed spec fn view(&self) -> Seq<u8> {
        self.wire@
    }
}

/// The assembler's result seen through the wire bytes.
pub open spec fn outcome_view(r: Result<SignedTransaction, DirectError>) -> Result<
    Seq<u8>,
    DirectError,
> {
    match r {
        Ok(t) => Ok(t@),
        Err(e) => Err(e),
    }
}

impl SignedTransaction {
    /// Turns the outcome of the encoding step into the assembler's result:
    /// rejected key material is a `CredentialError`.
    pub fn seal(wire: Option<Vec<u8>>) -> (r: Result<SignedTransaction, DirectError>)
        ensures
            outcome_view(r) == sealed(
                match wire {
                    Some(b) => Some(b@),
                    None => None,
                },
            ),
    {
        match wire {
            Some(b) => Ok(SignedTransaction { wire: b }),
            None => Err(DirectError::CredentialError),
        }
    }

    /// The canonical wire encoding, as written to a connection.
    pub fn wire_bytes(&self) -> (r: &Vec<u8>)
        ensures
            r@ == self@,
    {
        &self.wire
    }
}

/// Builds and signs `instruction`, paid by `payer`, with the first key of
/// `signers` that signs for the payer, against the freshness anchor.
/// `SigningError` when the instruction's source is not the payer (the source
/// must sign too) or no key signs for the payer.
pub fn build_and_sign(
    instruction: &TransferInstruction,
    payer: &ValidatorIdentity,
    signers: &Vec<SignerKey>,
    anchor: &[u8; 32],
) -> (r: Result<SignedTransaction, DirectError>)
    ensures
        signing_outcome(*instruction, payer@, signers@, anchor@, outcome_view(r)),
{
    if !instruction.from.same_as(payer) {
        return Err(DirectError::SigningError);
    }
    let mut i: usize = 0;
    while i < signers.len()
        invariant
            i <= signers@.len(),
            instruction.from@ == payer@,
            forall|j: int| 0 <= j < i ==> key_identity(#[trigger] signers@[j]@) != payer@,
        decreases signers.len() - i,
    {
        let key = &signers[i];
        if key.identity().same_as(payer) {
            let wire = sign_transfer_wire(&key.bytes, &instruction.to.bytes, instruction.lamports, anchor);
            let r = SignedTransaction::seal(wire);
            assert(first_signer_for(signers@, payer@, i as int));
            assert(r is Err ==> r->Err_0 == DirectError::CredentialError);
            assert(key_identity(signers@[i as int]@) == payer@);
            return r;
        }
        i = i + 1;
    }
    Err(DirectError::SigningError)
}

} // verus!
