//! Signed requests to rename a token.

use vstd::prelude::*;
use vstd::string::*;

use crate::eth::{address_bytes, amount_bytes, Address, U256};
use crate::nftrout::TokenId;

verus! {

/// The signing domain of name requests.
pub const DOMAIN_NAME: &'static str = "NameRequest";

pub const DOMAIN_VERSION: &'static str = "1";

pub const DOMAIN_CHAIN_ID: u64 = 23294;

/// The type of a name request, as signers see it.
pub const TYPE_SIGNATURE: &'static str = "NameRequest(uint256 trout,string name)";

/// The Keccak-256 hash of `bytes`, as `ethers::utils::keccak256` computes it.
pub uninterp spec fn keccak(bytes: Seq<u8>) -> Seq<u8>;

/// The separator of the signing domain with the given name, version,
/// chain and verifying contract, and without salt, as
/// `EIP712Domain::separator` of `ethers` computes it.
pub uninterp spec fn domain_separator(
    name: Seq<char>,
    version: Seq<char>,
    chain_id: u64,
    contract: Seq<u8>,
) -> Seq<u8>;

/// Whether `signature` is a signature of `digest` by the account `whom`,
/// as `Signature::verify` of `ethers` decides it.
pub uninterp spec fn signed_by(signature: Seq<u8>, digest: Seq<u8>, whom: Seq<u8>) -> bool;

/// `ethers::utils::keccak256`: the Keccak-256 hash of `bytes`.
#[verifier::external_body]
fn keccak256(bytes: &Vec<u8>) -> (res: [u8; 32])
    ensures
        res@ == keccak(bytes@),
{
    ethers::utils::keccak256(bytes)
}

/// `ethers::types::transaction::eip712::EIP712Domain::separator`, on a
/// domain with a name, a version, a chain and a verifying contract, and
/// without salt.
#[verifier::external_body]
fn eip712_separator(name: &str, version: &str, chain_id: u64, contract: &Vec<u8>) -> (res: [u8; 32])
    requires
        contract@.len() == 20,
    ensures
        res@ == domain_separator(name@, version@, chain_id, contract@),
{
    ethers::types::transaction::eip712::EIP712Domain {
        name: Some(name.to_string()),
        version: Some(version.to_string()),
        chain_id: Some(chain_id.into()),
        verifying_contract: Some(ethers::types::H160::from_slice(contract)),
        salt: None,
    }.separator()
}

/// `ethers::types::Signature::verify` on the signature that
/// `Signature::try_from` reads from 65 bytes: whether the account that
/// signed `digest` is `whom`. A signature that cannot be read or
/// recovered verifies for nobody.
#[verifier::external_body]
fn signature_verifies(signature: &[u8; 65], digest: [u8; 32], whom: &Vec<u8>) -> (res: bool)
    requires
        whom@.len() == 20,
    ensures
        res == signed_by(signature@, digest@, whom@),
{
    match ethers::types::Signature::try_from(&signature[..]) {
        Ok(sig) => sig.verify(digest, ethers::types::H160::from_slice(whom)).is_ok(),
        Err(_) => false,
    }
}

/// A request to give a token a name.
#[derive(Debug, Default)]
pub struct NameRequest {
    pub trout: U256,
    pub name: String,
}

/// What is hashed of a request: the hash of its type, the token number
/// as thirty-two bytes, and the hash of the name.
pub open spec fn struct_preimage(type_hash: Seq<u8>, trout: U256, name_hash: Seq<u8>) -> Seq<u8> {
    type_hash + amount_bytes(trout) + name_hash
}

/// What is hashed for signing: the two marker bytes, the separator of the
/// domain, and the hash of the request.
pub open spec fn digest_preimage(separator: Seq<u8>, struct_hash: Seq<u8>) -> Seq<u8> {
    seq![0x19u8, 0x01u8] + separator + struct_hash
}

/// The account that verifies no contract.
pub open spec fn no_contract() -> Address {
    Address { high: 0, low: 0 }
}

/// The hash that the signer of a request signs.
pub open spec fn request_digest(trout: U256, name: Seq<char>) -> Seq<u8> {
    keccak(
        digest_preimage(
            domain_separator(
                DOMAIN_NAME@,
                DOMAIN_VERSION@,
                DOMAIN_CHAIN_ID,
                address_bytes(no_contract()),
            ),
            keccak(
                struct_preimage(
                    keccak(vstd::utf8::encode_utf8(TYPE_SIGNATURE@)),
                    trout,
                    keccak(vstd::utf8::encode_utf8(name)),
                ),
            ),
        ),
    )
}

fn extend(out: &mut Vec<u8>, hash: &[u8; 32])
    ensures
        final(out)@ == old(out)@ + hash@,
{
    let mut i: usize = 0;
    assert(old(out)@ + hash@.take(0) =~= old(out)@);
    while i < 32
        invariant
            i <= 32,
            out@ == old(out)@ + hash@.take(i as int),
        decreases 32 - i,
    {
        out.push(hash[i]);
        assert(hash@.take(i as int + 1) =~= hash@.take(i as int).push(hash@[i as int]));
        assert(out@ =~= old(out)@ + hash@.take(i as int + 1));
        i += 1;
    }
    assert(hash@.take(32) =~= hash@);
}

/// The bytes that are hashed of a request.
pub fn frame_struct(type_hash: &[u8; 32], trout: &U256, name_hash: &[u8; 32]) -> (res: Vec<u8>)
    ensures
        res@ == struct_preimage(type_hash@, *trout, name_hash@),
{
    let mut out: Vec<u8> = Vec::new();
    extend(&mut out, type_hash);
    let mut number = trout.to_bytes();
    out.append(&mut number);
    extend(&mut out, name_hash);
    assert(out@ =~= struct_preimage(type_hash@, *trout, name_hash@));
    out
}

/// The bytes that are hashed for signing.
pub fn frame_digest(separator: &[u8; 32], struct_hash: &[u8; 32]) -> (res: Vec<u8>)
    ensures
        res@ == digest_preimage(separator@, struct_hash@),
{
    let mut out: Vec<u8> = Vec::new();
    out.push(0x19);
    out.push(0x01);
    extend(&mut out, separator);
    extend(&mut out, struct_hash);
    assert(out@ =~= digest_preimage(separator@, struct_hash@));
    out
}

impl NameRequest {
    /// A request to name the token `trout`.
    pub fn new(trout: TokenId, name: String) -> (res: Self)
        ensures
            res.trout == (U256 { high: 0, low: trout as u128 }),
            res.name@ == name@,
    {
        NameRequest { trout: U256::from_u64(trout as u64), name: name }
    }

    /// The hash that the signer of the request signs.
    pub fn hash(&self) -> (res: [u8; 32])
        ensures
            res@ == request_digest(self.trout, self.name@),
    {
        let type_hash = keccak256(&TYPE_SIGNATURE.as_bytes_vec());
        let name_hash = keccak256(&self.name.as_str().as_bytes_vec());
        let struct_hash = keccak256(&frame_struct(&type_hash, &self.trout, &name_hash));
        let contract = Address { high: 0, low: 0 }.to_bytes();
        let separator = eip712_separator(DOMAIN_NAME, DOMAIN_VERSION, DOMAIN_CHAIN_ID, &contract);
        keccak256(&frame_digest(&separator, &struct_hash))
    }

    /// Whether `sig` is the signature of this request by `whom`.
    pub fn verify(&self, sig: &[u8; 65], whom: Address) -> (res: bool)
        ensures
            res == signed_by(
                sig@,
                request_digest(self.trout, self.name@),
                address_bytes(whom),
            ),
    {
        let account = whom.to_bytes();
        signature_verifies(sig, self.hash(), &account)
    }
}

} // verus!
