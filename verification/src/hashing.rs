use vstd::prelude::*;

use crate::felt::Felt;
use crate::multicall::felt_vals;

verus! {

/// How a name handed to a hashing collaborator can be rejected.
#[derive(Clone, Copy, Debug, PartialEq, Eq, Structural)]
pub enum NameError {
    /// The name is not ASCII, so no selector or address can be derived.
    NonAscii,
}

/// Whether every byte is a 7-bit code, so that the bytes form an ASCII string.
pub open spec fn ascii_only(s: Seq<u8>) -> bool {
    forall|i: int| 0 <= i < s.len() ==> s[i] < 128
}

/// The selector derived from a function name: what starknet's
/// `get_selector_from_name` returns for these bytes. The result depends on
/// the bytes alone.
pub uninterp spec fn selector_hash(name: Seq<u8>) -> nat;

/// The truncated Keccak digest that starknet's `starknet_keccak` computes.
/// The result depends on the bytes alone.
pub uninterp spec fn keccak_hash(data: Seq<u8>) -> nat;

/// The Pedersen hash of two field elements, as starknet's `pedersen_hash`
/// computes it. The result depends on the two values alone.
pub uninterp spec fn pedersen_hash_of(x: nat, y: nat) -> nat;

/// Relies on starknet's `get_selector_from_name`: it returns a field element
/// (the truncated Keccak of the name, or zero for the two built-in default
/// entry points) whenever the name is ASCII, and fails exactly otherwise.
#[verifier::external_body]
pub(crate) fn selector_from_bytes(name: &[u8]) -> (r: Option<Felt>)
    ensures
        match r {
            Some(f) => f.wf() && f.val() == selector_hash(name@) && ascii_only(name@),
            None => !ascii_only(name@),
        },
{
    let s = match core::str::from_utf8(name) {
        Ok(s) => s,
        Err(_) => return None,
    };
    match starknet::core::utils::get_selector_from_name(s) {
        Ok(f) => Some(Felt::from_bytes_vec(f.to_bytes_be().to_vec())),
        Err(_) => None,
    }
}

/// Relies on starknet's `starknet_keccak`: a Keccak-256 with the six most
/// significant bits cleared, so the result is always a valid field element.
#[verifier::external_body]
pub(crate) fn keccak_call(data: &[u8]) -> (r: Felt)
    ensures
        r.wf(),
        r.val() == keccak_hash(data@),
{
    let h = starknet::core::utils::starknet_keccak(data);
    Felt::from_bytes_vec(h.to_bytes_be().to_vec())
}

/// Relies on starknet's `pedersen_hash`: a hash of two field elements whose
/// result is again a field element.
#[verifier::external_body]
pub(crate) fn pedersen_call(x: &Felt, y: &Felt) -> (r: Felt)
    requires
        x.wf(),
        y.wf(),
    ensures
        r.wf(),
        r.val() == pedersen_hash_of(x.val(), y.val()),
{
    let mut xa = [0u8; 32];
    xa.copy_from_slice(x.as_bytes_slice());
    let mut ya = [0u8; 32];
    ya.copy_from_slice(y.as_bytes_slice());
    let fx = starknet::core::types::Felt::from_bytes_be(&xa);
    let fy = starknet::core::types::Felt::from_bytes_be(&ya);
    let h = starknet::core::crypto::pedersen_hash(&fx, &fy);
    Felt::from_bytes_vec(h.to_bytes_be().to_vec())
}

/// The storage slot address of a named contract variable under these keys,
/// as starknet's `get_storage_var_address` derives it. The result depends
/// on the name and the key values alone.
pub uninterp spec fn storage_address_of(name: Seq<u8>, keys: Seq<nat>) -> nat;

/// The deployed contract address that starknet's `get_contract_address`
/// derives from these ingredients. The result depends on the values alone.
pub uninterp spec fn contract_address_of(
    salt: nat,
    class_hash: nat,
    calldata: Seq<nat>,
    deployer: nat,
) -> nat;

/// Relies on starknet's `get_storage_var_address`: a Keccak-and-Pedersen
/// chain over the name and keys, normalized to a valid address, that fails
/// exactly on a non-ASCII name.
#[verifier::external_body]
pub(crate) fn storage_address_call(var_name: &[u8], keys: &Vec<Felt>) -> (r: Option<Felt>)
    requires
        forall|i: int| 0 <= i < keys@.len() ==> (#[trigger] keys@[i]).wf(),
    ensures
        match r {
            Some(f) => f.wf() && f.val() == storage_address_of(var_name@, felt_vals(keys@))
                && ascii_only(var_name@),
            None => !ascii_only(var_name@),
        },
{
    let s = match core::str::from_utf8(var_name) {
        Ok(s) => s,
        Err(_) => return None,
    };
    let cv = |f: &Felt| {
        let mut a = [0u8; 32];
        a.copy_from_slice(f.as_bytes_slice());
        starknet::core::types::Felt::from_bytes_be(&a)
    };
    let ks: Vec<starknet::core::types::Felt> = keys.iter().map(cv).collect();
    match starknet::core::utils::get_storage_var_address(s, &ks) {
        Ok(f) => Some(Felt::from_bytes_vec(f.to_bytes_be().to_vec())),
        Err(_) => None,
    }
}

/// Relies on starknet's `get_contract_address`: the normalized
/// hash-on-elements of the deployment ingredients, always a valid address.
#[verifier::external_body]
pub(crate) fn contract_address_call(
    salt: &Felt,
    class_hash: &Felt,
    calldata: &Vec<Felt>,
    deployer: &Felt,
) -> (r: Felt)
    requires
        salt.wf(),
        class_hash.wf(),
        deployer.wf(),
        forall|i: int| 0 <= i < calldata@.len() ==> (#[trigger] calldata@[i]).wf(),
    ensures
        r.wf(),
        r.val() == contract_address_of(
            salt.val(),
            class_hash.val(),
            felt_vals(calldata@),
            deployer.val(),
        ),
{
    let cv = |f: &Felt| {
        let mut a = [0u8; 32];
        a.copy_from_slice(f.as_bytes_slice());
        starknet::core::types::Felt::from_bytes_be(&a)
    };
    let cd: Vec<starknet::core::types::Felt> = calldata.iter().map(cv).collect();
    let a = starknet::core::utils::get_contract_address(cv(salt), cv(class_hash), &cd, cv(deployer));
    Felt::from_bytes_vec(a.to_bytes_be().to_vec())
}

} // verus!
