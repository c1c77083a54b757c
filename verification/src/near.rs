//! The NEAR runtime as the interpreter sees it: chain context, storage,
//! hashing, signatures and promises, each one call into `near_sdk`.
use vstd::prelude::*;
use near_sdk::{AccountId, Gas, NearToken, Promise};

verus! {

#[verifier::external_type_specification]
#[verifier::external_body]
pub struct ExPromise(Promise);

/// Height of the current block (`near_sdk::env::block_height`).
#[verifier::external_body]
pub(crate) fn block_height() -> u64 {
    near_sdk::env::block_height()
}

/// Timestamp of the current block in nanoseconds (`near_sdk::env::block_timestamp`).
#[verifier::external_body]
pub(crate) fn block_timestamp() -> u64 {
    near_sdk::env::block_timestamp()
}

/// The calling account (`near_sdk::env::predecessor_account_id`), as text.
#[verifier::external_body]
pub(crate) fn predecessor_account_id() -> String {
    near_sdk::env::predecessor_account_id().to_string()
}

/// The signing account (`near_sdk::env::signer_account_id`), as text.
#[verifier::external_body]
pub(crate) fn signer_account_id() -> String {
    near_sdk::env::signer_account_id().to_string()
}

/// This contract's account (`near_sdk::env::current_account_id`), as text.
#[verifier::external_body]
pub(crate) fn current_account_id() -> String {
    near_sdk::env::current_account_id().to_string()
}

/// Balance of this contract in yoctoNEAR (`near_sdk::env::account_balance`).
#[verifier::external_body]
pub(crate) fn account_balance() -> u128 {
    near_sdk::env::account_balance().as_yoctonear()
}

/// Locked balance in yoctoNEAR (`near_sdk::env::account_locked_balance`).
#[verifier::external_body]
pub(crate) fn account_locked_balance() -> u128 {
    near_sdk::env::account_locked_balance().as_yoctonear()
}

/// Deposit attached to this call in yoctoNEAR (`near_sdk::env::attached_deposit`).
#[verifier::external_body]
pub(crate) fn attached_deposit() -> u128 {
    near_sdk::env::attached_deposit().as_yoctonear()
}

/// Most bytes the runtime accepts in the logs of one call.
pub const MAX_LOG_BYTES: usize = 16384;

/// How many log lines the library writes in one call at most: the
/// runtime's 100, less 4 lines left to the contract's own event lines.
pub const LIB_LOG_LINES: u64 = 96;

/// How many bytes of logs the library writes in one call at most: the
/// runtime's 16 KiB, less 1 KiB left to the contract's own event lines.
pub const LIB_LOG_BYTES: u64 = 15360;

/// Writes a log line (`near_sdk::env::log_str`). `lines_before` and
/// `bytes_before` are the number and total size of the log lines the
/// library has already written in this call. The runtime aborts a call on
/// its 101st log line or once its logs pass 16 KiB in all; the `requires`
/// keeps the library within `LIB_LOG_LINES` lines and `LIB_LOG_BYTES`
/// bytes, which leaves room for the contract's own few event lines. That
/// the counts passed are the true ones, and that those event lines fit in
/// what is left, is the caller's part and is not checked here.
#[verifier::external_body]
pub(crate) fn log_str(message: &str, lines_before: u64, bytes_before: u64)
    requires
        lines_before < LIB_LOG_LINES,
        bytes_before + utf8_bytes(message@).len() <= LIB_LOG_BYTES,
{
    near_sdk::env::log_str(message)
}

/// Most bytes the runtime accepts in a storage key.
pub const MAX_STORAGE_KEY_BYTES: usize = 2048;

/// Most bytes the runtime accepts in a stored value.
pub const MAX_STORAGE_VALUE_BYTES: usize = 4194304;

/// The UTF-8 bytes of a text.
pub open spec fn utf8_bytes(s: Seq<char>) -> Seq<u8> {
    vstd::utf8::encode_utf8(s)
}

/// Writes a value under a storage key (`near_sdk::env::storage_write`); true when a
/// value was already there. The runtime aborts on a key over 2048 bytes or a
/// value over 4 MiB, so neither is admitted.
#[verifier::external_body]
pub(crate) fn storage_write(key: &str, value: &str) -> bool
    requires
        utf8_bytes(key@).len() <= MAX_STORAGE_KEY_BYTES,
        utf8_bytes(value@).len() <= MAX_STORAGE_VALUE_BYTES,
{
    near_sdk::env::storage_write(key.as_bytes(), value.as_bytes())
}

/// Reads the value under a storage key (`near_sdk::env::storage_read`); the
/// key is at most 2048 bytes.
#[verifier::external_body]
pub(crate) fn storage_read(key: &str) -> Option<Vec<u8>>
    requires
        utf8_bytes(key@).len() <= MAX_STORAGE_KEY_BYTES,
{
    near_sdk::env::storage_read(key.as_bytes())
}

/// Removes the value under a storage key (`near_sdk::env::storage_remove`); true when
/// one was there. The key is at most 2048 bytes.
#[verifier::external_body]
pub(crate) fn storage_remove(key: &str) -> bool
    requires
        utf8_bytes(key@).len() <= MAX_STORAGE_KEY_BYTES,
{
    near_sdk::env::storage_remove(key.as_bytes())
}

/// Whether a storage key holds a value (`near_sdk::env::storage_has_key`); the
/// key is at most 2048 bytes.
#[verifier::external_body]
pub(crate) fn storage_has_key(key: &str) -> bool
    requires
        utf8_bytes(key@).len() <= MAX_STORAGE_KEY_BYTES,
{
    near_sdk::env::storage_has_key(key.as_bytes())
}

/// SHA-256 of a byte string.
pub uninterp spec fn sha256_of(data: Seq<u8>) -> Seq<u8>;

/// `near_sdk::env::sha256`: the SHA-256 digest of the bytes of `data` (32 bytes).
#[verifier::external_body]
pub(crate) fn sha256(data: &str) -> (r: Vec<u8>)
    ensures
        r@ == sha256_of(vstd::string::StringSliceAdditionalSpecFns::spec_bytes(data)),
        r@.len() == 32,
{
    near_sdk::env::sha256(data.as_bytes())
}

/// Keccak-256 of a byte string.
pub uninterp spec fn keccak256_of(data: Seq<u8>) -> Seq<u8>;

/// `near_sdk::env::keccak256`: the Keccak-256 digest of the bytes of `data` (32 bytes).
#[verifier::external_body]
pub(crate) fn keccak256(data: &str) -> (r: Vec<u8>)
    ensures
        r@ == keccak256_of(vstd::string::StringSliceAdditionalSpecFns::spec_bytes(data)),
        r@.len() == 32,
{
    near_sdk::env::keccak256(data.as_bytes())
}

/// Whether `sig` is a valid ed25519 signature of `msg` under `pk`.
pub uninterp spec fn ed25519_valid(sig: Seq<u8>, msg: Seq<u8>, pk: Seq<u8>) -> bool;

/// `near_sdk::env::ed25519_verify` on a 64-byte signature and a 32-byte key.
#[verifier::external_body]
pub(crate) fn ed25519_verify(sig: &Vec<u8>, msg: &str, pk: &Vec<u8>) -> (r: bool)
    requires
        sig@.len() == 64,
        pk@.len() == 32,
    ensures
        r == ed25519_valid(sig@, vstd::string::StringSliceAdditionalSpecFns::spec_bytes(msg), pk@),
{
    let s: [u8; 64] = sig.as_slice().try_into().unwrap();
    let k: [u8; 32] = pk.as_slice().try_into().unwrap();
    near_sdk::env::ed25519_verify(&s, msg.as_bytes(), &k)
}

/// The public key that ECDSA recovery yields, if any.
pub uninterp spec fn ecrecover_of(hash: Seq<u8>, sig: Seq<u8>, v: u8, malleability: bool) -> Option<Seq<u8>>;

/// `near_sdk::env::ecrecover` on a 32-byte hash, a 64-byte signature and a
/// recovery byte below 4 (the host refuses, and aborts, on anything else).
#[verifier::external_body]
pub(crate) fn ecrecover(hash: &Vec<u8>, sig: &Vec<u8>, v: u8, malleability: bool) -> (r: Option<Vec<u8>>)
    requires
        hash@.len() == 32,
        sig@.len() == 64,
        v < 4,
    ensures
        match r {
            Some(k) => ecrecover_of(hash@, sig@, v, malleability) == Some(k@) && k@.len() == 64,
            None => ecrecover_of(hash@, sig@, v, malleability) is None,
        },
{
    near_sdk::env::ecrecover(hash, sig, v, malleability).map(|k| k.to_vec())
}

/// Whether a text is a valid NEAR account id.
pub uninterp spec fn account_id_ok(s: Seq<char>) -> bool;

/// `AccountId::from_str` succeeds.
#[verifier::external_body]
pub(crate) fn is_valid_account_id(s: &str) -> (r: bool)
    ensures
        r == account_id_ok(s@),
{
    s.parse::<AccountId>().is_ok()
}

/// `Promise::new` on a valid account id.
#[verifier::external_body]
pub(crate) fn promise_new(account: &str) -> Promise
    requires
        account_id_ok(account@),
{
    Promise::new(account.parse::<AccountId>().unwrap())
}

/// `Promise::transfer` of an amount in yoctoNEAR.
#[verifier::external_body]
pub(crate) fn promise_transfer(p: Promise, amount: u128) -> Promise {
    p.transfer(NearToken::from_yoctonear(amount))
}

/// Most bytes the runtime accepts in a method name.
pub const MAX_METHOD_NAME_BYTES: usize = 256;

/// Most bytes the runtime accepts in a call's arguments.
pub const MAX_ARGS_BYTES: usize = 4194304;

/// `Promise::function_call` with a deposit in yoctoNEAR and gas in TGas; the
/// runtime aborts on a method name over 256 bytes or arguments over 4 MiB,
/// so neither is admitted.
#[verifier::external_body]
pub(crate) fn promise_function_call(p: Promise, method: String, args: Vec<u8>, deposit: u128, gas_tgas: u64) -> Promise
    requires
        gas_tgas <= 18446744,
        utf8_bytes(method@).len() <= MAX_METHOD_NAME_BYTES,
        args@.len() <= MAX_ARGS_BYTES,
{
    p.function_call(method, args, NearToken::from_yoctonear(deposit), Gas::from_tgas(gas_tgas))
}

/// Text decoded from bytes with invalid sequences replaced.
pub uninterp spec fn utf8_lossy_of(bytes: Seq<u8>) -> Seq<char>;

/// `String::from_utf8_lossy`.
#[verifier::external_body]
pub(crate) fn utf8_lossy(bytes: &Vec<u8>) -> (r: String)
    ensures
        r@ == utf8_lossy_of(bytes@),
{
    String::from_utf8_lossy(bytes).to_string()
}

/// `String::from_utf8`: the text when the bytes are valid UTF-8.
#[verifier::external_body]
pub(crate) fn utf8_decode(bytes: Vec<u8>) -> (r: Option<String>)
    ensures
        r is Some <==> vstd::utf8::valid_utf8(bytes@),
        r matches Some(s) ==> s@ == vstd::utf8::decode_utf8(bytes@),
{
    String::from_utf8(bytes).ok()
}

} // verus!
