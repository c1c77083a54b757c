//! Builtins that reach the chain: storage under the caller's prefix,
//! hashing, signature checks, transfers, batched calls, account checks and
//! logging.
use vstd::prelude::*;
use crate::text::{str_eq, chars_to_string, str_to_chars, text_to_u128, text_to_u64, parse_u128, parse_u64,
    nat_to_decimal, nat_digits};
use crate::types::{LispVal, SVal, Env, lemma_sv_unfold, vals_view};
use crate::display::{display, push_str, push_all};
use crate::helpers::{as_str, as_num, str_of, sandbox_key, sandboxed, expected_msg};
use crate::builtins::{res_sv, opt_res_sv, nth_arg, str_arg, missing_msg};
use crate::hex::{hex_encode, hex_decode, hex_text, hex_bytes};
use crate::near;

verus! {

broadcast use lemma_sv_unfold;

/// The UTF-8 bytes of a text.
pub open spec fn utf8(s: Seq<char>) -> Seq<u8> {
    vstd::utf8::encode_utf8(s)
}

fn str_arg_exec(args: &Vec<LispVal>, i: usize, miss: &str) -> (r: Result<String, String>)
    ensures
        match str_arg(vals_view(args@), i as int, miss@) {
            Ok(t) => r matches Ok(x) && x@ == t,
            Err(m) => r matches Err(e) && e@ == m,
        },
{
    if i >= args.len() {
        return Err(chars_to_string(&str_to_chars(miss)));
    }
    proof { assert(vals_view(args@)[i as int] == args@[i as int].sv()); }
    as_str(&args[i])
}

/// A string argument whose own errors are replaced by `bad`.
pub open spec fn str_arg_or(args: Seq<SVal>, i: int, miss: Seq<char>, bad: Seq<char>) -> Result<Seq<char>, Seq<char>> {
    match nth_arg(args, i) {
        None => Err(miss),
        Some(v) => match str_of(v) {
            Some(t) => Ok(t),
            None => Err(bad),
        },
    }
}

fn str_arg_or_exec(args: &Vec<LispVal>, i: usize, miss: &str, bad: &str) -> (r: Result<String, String>)
    ensures
        match str_arg_or(vals_view(args@), i as int, miss@, bad@) {
            Ok(t) => r matches Ok(x) && x@ == t,
            Err(m) => r matches Err(e) && e@ == m,
        },
{
    if i >= args.len() {
        return Err(chars_to_string(&str_to_chars(miss)));
    }
    proof { assert(vals_view(args@)[i as int] == args@[i as int].sv()); }
    match as_str(&args[i]) {
        Ok(s) => Ok(s),
        Err(_) => Err(chars_to_string(&str_to_chars(bad))),
    }
}

// ---------------------------------------------------------------------------
// Hashes and signatures
// ---------------------------------------------------------------------------

/// `(sha256 s)` / `(keccak256 s)`: lower-case hex of the digest of the
/// string's UTF-8 bytes.
pub open spec fn hash_spec(name: Seq<char>, args: Seq<SVal>) -> Result<SVal, Seq<char>> {
    match str_arg(args, 0, missing_msg(name)) {
        Ok(s) => Ok(SVal::Str(hex_text(if name == "sha256"@ { near::sha256_of(utf8(s)) } else { near::keccak256_of(utf8(s)) }))),
        Err(e) => Err(e),
    }
}

/// `(ed25519-verify sig-hex msg pk-hex)`.
pub open spec fn ed25519_spec(args: Seq<SVal>) -> Result<SVal, Seq<char>> {
    match str_arg(args, 0, "ed25519-verify: missing argument"@) {
        Err(e) => Err(e),
        Ok(sig) => match str_arg(args, 1, "ed25519-verify: missing argument"@) {
            Err(e) => Err(e),
            Ok(msg) => match str_arg(args, 2, "ed25519-verify: missing argument"@) {
                Err(e) => Err(e),
                Ok(pk) => if hex_bytes(utf8(sig)).len() != 64 {
                    Err("ed25519-verify: signature must be 64 bytes (128 hex chars)"@)
                } else if hex_bytes(utf8(pk)).len() != 32 {
                    Err("ed25519-verify: public key must be 32 bytes (64 hex chars)"@)
                } else {
                    Ok(SVal::Bool(near::ed25519_valid(hex_bytes(utf8(sig)), utf8(msg), hex_bytes(utf8(pk)))))
                },
            },
        },
    }
}

/// `(ecrecover hash-hex sig-hex v malleability?)`: the recovered public key
/// as hex, or `nil`; the signature is 64 bytes and `v` is 0 to 3.
pub open spec fn ecrecover_spec(args: Seq<SVal>) -> Result<SVal, Seq<char>> {
    match str_arg(args, 0, "ecrecover: missing argument"@) {
        Err(e) => Err(e),
        Ok(h) => match str_arg(args, 1, "ecrecover: missing argument"@) {
            Err(e) => Err(e),
            Ok(sg) => match nth_arg(args, 2) {
                None => Err("ecrecover: missing argument"@),
                Some(SVal::Num(v)) => {
                    let hash = hex_bytes(utf8(h));
                    let sig = hex_bytes(utf8(sg));
                    let m = match nth_arg(args, 3) { Some(SVal::Bool(b)) => b, _ => true };
                    if hash.len() != 32 {
                        Err("ecrecover: hash must be 32 bytes (64 hex chars)"@)
                    } else if sig.len() != 64 {
                        Err("ecrecover: signature must be 64 bytes (128 hex chars)"@)
                    } else if !(0 <= v < 4) {
                        Err("ecrecover: v must be 0, 1, 2 or 3"@)
                    } else {
                        match near::ecrecover_of(hash, sig, (v as i64) as u8, m) {
                            Some(k) => Ok(SVal::Str(hex_text(k))),
                            None => Ok(SVal::Nil),
                        }
                    }
                },
                Some(w) => Err(expected_msg("number"@, w)),
            },
        },
    }
}

fn hash_exec(name: &str, args: &Vec<LispVal>) -> (r: Result<LispVal, String>)
    requires
        name@ == "sha256"@ || name@ == "keccak256"@,
    ensures
        res_sv(r) == hash_spec(name@, vals_view(args@)),
{
    let m = {
        let mut out: Vec<char> = Vec::new();
        push_str(&mut out, name);
        push_str(&mut out, ": missing argument");
        chars_to_string(&out)
    };
    let s = match str_arg_exec(args, 0, m.as_str()) { Ok(s) => s, Err(e) => { return Err(e); } };
    let h = if str_eq(name, "sha256") { near::sha256(s.as_str()) } else { near::keccak256(s.as_str()) };
    Ok(LispVal::Str(hex_encode(h.as_slice())))
}

fn ed25519_exec(args: &Vec<LispVal>) -> (r: Result<LispVal, String>)
    ensures
        res_sv(r) == ed25519_spec(vals_view(args@)),
{
    let sig = match str_arg_exec(args, 0, "ed25519-verify: missing argument") { Ok(s) => s, Err(e) => { return Err(e); } };
    let msg = match str_arg_exec(args, 1, "ed25519-verify: missing argument") { Ok(s) => s, Err(e) => { return Err(e); } };
    let pk = match str_arg_exec(args, 2, "ed25519-verify: missing argument") { Ok(s) => s, Err(e) => { return Err(e); } };
    let sig_bytes = hex_decode(sig.as_str());
    let pk_bytes = hex_decode(pk.as_str());
    if sig_bytes.len() != 64 {
        return Err(String::from_str("ed25519-verify: signature must be 64 bytes (128 hex chars)"));
    }
    if pk_bytes.len() != 32 {
        return Err(String::from_str("ed25519-verify: public key must be 32 bytes (64 hex chars)"));
    }
    Ok(LispVal::Bool(near::ed25519_verify(&sig_bytes, msg.as_str(), &pk_bytes)))
}

fn ecrecover_exec(args: &Vec<LispVal>) -> (r: Result<LispVal, String>)
    ensures
        res_sv(r) == ecrecover_spec(vals_view(args@)),
{
    let ghost va = vals_view(args@);
    let h = match str_arg_exec(args, 0, "ecrecover: missing argument") { Ok(s) => s, Err(e) => { return Err(e); } };
    let sg = match str_arg_exec(args, 1, "ecrecover: missing argument") { Ok(s) => s, Err(e) => { return Err(e); } };
    let hash = hex_decode(h.as_str());
    let sig = hex_decode(sg.as_str());
    if args.len() < 3 {
        return Err(String::from_str("ecrecover: missing argument"));
    }
    proof { assert(va[2] == args@[2].sv()); }
    let v = match as_num(&args[2]) { Ok(v) => v, Err(e) => { return Err(e); } };
    let m = if args.len() > 3 {
        proof { assert(va[3] == args@[3].sv()); }
        match &args[3] { LispVal::Bool(b) => *b, _ => true }
    } else {
        true
    };
    if hash.len() != 32 {
        return Err(String::from_str("ecrecover: hash must be 32 bytes (64 hex chars)"));
    }
    if sig.len() != 64 {
        return Err(String::from_str("ecrecover: signature must be 64 bytes (128 hex chars)"));
    }
    if v < 0 || v > 3 {
        return Err(String::from_str("ecrecover: v must be 0, 1, 2 or 3"));
    }
    match near::ecrecover(&hash, &sig, v as u8, m) {
        Some(k) => Ok(LispVal::Str(hex_encode(k.as_slice()))),
        None => Ok(LispVal::Nil),
    }
}

// ---------------------------------------------------------------------------
// Transfers and batched calls
// ---------------------------------------------------------------------------

/// `(near/transfer amount recipient)`: checks the amount (yoctoNEAR, as
/// text) and the account id, schedules the transfer, and describes it.
pub open spec fn transfer_spec(args: Seq<SVal>) -> Result<SVal, Seq<char>> {
    match str_arg_or(args, 0, "near/transfer: missing argument"@, "near/transfer: amount must be string (yoctoNEAR)"@) {
        Err(e) => Err(e),
        Ok(amount) => if text_to_u128(amount) is None {
            Err("near/transfer: invalid amount"@)
        } else {
            match str_arg_or(args, 1, "near/transfer: missing argument"@, "near/transfer: recipient must be string"@) {
                Err(e) => Err(e),
                Ok(to) => if !near::account_id_ok(to) {
                    Err("near/transfer: invalid account id"@)
                } else {
                    Ok(SVal::Str("transfer:"@ + amount + ":"@ + to))
                },
            }
        },
    }
}

fn transfer_exec(args: &Vec<LispVal>) -> (r: Result<LispVal, String>)
    ensures
        res_sv(r) == transfer_spec(vals_view(args@)),
{
    let amount = match str_arg_or_exec(args, 0, "near/transfer: missing argument", "near/transfer: amount must be string (yoctoNEAR)") {
        Ok(s) => s,
        Err(e) => { return Err(e); },
    };
    let yocto = match parse_u128(amount.as_str()) {
        Some(x) => x,
        None => { return Err(String::from_str("near/transfer: invalid amount")); },
    };
    let to = match str_arg_or_exec(args, 1, "near/transfer: missing argument", "near/transfer: recipient must be string") {
        Ok(s) => s,
        Err(e) => { return Err(e); },
    };
    if !near::is_valid_account_id(to.as_str()) {
        return Err(String::from_str("near/transfer: invalid account id"));
    }
    let p = near::promise_new(to.as_str());
    let _scheduled = near::promise_transfer(p, yocto);
    let mut out: Vec<char> = Vec::new();
    push_str(&mut out, "transfer:");
    push_str(&mut out, amount.as_str());
    push_str(&mut out, ":");
    push_str(&mut out, to.as_str());
    Ok(LispVal::Str(chars_to_string(&out)))
}

/// The most TGas a batched call may ask for: more does not fit in a `Gas`.
pub const MAX_CALL_TGAS: u64 = 18446744;

/// One call spec of `near/batch-call`: `(method args-json deposit gas)`.
pub open spec fn call_spec_ok(v: SVal) -> Result<(), Seq<char>> {
    match v {
        SVal::List(parts) => if parts.len() < 4 {
            Err("near/batch-call: each spec needs [method args_json deposit_yocto gas_tgas]"@)
        } else {
            match (str_of(parts[0]), str_of(parts[1]), str_of(parts[2]), str_of(parts[3])) {
                (None, _, _, _) => Err(expected_msg("string"@, parts[0])),
                (_, None, _, _) => Err(expected_msg("string"@, parts[1])),
                (_, _, None, _) => Err(expected_msg("string"@, parts[2])),
                (_, _, _, None) => Err(expected_msg("string"@, parts[3])),
                (Some(m), Some(a), Some(d), Some(g)) => if text_to_u128(d) is None {
                    Err("near/batch-call: invalid deposit"@)
                } else {
                    match text_to_u64(g) {
                        Some(t) => if t > MAX_CALL_TGAS {
                            Err("near/batch-call: invalid gas"@)
                        } else if near::utf8_bytes(m).len() > near::MAX_METHOD_NAME_BYTES {
                            Err("near/batch-call: method name too long"@)
                        } else if near::utf8_bytes(a).len() > near::MAX_ARGS_BYTES {
                            Err("near/batch-call: arguments too long"@)
                        } else {
                            Ok(())
                        },
                        None => Err("near/batch-call: invalid gas"@),
                    }
                },
            }
        },
        _ => Err("near/batch-call: each call spec must be a list"@),
    }
}

/// The first failing call spec's error, if any.
pub open spec fn call_specs_ok(specs: Seq<SVal>) -> Result<(), Seq<char>>
    decreases specs.len(),
{
    if specs.len() == 0 {
        Ok(())
    } else {
        match call_specs_ok(specs.drop_last()) {
            Err(e) => Err(e),
            Ok(()) => call_spec_ok(specs.last()),
        }
    }
}

/// `(near/batch-call recipient specs)`: schedules the calls on one promise
/// and describes the batch.
pub open spec fn batch_spec(args: Seq<SVal>) -> Result<SVal, Seq<char>> {
    match str_arg_or(args, 0, "near/batch-call: missing argument"@, "near/batch-call: recipient must be string"@) {
        Err(e) => Err(e),
        Ok(to) => if !near::account_id_ok(to) {
            Err("near/batch-call: invalid account id"@)
        } else {
            match nth_arg(args, 1) {
                Some(SVal::List(specs)) => if specs.len() == 0 {
                    Err("near/batch-call: need at least one call spec"@)
                } else {
                    match call_specs_ok(specs) {
                        Err(e) => Err(e),
                        Ok(()) => Ok(SVal::Str("batch:"@ + to + ":"@ + nat_to_decimal(specs.len()))),
                    }
                },
                _ => Err("near/batch-call: second arg must be list of call specs"@),
            }
        },
    }
}

proof fn lemma_specs_err(specs: Seq<SVal>, k: int)
    requires
        0 < k <= specs.len(),
        call_specs_ok(specs.take(k)) is Err,
    ensures
        call_specs_ok(specs) == call_specs_ok(specs.take(k)),
    decreases specs.len() - k,
{
    if k < specs.len() {
        assert(specs.take(k + 1).drop_last() =~= specs.take(k));
        lemma_specs_err(specs, k + 1);
    } else {
        assert(specs.take(k) =~= specs);
    }
}

fn part_str(parts: &Vec<LispVal>, i: usize) -> (r: Result<String, String>)
    requires
        i < parts@.len(),
    ensures
        match str_of(parts@[i as int].sv()) {
            Some(t) => r matches Ok(x) && x@ == t,
            None => r matches Err(e) && e@ == expected_msg("string"@, parts@[i as int].sv()),
        },
{
    as_str(&parts[i])
}

fn batch_exec(args: &Vec<LispVal>) -> (r: Result<LispVal, String>)
    ensures
        res_sv(r) == batch_spec(vals_view(args@)),
{
    let ghost va = vals_view(args@);
    let to = match str_arg_or_exec(args, 0, "near/batch-call: missing argument", "near/batch-call: recipient must be string") {
        Ok(s) => s,
        Err(e) => { return Err(e); },
    };
    if !near::is_valid_account_id(to.as_str()) {
        return Err(String::from_str("near/batch-call: invalid account id"));
    }
    if args.len() < 2 {
        return Err(String::from_str("near/batch-call: second arg must be list of call specs"));
    }
    proof { assert(va[1] == args@[1].sv()); }
    let specs = match &args[1] {
        LispVal::List(l) => l,
        _ => { return Err(String::from_str("near/batch-call: second arg must be list of call specs")); },
    };
    if specs.len() == 0 {
        return Err(String::from_str("near/batch-call: need at least one call spec"));
    }
    let ghost sv = vals_view(specs@);
    let mut promise = near::promise_new(to.as_str());
    let mut count: u64 = 0;
    let mut i: usize = 0;
    assert(sv.take(0) =~= Seq::<SVal>::empty());
    while i < specs.len()
        invariant
            i <= specs@.len(),
            sv == vals_view(specs@),
            va == vals_view(args@),
            va[1] == SVal::List(sv),
            sv.len() > 0,
            str_arg_or(va, 0, "near/batch-call: missing argument"@, "near/batch-call: recipient must be string"@) == Ok::<Seq<char>, Seq<char>>(to@),
            near::account_id_ok(to@),
            args@.len() >= 2,
            count == i,
            call_specs_ok(sv.take(i as int)) is Ok,
        decreases specs.len() - i,
    {
        proof {
            assert(sv.take(i + 1).drop_last() =~= sv.take(i as int));
            assert(sv.take(i + 1).last() == specs@[i as int].sv());
        }
        let parts = match &specs[i] {
            LispVal::List(p) => p,
            _ => {
                proof { lemma_specs_err(sv, i + 1); }
                return Err(String::from_str("near/batch-call: each call spec must be a list"));
            },
        };
        if parts.len() < 4 {
            proof { assert(vals_view(parts@).len() < 4); lemma_specs_err(sv, i + 1); }
            return Err(String::from_str("near/batch-call: each spec needs [method args_json deposit_yocto gas_tgas]"));
        }
        proof {
            let pv = vals_view(parts@);
            assert(pv[0] == parts@[0].sv() && pv[1] == parts@[1].sv() && pv[2] == parts@[2].sv() && pv[3] == parts@[3].sv());
        }
        let method = match part_str(parts, 0) { Ok(s) => s, Err(e) => { proof { lemma_specs_err(sv, i + 1); } return Err(e); } };
        let args_json = match part_str(parts, 1) { Ok(s) => s, Err(e) => { proof { lemma_specs_err(sv, i + 1); } return Err(e); } };
        let deposit_text = match part_str(parts, 2) { Ok(s) => s, Err(e) => { proof { lemma_specs_err(sv, i + 1); } return Err(e); } };
        let gas_text = match part_str(parts, 3) { Ok(s) => s, Err(e) => { proof { lemma_specs_err(sv, i + 1); } return Err(e); } };
        let deposit = match parse_u128(deposit_text.as_str()) {
            Some(d) => d,
            None => {
                proof { lemma_specs_err(sv, i + 1); }
                return Err(String::from_str("near/batch-call: invalid deposit"));
            },
        };
        let gas_tgas = match parse_u64(gas_text.as_str()) {
            Some(g) => g,
            None => {
                proof { lemma_specs_err(sv, i + 1); }
                return Err(String::from_str("near/batch-call: invalid gas"));
            },
        };
        if gas_tgas > MAX_CALL_TGAS {
            proof { lemma_specs_err(sv, i + 1); }
            return Err(String::from_str("near/batch-call: invalid gas"));
        }
        if byte_len(method.as_str()) > near::MAX_METHOD_NAME_BYTES {
            proof { lemma_specs_err(sv, i + 1); }
            return Err(String::from_str("near/batch-call: method name too long"));
        }
        let bytes = crate::text::str_bytes(args_json.as_str());
        if bytes.len() > near::MAX_ARGS_BYTES {
            proof { lemma_specs_err(sv, i + 1); }
            return Err(String::from_str("near/batch-call: arguments too long"));
        }
        promise = near::promise_function_call(promise, method, bytes, deposit, gas_tgas);
        count = count + 1;
        i += 1;
    }
    assert(sv.take(i as int) =~= sv);
    let _scheduled = promise;
    let mut out: Vec<char> = Vec::new();
    push_str(&mut out, "batch:");
    push_str(&mut out, to.as_str());
    push_str(&mut out, ":");
    push_all(&mut out, &nat_digits(count));
    Ok(LispVal::Str(chars_to_string(&out)))
}

// ---------------------------------------------------------------------------
// Dispatch
// ---------------------------------------------------------------------------

/// The names of the builtins in this module.
pub open spec fn effect_name(name: Seq<char>) -> bool {
    name == "near/storage-write"@ || name == "near/storage-read"@ || name == "near/storage-remove"@
        || name == "near/storage-has?"@ || name == "sha256"@ || name == "keccak256"@
        || name == "ed25519-verify"@ || name == "ecrecover"@ || name == "near/transfer"@
        || name == "near/batch-call"@ || name == "near/signer="@ || name == "near/predecessor="@
        || name == "debug"@ || name == "near/log-debug"@ || name == "trace"@
}

/// What the chain builtins are known to answer: exactly, where the answer is
/// a function of the arguments; otherwise the errors exactly and the shape
/// of a success (storage contents and the caller's account come from the
/// chain).
pub open spec fn effect_ok(name: Seq<char>, args: Seq<SVal>, env: Seq<(Seq<char>, SVal)>, r: Result<SVal, Seq<char>>) -> bool {
    if name == "sha256"@ || name == "keccak256"@ {
        r == hash_spec(name, args)
    } else if name == "ed25519-verify"@ {
        r == ed25519_spec(args)
    } else if name == "ecrecover"@ {
        r == ecrecover_spec(args)
    } else if name == "near/transfer"@ {
        r == transfer_spec(args)
    } else if name == "near/batch-call"@ {
        r == batch_spec(args)
    } else if name == "near/storage-write"@ {
        match (str_arg(args, 0, missing_msg(name)), str_arg(args, 1, missing_msg(name))) {
            (Err(e), _) => r == Err::<SVal, Seq<char>>(e),
            (Ok(_), Err(e)) => r == Err::<SVal, Seq<char>>(e),
            (Ok(k), Ok(v)) => if key_too_long(k, env) {
                r == Err::<SVal, Seq<char>>(name + ": storage key too long"@)
            } else if near::utf8_bytes(v).len() > near::MAX_STORAGE_VALUE_BYTES {
                r == Err::<SVal, Seq<char>>(name + ": storage value too long"@)
            } else {
                r == Ok::<SVal, Seq<char>>(SVal::Bool(true))
            },
        }
    } else if name == "near/storage-read"@ {
        match str_arg(args, 0, missing_msg(name)) {
            Err(e) => r == Err::<SVal, Seq<char>>(e),
            Ok(k) => if key_too_long(k, env) {
                r == Err::<SVal, Seq<char>>(name + ": storage key too long"@)
            } else {
                r matches Ok(v) && (v is Nil || v is Str)
            },
        }
    } else if name == "near/storage-remove"@ {
        match str_arg(args, 0, missing_msg(name)) {
            Err(e) => r == Err::<SVal, Seq<char>>(e),
            Ok(k) => if key_too_long(k, env) {
                r == Err::<SVal, Seq<char>>(name + ": storage key too long"@)
            } else {
                r == Ok::<SVal, Seq<char>>(SVal::Bool(true))
            },
        }
    } else if name == "near/storage-has?"@ {
        match str_arg(args, 0, missing_msg(name)) {
            Err(e) => r == Err::<SVal, Seq<char>>(e),
            Ok(k) => if key_too_long(k, env) {
                r == Err::<SVal, Seq<char>>(name + ": storage key too long"@)
            } else {
                r matches Ok(v) && v is Bool
            },
        }
    } else if name == "near/signer="@ || name == "near/predecessor="@ {
        match str_arg(args, 0, missing_msg(name)) {
            Err(e) => r == Err::<SVal, Seq<char>>(e),
            Ok(_) => r matches Ok(v) && v is Bool,
        }
    } else if name == "debug"@ || name == "near/log-debug"@ {
        r == Ok::<SVal, Seq<char>>(SVal::Nil)
    } else {
        r == Ok::<SVal, Seq<char>>(match nth_arg(args, 0) { Some(v) => v, None => SVal::Nil })
    }
}

/// The answer of a chain builtin where it is a function of the arguments
/// alone (hashes, signatures, promises, logging); `None` for those that read
/// or write the chain's state (storage, the caller's account).
pub open spec fn effect_value(name: Seq<char>, args: Seq<SVal>) -> Option<Result<SVal, Seq<char>>> {
    if name == "sha256"@ || name == "keccak256"@ {
        Some(hash_spec(name, args))
    } else if name == "ed25519-verify"@ {
        Some(ed25519_spec(args))
    } else if name == "ecrecover"@ {
        Some(ecrecover_spec(args))
    } else if name == "near/transfer"@ {
        Some(transfer_spec(args))
    } else if name == "near/batch-call"@ {
        Some(batch_spec(args))
    } else if name == "debug"@ || name == "near/log-debug"@ {
        Some(Ok(SVal::Nil))
    } else if name == "trace"@ {
        Some(Ok(match nth_arg(args, 0) { Some(v) => v, None => SVal::Nil }))
    } else {
        None
    }
}

/// Where `effect_value` gives an answer, it is the chain builtin's answer.
pub(crate) proof fn lemma_effect_value(name: Seq<char>, args: Seq<SVal>, env: Seq<(Seq<char>, SVal)>, r: Result<SVal, Seq<char>>)
    requires
        effect_name(name),
        effect_ok(name, args, env, r),
        effect_value(name, args) is Some,
    ensures
        effect_value(name, args) == Some(r),
{
    reveal_strlit("sha256");
    reveal_strlit("keccak256");
    reveal_strlit("ed25519-verify");
    reveal_strlit("ecrecover");
    reveal_strlit("near/transfer");
    reveal_strlit("near/batch-call");
    reveal_strlit("debug");
    reveal_strlit("near/log-debug");
    reveal_strlit("trace");
    reveal_strlit("near/storage-write");
    reveal_strlit("near/storage-read");
    reveal_strlit("near/storage-remove");
    reveal_strlit("near/storage-has?");
    reveal_strlit("near/signer=");
    reveal_strlit("near/predecessor=");
}

/// A user key that, with the storage prefix, is over the runtime's limit.
pub open spec fn key_too_long(raw: Seq<char>, env: Seq<(Seq<char>, SVal)>) -> bool {
    near::utf8_bytes(sandboxed(raw, env)).len() > near::MAX_STORAGE_KEY_BYTES
}

fn byte_len(s: &str) -> (n: usize)
    ensures
        n == near::utf8_bytes(s@).len(),
{
    crate::text::str_bytes(s).len()
}

/// Writes `prefix` and the printed form of a value (or `fallback`) to the
/// log, within the call's log budget (see `Env::log_line`).
fn log_value(prefix: &str, args: &Vec<LispVal>, fallback: &str, env: &mut Env)
    ensures
        final(env)@ == old(env)@,
{
    let mut out: Vec<char> = Vec::new();
    push_str(&mut out, prefix);
    if args.len() > 0 {
        crate::display::display_into(&args[0], &mut out);
    } else {
        push_str(&mut out, fallback);
    }
    let message = chars_to_string(&out);
    env.log_line(message.as_str());
}

/// Applies a chain builtin (see `effect_ok`); `None` for other names.
/// Storage keys get the environment's storage prefix (see `sandboxed`).
pub fn effect_builtin(name: &str, args: &Vec<LispVal>, env: &mut Env) -> (r: Option<Result<LispVal, String>>)
    ensures
        final(env)@ == old(env)@,
        r is Some <==> effect_name(name@),
        r matches Some(x) ==> effect_ok(name@, vals_view(args@), old(env)@, res_sv(x)),
{
    let ghost va = vals_view(args@);
    if str_eq(name, "sha256") || str_eq(name, "keccak256") {
        Some(hash_exec(name, args))
    } else if str_eq(name, "ed25519-verify") {
        Some(ed25519_exec(args))
    } else if str_eq(name, "ecrecover") {
        Some(ecrecover_exec(args))
    } else if str_eq(name, "near/transfer") {
        Some(transfer_exec(args))
    } else if str_eq(name, "near/batch-call") {
        Some(batch_exec(args))
    } else if str_eq(name, "near/storage-write") || str_eq(name, "near/storage-read")
        || str_eq(name, "near/storage-remove") || str_eq(name, "near/storage-has?")
        || str_eq(name, "near/signer=") || str_eq(name, "near/predecessor=") {
        let m = {
            let mut out: Vec<char> = Vec::new();
            push_str(&mut out, name);
            push_str(&mut out, ": missing argument");
            chars_to_string(&out)
        };
        let a = match str_arg_exec(args, 0, m.as_str()) { Ok(s) => s, Err(e) => { return Some(Err(e)); } };
        let too_long = {
            let mut out: Vec<char> = Vec::new();
            push_str(&mut out, name);
            push_str(&mut out, ": storage key too long");
            chars_to_string(&out)
        };
        if str_eq(name, "near/storage-write") {
            let v = match str_arg_exec(args, 1, m.as_str()) { Ok(s) => s, Err(e) => { return Some(Err(e)); } };
            let key = sandbox_key(a.as_str(), env);
            if byte_len(key.as_str()) > near::MAX_STORAGE_KEY_BYTES {
                return Some(Err(too_long));
            }
            if byte_len(v.as_str()) > near::MAX_STORAGE_VALUE_BYTES {
                let mut out: Vec<char> = Vec::new();
                push_str(&mut out, name);
                push_str(&mut out, ": storage value too long");
                return Some(Err(chars_to_string(&out)));
            }
            let _existed = near::storage_write(key.as_str(), v.as_str());
            Some(Ok(LispVal::Bool(true)))
        } else if str_eq(name, "near/storage-read") {
            let key = sandbox_key(a.as_str(), env);
            if byte_len(key.as_str()) > near::MAX_STORAGE_KEY_BYTES {
                return Some(Err(too_long));
            }
            match near::storage_read(key.as_str()) {
                Some(bytes) => Some(Ok(LispVal::Str(near::utf8_lossy(&bytes)))),
                None => Some(Ok(LispVal::Nil)),
            }
        } else if str_eq(name, "near/storage-remove") {
            let key = sandbox_key(a.as_str(), env);
            if byte_len(key.as_str()) > near::MAX_STORAGE_KEY_BYTES {
                return Some(Err(too_long));
            }
            let _existed = near::storage_remove(key.as_str());
            Some(Ok(LispVal::Bool(true)))
        } else if str_eq(name, "near/storage-has?") {
            let key = sandbox_key(a.as_str(), env);
            if byte_len(key.as_str()) > near::MAX_STORAGE_KEY_BYTES {
                return Some(Err(too_long));
            }
            Some(Ok(LispVal::Bool(near::storage_has_key(key.as_str()))))
        } else if str_eq(name, "near/signer=") {
            let who = near::signer_account_id();
            Some(Ok(LispVal::Bool(str_eq(who.as_str(), a.as_str()))))
        } else {
            let who = near::predecessor_account_id();
            Some(Ok(LispVal::Bool(str_eq(who.as_str(), a.as_str()))))
        }
    } else if str_eq(name, "debug") || str_eq(name, "near/log-debug") {
        log_value("[DEBUG] ", args, "debug", env);
        Some(Ok(LispVal::Nil))
    } else if str_eq(name, "trace") {
        log_value("[TRACE] ", args, "nil", env);
        if args.len() > 0 {
            proof { assert(va[0] == args@[0].sv()); }
            Some(Ok(args[0].deep_clone()))
        } else {
            Some(Ok(LispVal::Nil))
        }
    } else {
        None
    }
}

} // verus!
