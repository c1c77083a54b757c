//! The contract's own rules around the interpreter: who may evaluate, how
//! an evaluation's environment is built, the storage keys and event texts,
//! the steps of an asynchronous evaluation, and the gas a batch of
//! cross-contract calls is given.
use vstd::prelude::*;
use crate::text::{chars_to_string, nat_digits, u128_to_string, nat_to_decimal};
use crate::types::{LispVal, SVal, Env, lemma_sv_unfold, binds_view, lookup, newest_index, lemma_newest_index,
    lemma_lookup_push, lemma_lookup_update_newest};
use crate::display::push_str;
use crate::dict::{dict_insert, dict_set};
use crate::json::{json_quote, json_quote_of, json_object_fields, json_members_of, json_to_lisp, json_value, JSON_DEPTH};
use crate::near::{utf8_lossy, utf8_lossy_of};
use crate::vm::{VmState, CcallYield, CallbackInfo, RunResult, run_outcome, run_program, run_program_with_ccall,
    run_remaining_with_ccall, check_ccall, is_ccall_form, first_call, lift_all, call_parts, call_terms_of};
use crate::helpers::str_of;
use crate::parser::parse_program;
use crate::eval::{atom, pure_run, pure_block, pure_eval};
use crate::display::display;
use crate::types::vals_view;

verus! {

broadcast use lemma_sv_unfold;

/// The gas limit a new contract starts with when it is asked for none.
pub const DEFAULT_CONTRACT_GAS_LIMIT: u64 = 10_000;

/// The gas limit a new contract starts with: the one asked for, or the
/// default when that is 0.
pub fn initial_gas_limit(limit: u64) -> (r: u64)
    ensures
        r == (if limit == 0 { DEFAULT_CONTRACT_GAS_LIMIT } else { limit }),
{
    if limit == 0 { DEFAULT_CONTRACT_GAS_LIMIT } else { limit }
}

/// Whether a caller may evaluate code: anyone while the whitelist is empty,
/// otherwise only the accounts on it.
pub fn eval_allowed(whitelist_empty: bool, caller_listed: bool) -> (r: bool)
    ensures
        r == (whitelist_empty || caller_listed),
{
    whitelist_empty || caller_listed
}

/// `eval:<account>:`, the storage namespace of an account's evaluations.
pub open spec fn prefix_text(account: Seq<char>) -> Seq<char> {
    "eval:"@ + account + ":"@
}

/// `<kind>:<name>`, the storage key of a stored policy, script or module.
pub open spec fn kind_key(kind: Seq<char>, name: Seq<char>) -> Seq<char> {
    kind + ":"@ + name
}

fn concat3(a: &str, b: &str, c: &str) -> (r: String)
    ensures
        r@ == a@ + b@ + c@,
{
    let mut out: Vec<char> = Vec::new();
    push_str(&mut out, a);
    push_str(&mut out, b);
    push_str(&mut out, c);
    chars_to_string(&out)
}

/// The storage namespace of an account's evaluations.
pub fn storage_prefix(account: &str) -> (r: String)
    ensures
        r@ == prefix_text(account@),
{
    concat3("eval:", account, ":")
}

/// The storage key of a stored policy.
pub fn policy_key(name: &str) -> (r: String)
    ensures
        r@ == kind_key("policy"@, name@),
{
    concat3("policy", ":", name)
}

/// The storage key of a stored script.
pub fn script_key(name: &str) -> (r: String)
    ensures
        r@ == kind_key("script"@, name@),
{
    concat3("script", ":", name)
}

/// The storage key of a stored module.
pub fn module_key(name: &str) -> (r: String)
    ensures
        r@ == kind_key("module"@, name@),
{
    concat3("module", ":", name)
}

/// The storage key under which an account's evaluations keep `key`.
pub fn data_key(account: &str, key: &str) -> (r: String)
    ensures
        r@ == prefix_text(account@) + key@,
{
    let mut out: Vec<char> = Vec::new();
    push_str(&mut out, "eval:");
    push_str(&mut out, account);
    push_str(&mut out, ":");
    push_str(&mut out, key);
    chars_to_string(&out)
}

/// The answer a failed evaluation gives.
pub fn error_text(message: &str) -> (r: String)
    ensures
        r@ == "ERROR: "@ + message@,
{
    let mut out: Vec<char> = Vec::new();
    push_str(&mut out, "ERROR: ");
    push_str(&mut out, message);
    chars_to_string(&out)
}

/// The answer when a stored policy or script is missing.
pub fn not_found_text(kind: &str, name: &str) -> (r: String)
    ensures
        r@ == "ERROR: "@ + kind@ + " '"@ + name@ + "' not found"@,
{
    let mut out: Vec<char> = Vec::new();
    push_str(&mut out, "ERROR: ");
    push_str(&mut out, kind);
    push_str(&mut out, " '");
    push_str(&mut out, name);
    push_str(&mut out, "' not found");
    chars_to_string(&out)
}

/// The event log line for a change to a named item (`save_policy`,
/// `remove_script`, ...).
pub fn name_event(event: &str, name: &str) -> (r: String)
    ensures
        r@ == "EVENT_JSON:{\"standard\":\"near-lisp\",\"version\":\"1.0.0\",\"event\":\""@ + event@
            + "\",\"data\":{\"name\":\""@ + name@ + "\"}}"@,
{
    let mut out: Vec<char> = Vec::new();
    push_str(&mut out, "EVENT_JSON:{\"standard\":\"near-lisp\",\"version\":\"1.0.0\",\"event\":\"");
    push_str(&mut out, event);
    push_str(&mut out, "\",\"data\":{\"name\":\"");
    push_str(&mut out, name);
    push_str(&mut out, "\"}}");
    chars_to_string(&out)
}

/// The event log line for a change of owner.
pub fn ownership_event(old_owner: &str, new_owner: &str) -> (r: String)
    ensures
        r@ == "EVENT_JSON:{\"standard\":\"near-lisp\",\"version\":\"1.0.0\",\"event\":\"transfer_ownership\",\"data\":{\"old_owner\":\""@
            + old_owner@ + "\",\"new_owner\":\""@ + new_owner@ + "\"}}"@,
{
    let mut out: Vec<char> = Vec::new();
    push_str(&mut out, "EVENT_JSON:{\"standard\":\"near-lisp\",\"version\":\"1.0.0\",\"event\":\"transfer_ownership\",\"data\":{\"old_owner\":\"");
    push_str(&mut out, old_owner);
    push_str(&mut out, "\",\"new_owner\":\"");
    push_str(&mut out, new_owner);
    push_str(&mut out, "\"}}");
    chars_to_string(&out)
}

/// `{"total":"<balance>","available":"<balance - locked, at least 0>","locked":"<locked>"}`.
pub fn storage_balance_text(balance: u128, locked: u128) -> (r: String)
    ensures
        r@ == "{\"total\":\""@ + nat_to_decimal(balance as nat) + "\",\"available\":\""@
            + nat_to_decimal((if balance >= locked { balance - locked } else { 0 }) as nat)
            + "\",\"locked\":\""@ + nat_to_decimal(locked as nat) + "\"}"@,
{
    let available: u128 = if balance >= locked { balance - locked } else { 0 };
    let mut out: Vec<char> = Vec::new();
    push_str(&mut out, "{\"total\":\"");
    push_str(&mut out, u128_to_string(balance).as_str());
    push_str(&mut out, "\",\"available\":\"");
    push_str(&mut out, u128_to_string(available).as_str());
    push_str(&mut out, "\",\"locked\":\"");
    push_str(&mut out, u128_to_string(locked).as_str());
    push_str(&mut out, "\"}");
    chars_to_string(&out)
}

/// `vm:<height>:<timestamp>`, the storage key of a suspended evaluation.
pub fn yield_id_text(height: u64, timestamp: u64) -> (r: String)
    ensures
        r@ == "vm:"@ + nat_to_decimal(height as nat) + ":"@ + nat_to_decimal(timestamp as nat),
{
    let mut out: Vec<char> = Vec::new();
    push_str(&mut out, "vm:");
    let h = nat_digits(height);
    let hs = chars_to_string(&h);
    push_str(&mut out, hs.as_str());
    push_str(&mut out, ":");
    let t = nat_digits(timestamp);
    let ts = chars_to_string(&t);
    push_str(&mut out, ts.as_str());
    chars_to_string(&out)
}

/// The JSON arguments of the resume call: `{"yield_id":<id as a JSON string>}`.
pub fn resume_args(yield_id: &str) -> (r: String)
    ensures
        r@ == "{\"yield_id\":"@ + json_quote_of(yield_id@) + "}"@,
{
    let q = json_quote(yield_id);
    concat3("{\"yield_id\":", q.as_str(), "}")
}

/// The JSON arguments of the batch collector: `{"data_id_hex":<hex as a JSON string>}`.
pub fn auto_resume_args(data_id_hex: &str) -> (r: String)
    ensures
        r@ == "{\"data_id_hex\":"@ + json_quote_of(data_id_hex@) + "}"@,
{
    let q = json_quote(data_id_hex);
    concat3("{\"data_id_hex\":", q.as_str(), "}")
}

/// The name under which an evaluation finds its storage namespace.
pub open spec fn prefix_name() -> Seq<char> {
    "__storage_prefix__"@
}

/// The binding of an account's storage namespace.
pub open spec fn prefix_binding(account: Seq<char>) -> (Seq<char>, SVal) {
    (prefix_name(), SVal::Str(prefix_text(account)))
}

/// A dictionary holding the given fields, later ones replacing earlier ones.
pub open spec fn dict_from(fs: Seq<(Seq<char>, SVal)>) -> Seq<(Seq<char>, SVal)>
    decreases fs.len(),
{
    if fs.len() == 0 {
        Seq::empty()
    } else {
        dict_insert(dict_from(fs.drop_last()), fs.last().0, fs.last().1)
    }
}

/// The bindings an input object gives: each member under its own name, then
/// the whole object as the dictionary `input`; none when the text is not a
/// JSON object that can be read.
pub open spec fn input_bindings(input_json: Seq<char>) -> Seq<(Seq<char>, SVal)> {
    match json_members_of(input_json) {
        Some(fs) => fs.push(("input"@, SVal::Dict(dict_from(fs)))),
        None => Seq::empty(),
    }
}

/// The environment of a plain evaluation: just the caller's namespace.
pub fn eval_env(caller: &str) -> (e: Env)
    ensures
        e@ == seq![prefix_binding(caller@)],
{
    let mut env = Env::new();
    env.push(String::from_str("__storage_prefix__"), LispVal::Str(storage_prefix(caller)));
    proof { reveal_strlit("__storage_prefix__"); }
    assert(env@ =~= seq![prefix_binding(caller@)]);
    env
}

/// The environment of an evaluation with input: the input's bindings (see
/// `input_bindings`), then the caller's namespace, which comes last so that
/// no input can shadow it.
pub fn input_env(input_json: &str, caller: &str) -> (e: Env)
    ensures
        e@ == input_bindings(input_json@).push(prefix_binding(caller@)),
{
    let mut env = Env::new();
    match json_object_fields(input_json) {
        Some(fields) => {
            let ghost fs = binds_view(fields@);
            let mut dict: Vec<(String, LispVal)> = Vec::new();
            let mut i: usize = 0;
            assert(fs.take(0) =~= Seq::<(Seq<char>, SVal)>::empty());
            assert(binds_view(dict@) =~= Seq::<(Seq<char>, SVal)>::empty());
            while i < fields.len()
                invariant
                    i <= fields@.len(),
                    fs == binds_view(fields@),
                    env@ == fs.take(i as int),
                    binds_view(dict@) == dict_from(fs.take(i as int)),
                decreases fields.len() - i,
            {
                proof {
                    assert(fs.take(i + 1).drop_last() =~= fs.take(i as int));
                    assert(fs.take(i + 1).last() == fs[i as int]);
                    assert(fs[i as int] == (fields@[i as int].0@, fields@[i as int].1.sv()));
                }
                env.push(fields[i].0.clone(), fields[i].1.deep_clone());
                dict_set(&mut dict, fields[i].0.clone(), fields[i].1.deep_clone());
                assert(env@ =~= fs.take(i + 1));
                i += 1;
            }
            assert(fs.take(i as int) =~= fs);
            env.push(String::from_str("input"), LispVal::Dict(dict));
            proof { reveal_strlit("input"); }
        },
        None => {},
    }
    env.push(String::from_str("__storage_prefix__"), LispVal::Str(storage_prefix(caller)));
    proof { reveal_strlit("__storage_prefix__"); }
    env
}

/// The text an evaluation answers with: its result, or `ERROR: ` and the
/// error.
pub fn outcome_text(r: Result<String, String>) -> (s: String)
    ensures
        s@ == match r {
            Ok(v) => v@,
            Err(e) => "ERROR: "@ + e@,
        },
{
    match r {
        Ok(v) => v,
        Err(e) => error_text(e.as_str()),
    }
}

/// What an asynchronous evaluation does next: answer (and, when a callback
/// is due, send the answer to it), or suspend on a batch of calls.
pub enum AsyncStep {
    Finished { result: String, notify: Option<CallbackInfo> },
    Suspend { yields: Vec<CcallYield>, state: VmState },
}

/// The view of an optional callback.
pub open spec fn callback_view(c: Option<CallbackInfo>) -> Option<(Seq<char>, Seq<char>)> {
    match c {
        Some(cb) => Some((cb.account@, cb.method@)),
        None => None,
    }
}

fn clone_callback(c: &Option<CallbackInfo>) -> (r: Option<CallbackInfo>)
    ensures
        callback_view(r) == callback_view(*c),
{
    match c {
        Some(cb) => Some(CallbackInfo { account: cb.account.clone(), method: cb.method.clone() }),
        None => None,
    }
}

/// The step a run leads to: an error is answered as `ERROR: ...` with no
/// callback; a finished run is answered with its result and sent to the
/// callback, if any; a suspended run carries the callback on.
pub open spec fn step_of(r: Result<RunResult, String>, callback: Option<(Seq<char>, Seq<char>)>, s: AsyncStep) -> bool {
    match r {
        Err(e) => s matches AsyncStep::Finished { result, notify } && result@ == "ERROR: "@ + e@ && notify is None,
        Ok(RunResult::Done(v)) => s matches AsyncStep::Finished { result, notify } && result@ == v@
            && callback_view(notify) == callback,
        Ok(RunResult::Yield { yields, state }) => s matches AsyncStep::Suspend { yields: y2, state: st2 }
            && y2 == yields && st2.remaining == state.remaining && st2.env@ == state.env@ && st2.gas == state.gas
            && st2.pending_vars == state.pending_vars && st2.null_safe_flags == state.null_safe_flags
            && callback_view(st2.callback) == callback,
    }
}

fn step_from(r: Result<RunResult, String>, callback: Option<CallbackInfo>) -> (s: AsyncStep)
    ensures
        step_of(r, callback_view(callback), s),
{
    match r {
        Err(e) => AsyncStep::Finished { result: error_text(e.as_str()), notify: None },
        Ok(RunResult::Done(v)) => AsyncStep::Finished { result: v, notify: callback },
        Ok(RunResult::Yield { yields, state }) => {
            let VmState { remaining, env, gas, pending_vars, null_safe_flags, callback: _ } = state;
            AsyncStep::Suspend {
                yields,
                state: VmState { remaining, env, gas, pending_vars, null_safe_flags, callback },
            }
        },
    }
}

/// What a run of the expressions `ev` from `env` with `gas` answers, as far
/// as the evaluation before the first call form decides it: its failure is
/// answered as `ERROR: ...` with no callback; its value, when no call form
/// follows, is the answer sent to `callback`.
pub open spec fn async_answer(ev: Seq<SVal>, env: Seq<(Seq<char>, SVal)>, gas: nat, callback: Option<(Seq<char>, Seq<char>)>,
    s: AsyncStep) -> bool {
    let k = first_call(ev, 0);
    pure_block(ev.take(k), 0, env, gas, SVal::Nil) matches Some((pr, _, _)) ==> match pr {
        Err(e) => s matches AsyncStep::Finished { result, notify } && result@ == "ERROR: "@ + e && notify is None,
        Ok(v) => k == ev.len() ==> (s matches AsyncStep::Finished { result, notify } && result@ == display(v)
            && callback_view(notify) == callback),
    }
}

/// Starts an asynchronous evaluation of `code` in `env` with `gas_limit`
/// (see `run_program_with_ccall`); a finished run is sent to `callback`,
/// and a suspended one carries it.
pub fn start_async(code: &str, env: Env, gas_limit: u64, callback: Option<CallbackInfo>) -> (s: AsyncStep)
    ensures
        match s {
            AsyncStep::Finished { notify, .. } => notify is None || callback_view(notify) == callback_view(callback),
            AsyncStep::Suspend { yields, state } => yields@.len() > 0 && state.gas <= gas_limit
                && state.pending_vars@.len() == yields@.len() && state.null_safe_flags@.len() == yields@.len()
                && callback_view(state.callback) == callback_view(callback),
        },
        match parse_program(code@) {
            Err(e) => s matches AsyncStep::Finished { result, notify } && result@ == "ERROR: "@ + e && notify is None,
            Ok(vs) => async_answer(lift_all(vs, 0).0, env@, gas_limit as nat, callback_view(callback), s),
        },
{
    let mut env = env;
    let r = run_program_with_ccall(code, &mut env, gas_limit);
    step_from(r, callback)
}

/// The value a call's result bytes stand for: the JSON they hold, read as a
/// value, or else the text itself.
pub open spec fn result_value(bytes: Seq<u8>) -> SVal {
    let raw = utf8_lossy_of(bytes);
    match json_value(raw, JSON_DEPTH as nat) {
        Ok(v) => v,
        Err(_) => SVal::Str(raw),
    }
}

/// The name under which every call result so far is listed.
pub open spec fn results_name() -> Seq<char> {
    "__ccall_results__"@
}

/// Appends `v` to the list of call results: the newest `__ccall_results__`
/// binding grows when it is a list; otherwise a new list of `v` is bound.
pub open spec fn record_result(env: Seq<(Seq<char>, SVal)>, v: SVal) -> Seq<(Seq<char>, SVal)> {
    match lookup(env, results_name()) {
        Some(SVal::List(vs)) => env.update(newest_index(env, results_name()), (results_name(), SVal::List(vs.push(v)))),
        _ => env.push((results_name(), SVal::List(seq![v]))),
    }
}

/// The variable call `i` of a batch binds: its `define`'s, or `__ccall_result__`.
pub open spec fn result_var(vars: Seq<Option<String>>, i: int) -> Seq<char> {
    if 0 <= i < vars.len() && vars[i] is Some {
        vars[i]->0@
    } else {
        "__ccall_result__"@
    }
}

/// The environment after the first `n` results of a batch are bound: each
/// to its variable, and each appended to the list of call results.
pub open spec fn inject(env: Seq<(Seq<char>, SVal)>, vars: Seq<Option<String>>, results: Seq<Seq<u8>>, n: nat) -> Seq<(Seq<char>, SVal)>
    decreases n,
{
    if n == 0 {
        env
    } else {
        let before = inject(env, vars, results, (n - 1) as nat);
        let v = result_value(results[n - 1]);
        record_result(before.push((result_var(vars, n - 1), v)), v)
    }
}

fn result_to_value(bytes: &Vec<u8>) -> (v: LispVal)
    ensures
        v.sv() == result_value(bytes@),
{
    let raw = utf8_lossy(bytes);
    match json_to_lisp(raw.as_str()) {
        Ok(v) => v,
        Err(_) => LispVal::Str(raw),
    }
}

/// Binds a batch's results (see `inject`).
pub fn inject_results(env: &mut Env, pending_vars: &Vec<Option<String>>, results: &Vec<Vec<u8>>)
    ensures
        final(env)@ == inject(old(env)@, pending_vars@, results@.map_values(|b: Vec<u8>| b@), results@.len() as nat),
{
    let ghost e0 = env@;
    let ghost rs = results@.map_values(|b: Vec<u8>| b@);
    let mut i: usize = 0;
    while i < results.len()
        invariant
            i <= results@.len(),
            rs == results@.map_values(|b: Vec<u8>| b@),
            env@ == inject(e0, pending_vars@, rs, i as nat),
        decreases results.len() - i,
    {
        let v = result_to_value(&results[i]);
        let name = if i < pending_vars.len() {
            match &pending_vars[i] {
                Some(var) => var.clone(),
                None => String::from_str("__ccall_result__"),
            }
        } else {
            String::from_str("__ccall_result__")
        };
        proof { reveal_strlit("__ccall_result__"); reveal_strlit("__ccall_results__"); }
        let ghost vs = v.sv();
        env.push(name, v.deep_clone());
        let ghost e1 = env@;
        proof { lemma_newest_index(e1, results_name()); }
        let appended = env.push_to_list("__ccall_results__", v.deep_clone());
        if !appended {
            let mut one: Vec<LispVal> = Vec::new();
            one.push(v);
            env.push(String::from_str("__ccall_results__"), LispVal::List(one));
            proof {
                assert(vals_view(one@) =~= seq![vs]);
            }
        }
        proof {
            assert(rs[i as int] == results@[i as int]@);
            assert(env@ =~= record_result(e1, vs));
        }
        i += 1;
    }
}

/// Resumes a suspended evaluation with its batch's results: binds them (see
/// `inject`), runs the rest (see `run_remaining_with_ccall`) from the gas
/// that was left, and carries the callback on.
pub fn resume_step(state: VmState, results: &Vec<Vec<u8>>) -> (s: AsyncStep)
    ensures
        match s {
            AsyncStep::Finished { notify, .. } => notify is None || callback_view(notify) == callback_view(state.callback),
            AsyncStep::Suspend { yields, state: st } => yields@.len() > 0 && st.gas <= state.gas
                && callback_view(st.callback) == callback_view(state.callback),
        },
        async_answer(vals_view(state.remaining@),
            inject(state.env@, state.pending_vars@, results@.map_values(|b: Vec<u8>| b@), results@.len() as nat),
            state.gas as nat, callback_view(state.callback), s),
{
    let callback = clone_callback(&state.callback);
    let VmState { remaining, env, gas, pending_vars, null_safe_flags: _, callback: _ } = state;
    let mut env = env;
    inject_results(&mut env, &pending_vars, results);
    let mut gas = gas;
    let r = run_remaining_with_ccall(remaining.as_slice(), &mut env, &mut gas);
    step_from(r, callback)
}

/// One TGas in gas units.
pub const TGAS: u64 = 1_000_000_000_000;

/// What a batch of calls is given, in gas units.
pub struct GasPlan {
    /// The gas of all the calls together.
    pub total_ccall_gas: u64,
    /// The gas of the callback that collects the results.
    pub auto_resume_gas: u64,
    /// What is kept back for joining the promises.
    pub reserve: u64,
    /// The gas of the resumed evaluation.
    pub resume_gas: u64,
}

/// `a - b`, or 0 when that is negative.
pub open spec fn sat_sub(a: int, b: int) -> int {
    if a >= b { a - b } else { 0 }
}

/// `a + b`, or `u64::MAX` when that is larger.
pub open spec fn sat_add(a: int, b: int) -> int {
    if a + b <= u64::MAX { a + b } else { u64::MAX as int }
}

/// `a * b`, or `u64::MAX` when that is larger.
pub open spec fn sat_mul(a: int, b: int) -> int {
    if a * b <= u64::MAX { a * b } else { u64::MAX as int }
}

/// The gas of calls given in TGas, in gas units.
pub open spec fn call_gas_sum(gs: Seq<u64>) -> int
    decreases gs.len(),
{
    if gs.len() == 0 { 0 } else { call_gas_sum(gs.drop_last()) + gs.last() * TGAS }
}

/// Whether the plan's arithmetic stays within `u64`: the calls' gas, and
/// the per-call and per-cycle products.
pub open spec fn plan_fits(gs: Seq<u64>, cycles: u64, ccalls: u64) -> bool {
    &&& forall|i: int| 0 <= i < gs.len() ==> #[trigger] gs[i] * TGAS <= u64::MAX
    &&& forall|k: int| 0 <= k <= gs.len() ==> #[trigger] call_gas_sum(gs.take(k)) <= u64::MAX
    &&& gs.len() * 500_000_000_000 <= u64::MAX
    &&& (cycles > 0 ==> cycles * 20_000_000_000_000 <= u64::MAX && ccalls * 10_000_000_000_000 <= u64::MAX)
}

/// The gas the collecting callback is given: 2 TGas, and 0.1 TGas a call
/// rounded down but at least 1 TGas.
pub open spec fn auto_resume_gas_of(n: int) -> int {
    (2 + (if n * 100_000_000_000 / (TGAS as int) >= 1 { n * 100_000_000_000 / (TGAS as int) } else { 1 })) * TGAS
}

/// What is kept back: 0.3 TGas for each call after the first, and 3 TGas.
pub open spec fn reserve_of(n: int) -> int {
    sat_add(sat_mul(sat_sub(n, 1), 300_000_000_000), 3_000_000_000_000)
}

/// The gas the resumed evaluation needs: 5 TGas and 0.5 TGas a result,
/// and, when calls are still to come, 20 TGas a later cycle and 10 TGas a
/// later call.
pub open spec fn resume_needed(n: int, cycles: int, ccalls: int) -> int {
    let current = sat_add(5_000_000_000_000, n * 500_000_000_000);
    if cycles > 0 {
        sat_add(sat_add(current, cycles * 20_000_000_000_000), ccalls * 10_000_000_000_000)
    } else {
        current
    }
}

/// The resumed evaluation's gas: what is left of the prepaid gas after the
/// yield's 5 TGas, the calls, the collector and the reserve, but no more
/// than it needs, plus the yield's 5 TGas.
pub open spec fn resume_gas_of(gs: Seq<u64>, prepaid: int, used: int, cycles: int, ccalls: int) -> int {
    let n = gs.len() as int;
    let effective = sat_sub(sat_sub(sat_sub(sat_sub(sat_sub(prepaid, used), 5_000_000_000_000),
        call_gas_sum(gs)), auto_resume_gas_of(n)), reserve_of(n));
    let cap = sat_sub(resume_needed(n, cycles, ccalls), 5_000_000_000_000);
    sat_add(if effective <= cap { effective } else { cap }, 5_000_000_000_000)
}

fn sat_mul_u64(a: u64, b: u64) -> (r: u64)
    ensures
        r == sat_mul(a as int, b as int),
{
    match a.checked_mul(b) {
        Some(x) => x,
        None => u64::MAX,
    }
}

/// Plans the gas of a batch of calls whose gas is `gas_tgas` (in TGas),
/// from the prepaid and used gas and the cycles and calls still to come;
/// `None` when the arithmetic leaves `u64` (see `plan_fits`).
pub fn plan_batch_gas(gas_tgas: &Vec<u64>, prepaid: u64, used: u64, cycles: u64, ccalls: u64) -> (r: Option<GasPlan>)
    requires
        gas_tgas@.len() > 0,
    ensures
        match r {
            None => !plan_fits(gas_tgas@, cycles, ccalls),
            Some(p) => plan_fits(gas_tgas@, cycles, ccalls)
                && p.total_ccall_gas == call_gas_sum(gas_tgas@)
                && p.auto_resume_gas == auto_resume_gas_of(gas_tgas@.len() as int)
                && p.reserve == reserve_of(gas_tgas@.len() as int)
                && p.resume_gas == resume_gas_of(gas_tgas@, prepaid as int, used as int, cycles as int, ccalls as int),
        },
{
    let ghost gs = gas_tgas@;
    let mut total: u64 = 0;
    let mut i: usize = 0;
    assert(gs.take(0) =~= Seq::<u64>::empty());
    while i < gas_tgas.len()
        invariant
            i <= gs.len(),
            gs == gas_tgas@,
            total == call_gas_sum(gs.take(i as int)),
            forall|j: int| 0 <= j < i ==> #[trigger] gs[j] * TGAS <= u64::MAX,
            forall|k: int| 0 <= k <= i ==> #[trigger] call_gas_sum(gs.take(k)) <= u64::MAX,
        decreases gas_tgas.len() - i,
    {
        proof {
            assert(gs.take(i + 1).drop_last() =~= gs.take(i as int));
            assert(gs.take(i + 1).last() == gs[i as int]);
        }
        let g = match gas_tgas[i].checked_mul(TGAS) {
            Some(x) => x,
            None => { return None; },
        };
        total = match total.checked_add(g) {
            Some(x) => x,
            None => {
                proof { assert(call_gas_sum(gs.take(i + 1)) == total + g); }
                return None;
            },
        };
        i += 1;
    }
    assert(gs.take(i as int) =~= gs);
    let n = gas_tgas.len() as u64;
    let per_call = match n.checked_mul(500_000_000_000) {
        Some(x) => x,
        None => { return None; },
    };
    assert(n * 100_000_000_000 <= u64::MAX);
    let tenth: u64 = n * 100_000_000_000 / TGAS;
    let auto_tgas: u64 = 2 + if tenth >= 1 { tenth } else { 1 };
    assert(tenth <= n / 10) by (nonlinear_arith)
        requires
            tenth == n * 100_000_000_000 / 1_000_000_000_000,
    ;
    assert(auto_tgas * TGAS <= u64::MAX) by (nonlinear_arith)
        requires
            tenth <= n / 10,
            auto_tgas == 2 + if tenth >= 1 { tenth } else { 1 },
            n * 500_000_000_000 <= u64::MAX,
    ;
    let auto_resume_gas: u64 = auto_tgas * TGAS;
    let reserve: u64 = sat_mul_u64(n.saturating_sub(1), 300_000_000_000).saturating_add(3_000_000_000_000);
    let current: u64 = 5_000_000_000_000u64.saturating_add(per_call);
    let needed: u64 = if cycles > 0 {
        let cycle_gas = match cycles.checked_mul(20_000_000_000_000) {
            Some(x) => x,
            None => { return None; },
        };
        let later_calls = match ccalls.checked_mul(10_000_000_000_000) {
            Some(x) => x,
            None => { return None; },
        };
        current.saturating_add(cycle_gas).saturating_add(later_calls)
    } else {
        current
    };
    let remaining: u64 = prepaid.saturating_sub(used);
    let effective: u64 = remaining.saturating_sub(5_000_000_000_000).saturating_sub(total)
        .saturating_sub(auto_resume_gas).saturating_sub(reserve);
    let cap: u64 = needed.saturating_sub(5_000_000_000_000);
    let capped: u64 = if effective <= cap { effective } else { cap };
    let resume_gas: u64 = capped.saturating_add(5_000_000_000_000);
    Some(GasPlan { total_ccall_gas: total, auto_resume_gas, reserve, resume_gas })
}

/// The number of runs of consecutive `true`s in `flags`, and the number of
/// `true`s.
pub open spec fn call_groups(flags: Seq<bool>) -> (int, int)
    decreases flags.len(),
{
    if flags.len() == 0 {
        (0, 0)
    } else {
        let (g, c) = call_groups(flags.drop_last());
        if flags.last() {
            (if flags.len() >= 2 && flags[flags.len() - 2] { g } else { g + 1 }, c + 1)
        } else {
            (g, c)
        }
    }
}

/// Counts the call cycles and calls still to come (see `call_groups`).
pub fn count_call_groups(flags: &Vec<bool>) -> (r: (u64, u64))
    ensures
        r.0 == call_groups(flags@).0,
        r.1 == call_groups(flags@).1,
{
    let mut groups: u64 = 0;
    let mut calls: u64 = 0;
    let mut in_group = false;
    let mut i: usize = 0;
    assert(flags@.take(0) =~= Seq::<bool>::empty());
    while i < flags.len()
        invariant
            i <= flags@.len(),
            groups == call_groups(flags@.take(i as int)).0,
            calls == call_groups(flags@.take(i as int)).1,
            calls <= i,
            groups <= calls,
            in_group == (i > 0 && flags@[i - 1]),
        decreases flags.len() - i,
    {
        proof {
            assert(flags@.take(i + 1).drop_last() =~= flags@.take(i as int));
            assert(flags@.take(i + 1).last() == flags@[i as int]);
            if i >= 1 {
                assert(flags@.take(i + 1)[i - 1] == flags@[i - 1]);
            }
        }
        if flags[i] {
            calls += 1;
            if !in_group {
                groups += 1;
                in_group = true;
            }
        } else {
            in_group = false;
        }
        i += 1;
    }
    assert(flags@.take(i as int) =~= flags@);
    (groups, calls)
}

/// For each expression still to come, whether a fresh check (empty
/// environment that writes no logs, 10 000 gas) finds a call in it: only a
/// call form can be one, and every call form whose terms are valid and
/// that has no argument expression is one. For a call form with an
/// argument expression it is one exactly when that expression evaluates in
/// the fresh environment (see `check_ccall`).
pub fn call_flags(remaining: &Vec<LispVal>) -> (flags: Vec<bool>)
    ensures
        flags@.len() == remaining@.len(),
        forall|i: int| 0 <= i < flags@.len() ==> (#[trigger] flags@[i] ==> is_ccall_form(remaining@[i].sv())),
        forall|i: int| 0 <= i < flags@.len() && is_ccall_form(remaining@[i].sv())
            && call_parts(remaining@[i].sv()).1.len() == 3 && call_terms_of(remaining@[i].sv()) is Ok ==> #[trigger] flags@[i],
        forall|i: int| 0 <= i < flags@.len() && is_ccall_form(remaining@[i].sv())
            && call_parts(remaining@[i].sv()).1.len() > 3 && str_of(call_parts(remaining@[i].sv()).1[1]) is Some
            && str_of(call_parts(remaining@[i].sv()).1[2]) is Some && call_terms_of(remaining@[i].sv()) is Ok
            && (pure_eval(call_parts(remaining@[i].sv()).1[3], Seq::empty(), 10_000) matches Some((Ok(_), _, _)))
            ==> #[trigger] flags@[i],
{
    let mut flags: Vec<bool> = Vec::new();
    let mut i: usize = 0;
    while i < remaining.len()
        invariant
            i <= remaining@.len(),
            flags@.len() == i,
            forall|j: int| 0 <= j < i ==> (#[trigger] flags@[j] ==> is_ccall_form(remaining@[j].sv())),
            forall|j: int| 0 <= j < i && is_ccall_form(remaining@[j].sv())
                && call_parts(remaining@[j].sv()).1.len() == 3 && call_terms_of(remaining@[j].sv()) is Ok ==> #[trigger] flags@[j],
            forall|j: int| 0 <= j < i && is_ccall_form(remaining@[j].sv())
                && call_parts(remaining@[j].sv()).1.len() > 3 && str_of(call_parts(remaining@[j].sv()).1[1]) is Some
                && str_of(call_parts(remaining@[j].sv()).1[2]) is Some && call_terms_of(remaining@[j].sv()) is Ok
                && (pure_eval(call_parts(remaining@[j].sv()).1[3], Seq::empty(), 10_000) matches Some((Ok(_), _, _)))
                ==> #[trigger] flags@[j],
        decreases remaining.len() - i,
    {
        let mut scratch = Env::muted();
        let mut gas: u64 = 10_000;
        let found = match check_ccall(&remaining[i], &mut scratch, &mut gas) {
            Ok(Some(_)) => true,
            _ => false,
        };
        flags.push(found);
        i += 1;
    }
    flags
}

/// What the answer to running `code` in `env` with `gas_limit` is known to
/// be: the reader's error, `nil` for an empty program, `out of gas` with no
/// gas, and, for a program in the evaluator's functional core (see
/// `pure_eval`), the printed last value or the first error.
pub open spec fn program_answer(code: Seq<char>, env: Seq<(Seq<char>, SVal)>, gas_limit: u64, r: Seq<char>) -> bool {
    match parse_program(code) {
        Err(e) => r == "ERROR: "@ + e,
        Ok(vs) => {
            &&& vs.len() == 0 ==> r == "nil"@
            &&& vs.len() > 0 && gas_limit == 0 ==> r == "ERROR: out of gas"@
            &&& vs.len() > 0 && gas_limit >= vs.len() && (forall|i: int| 0 <= i < vs.len() ==> atom(#[trigger] vs[i]))
                ==> r == display(vs.last())
            &&& match pure_run(vs, 0, env, gas_limit as nat, SVal::Nil) {
                Some((Ok(v), _)) => r == display(v),
                Some((Err(e), _)) => r == "ERROR: "@ + e,
                None => true,
            }
        },
    }
}

fn answer(code: &str, env: Env, gas_limit: u64) -> (r: String)
    ensures
        program_answer(code@, env@, gas_limit, r@),
{
    let mut env = env;
    let ghost e0 = env@;
    let res = run_program(code, &mut env, gas_limit);
    proof { reveal_strlit("ERROR: "); reveal_strlit("out of gas"); reveal_strlit("ERROR: out of gas"); }
    let out = outcome_text(res);
    proof {
        assert("ERROR: "@ + "out of gas"@ =~= "ERROR: out of gas"@);
    }
    out
}

/// Evaluates `code` for `caller` in its own namespace (see `eval_env`) and
/// answers with the result or `ERROR: ...`.
pub fn eval_code(code: &str, caller: &str, gas_limit: u64) -> (r: String)
    ensures
        program_answer(code@, seq![prefix_binding(caller@)], gas_limit, r@),
{
    answer(code, eval_env(caller), gas_limit)
}

/// Evaluates `code` for `caller` with the bindings of `input_json` (see
/// `input_env`) and answers with the result or `ERROR: ...`.
pub fn eval_code_with_input(code: &str, input_json: &str, caller: &str, gas_limit: u64) -> (r: String)
    ensures
        program_answer(code@, input_bindings(input_json@).push(prefix_binding(caller@)), gas_limit, r@),
{
    answer(code, input_env(input_json, caller), gas_limit)
}

/// Whether a policy holds: its answer with the input is exactly `true`.
pub fn check_policy(policy: &str, input_json: &str, caller: &str, gas_limit: u64) -> (r: bool)
    ensures
        exists|t: Seq<char>| #[trigger] program_answer(policy@, input_bindings(input_json@).push(prefix_binding(caller@)),
            gas_limit, t) && r == (t == "true"@),
{
    let t = eval_code_with_input(policy, input_json, caller, gas_limit);
    proof { reveal_strlit("true"); }
    let r = crate::text::str_eq(t.as_str(), "true");
    assert(program_answer(policy@, input_bindings(input_json@).push(prefix_binding(caller@)), gas_limit, t@));
    r
}

/// Evaluates a stored policy or script: its text is read from the stored
/// bytes; a missing one is answered with `ERROR: <kind> '<name>' not found`.
pub fn eval_stored(kind: &str, name: &str, stored: Option<Vec<u8>>, input_json: Option<&str>, caller: &str,
    gas_limit: u64) -> (r: String)
    ensures
        match stored {
            None => r@ == "ERROR: "@ + kind@ + " '"@ + name@ + "' not found"@,
            Some(bytes) => program_answer(utf8_lossy_of(bytes@), match input_json {
                Some(i) => input_bindings(i@).push(prefix_binding(caller@)),
                None => seq![prefix_binding(caller@)],
            }, gas_limit, r@),
        },
{
    match stored {
        None => not_found_text(kind, name),
        Some(bytes) => {
            let code = utf8_lossy(&bytes);
            match input_json {
                Some(input) => eval_code_with_input(code.as_str(), input, caller, gas_limit),
                None => eval_code(code.as_str(), caller, gas_limit),
            }
        },
    }
}

/// Starts an asynchronous evaluation of a stored script (see `start_async`);
/// a missing one is answered with `ERROR: script '<name>' not found`.
pub fn start_stored_async(name: &str, stored: Option<Vec<u8>>, input_json: Option<&str>, caller: &str,
    gas_limit: u64) -> (s: AsyncStep)
    ensures
        stored is None ==> (s matches AsyncStep::Finished { result, notify }
            && result@ == "ERROR: script '"@ + name@ + "' not found"@ && notify is None),
        s matches AsyncStep::Finished { notify, .. } ==> notify is None,
        s matches AsyncStep::Suspend { yields, state } ==> yields@.len() > 0 && state.gas <= gas_limit
            && state.callback is None,
{
    match stored {
        None => {
            let t = not_found_text("script", name);
            proof {
                reveal_strlit("script");
                reveal_strlit("ERROR: ");
                reveal_strlit(" '");
                reveal_strlit("' not found");
                reveal_strlit("ERROR: script '");
                assert("ERROR: "@ + "script"@ + " '"@ + name@ + "' not found"@ =~= "ERROR: script '"@ + name@ + "' not found"@);
            }
            AsyncStep::Finished { result: t, notify: None }
        },
        Some(bytes) => {
            let code = utf8_lossy(&bytes);
            let env = match input_json {
                Some(input) => input_env(input, caller),
                None => eval_env(caller),
            };
            start_async(code.as_str(), env, gas_limit, None)
        },
    }
}

// ---------------------------------------------------------------------------
// Laws
// ---------------------------------------------------------------------------

/// An evaluation with input always finds its caller's own storage namespace:
/// no input can shadow `__storage_prefix__`.
pub proof fn lemma_prefix_not_shadowed(input_json: Seq<char>, caller: Seq<char>)
    ensures
        lookup(input_bindings(input_json).push(prefix_binding(caller)), prefix_name())
            == Some(SVal::Str(prefix_text(caller))),
{
}

/// Stored policies, scripts, modules and evaluation data never share a key.
pub proof fn lemma_kind_keys_distinct(a: Seq<char>, b: Seq<char>, account: Seq<char>, key: Seq<char>)
    ensures
        kind_key("policy"@, a) != kind_key("script"@, b),
        kind_key("policy"@, a) != kind_key("module"@, b),
        kind_key("script"@, a) != kind_key("module"@, b),
        kind_key("policy"@, a) != prefix_text(account) + key,
        kind_key("script"@, a) != prefix_text(account) + key,
        kind_key("module"@, a) != prefix_text(account) + key,
{
    reveal_strlit("policy");
    reveal_strlit("script");
    reveal_strlit("module");
    reveal_strlit("eval:");
    assert(kind_key("policy"@, a)[0] == 'p');
    assert(kind_key("script"@, a)[0] == 's');
    assert(kind_key("script"@, b)[0] == 's');
    assert(kind_key("module"@, b)[0] == 'm');
    assert(kind_key("module"@, a)[0] == 'm');
    assert((prefix_text(account) + key)[0] == 'e');
}

/// Account ids hold no `:`.
pub open spec fn no_colon(s: Seq<char>) -> bool {
    forall|i: int| 0 <= i < s.len() ==> s[i] != ':'
}

/// Evaluation data is kept per caller: for accounts without `:` (as NEAR
/// account ids are), two different callers never share a storage key.
pub proof fn lemma_data_keys_isolated(a1: Seq<char>, k1: Seq<char>, a2: Seq<char>, k2: Seq<char>)
    requires
        a1 != a2,
        no_colon(a1),
        no_colon(a2),
    ensures
        prefix_text(a1) + k1 != prefix_text(a2) + k2,
{
    reveal_strlit("eval:");
    reveal_strlit(":");
    let s1 = prefix_text(a1) + k1;
    let s2 = prefix_text(a2) + k2;
    assert(forall|i: int| 0 <= i < a1.len() ==> s1[5 + i] == a1[i]);
    assert(forall|i: int| 0 <= i < a2.len() ==> s2[5 + i] == a2[i]);
    assert(s1[5 + a1.len() as int] == ':');
    assert(s2[5 + a2.len() as int] == ':');
    if a1.len() == a2.len() {
        let i = choose|i: int| 0 <= i < a1.len() && a1[i] != a2[i];
        assert(!(a1 =~= a2));
        assert(s1[5 + i] != s2[5 + i]);
    } else if a1.len() < a2.len() {
        assert(s2[5 + a1.len() as int] == a2[a1.len() as int]);
        assert(s1[5 + a1.len() as int] != s2[5 + a1.len() as int]);
    } else {
        assert(s1[5 + a2.len() as int] == a1[a2.len() as int]);
        assert(s1[5 + a2.len() as int] != s2[5 + a2.len() as int]);
    }
}

/// The resumed evaluation always gets at least the yield's 5 TGas, and never
/// more than it needs.
pub proof fn lemma_resume_gas_bounds(gs: Seq<u64>, prepaid: int, used: int, cycles: int, ccalls: int)
    requires
        gs.len() > 0,
        cycles >= 0,
        ccalls >= 0,
    ensures
        5_000_000_000_000 <= resume_gas_of(gs, prepaid, used, cycles, ccalls),
        resume_gas_of(gs, prepaid, used, cycles, ccalls) <= resume_needed(gs.len() as int, cycles, ccalls),
{
    let n = gs.len() as int;
    assert(n * 500_000_000_000 >= 0) by (nonlinear_arith) requires n > 0;
    assert(cycles * 20_000_000_000_000 >= 0) by (nonlinear_arith) requires cycles >= 0;
    assert(ccalls * 10_000_000_000_000 >= 0) by (nonlinear_arith) requires ccalls >= 0;
}

/// After a batch's results are bound, a call that `define`d a variable
/// finds its own result under that variable.
pub proof fn lemma_inject_binds_var(env: Seq<(Seq<char>, SVal)>, vars: Seq<Option<String>>, results: Seq<Seq<u8>>, n: nat)
    requires
        1 <= n <= results.len(),
        result_var(vars, n - 1) != results_name(),
    ensures
        lookup(inject(env, vars, results, n), result_var(vars, n - 1)) == Some(result_value(results[n - 1])),
{
    let before = inject(env, vars, results, (n - 1) as nat);
    let var = result_var(vars, n - 1);
    let v = result_value(results[n - 1]);
    let e1 = before.push((var, v));
    lemma_lookup_push(before, var, v, results_name());
    lemma_newest_index(e1, results_name());
    match lookup(e1, results_name()) {
        Some(SVal::List(vs)) => {
            lemma_lookup_update_newest(e1, results_name(), SVal::List(vs.push(v)), var);
        },
        _ => {
            lemma_lookup_push(e1, results_name(), SVal::List(seq![v]), var);
        },
    }
}

/// The values of the first `n` results of a batch, in order.
pub open spec fn result_values(results: Seq<Seq<u8>>, n: nat) -> Seq<SVal> {
    Seq::new(n, |i: int| result_value(results[i]))
}

/// Binding a batch's results lists them all, in order, under
/// `__ccall_results__` (when it was not bound before and no call binds that
/// name itself).
pub proof fn lemma_inject_lists_results(env: Seq<(Seq<char>, SVal)>, vars: Seq<Option<String>>, results: Seq<Seq<u8>>, n: nat)
    requires
        n <= results.len(),
        lookup(env, results_name()) is None,
        forall|i: int| 0 <= i < n ==> #[trigger] result_var(vars, i) != results_name(),
    ensures
        n == 0 ==> lookup(inject(env, vars, results, n), results_name()) is None,
        n > 0 ==> lookup(inject(env, vars, results, n), results_name()) == Some(SVal::List(result_values(results, n))),
    decreases n,
{
    if n > 0 {
        lemma_inject_lists_results(env, vars, results, (n - 1) as nat);
        let before = inject(env, vars, results, (n - 1) as nat);
        let var = result_var(vars, n - 1);
        assert(var != results_name());
        let v = result_value(results[n - 1]);
        let e1 = before.push((var, v));
        lemma_lookup_push(before, var, v, results_name());
        lemma_newest_index(e1, results_name());
        if n == 1 {
            lemma_lookup_push(e1, results_name(), SVal::List(seq![v]), results_name());
            assert(result_values(results, 1) =~= seq![v]);
        } else {
            let vs = result_values(results, (n - 1) as nat);
            lemma_lookup_update_newest(e1, results_name(), SVal::List(vs.push(v)), results_name());
            assert(result_values(results, n) =~= vs.push(v));
        }
    }
}

} // verus!
