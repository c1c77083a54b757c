use near_lisp_verified::batch::{batch_payload, decode_batch};
use near_lisp_verified::contract::{
    auto_resume_args, call_flags, count_call_groups, data_key, error_text, eval_allowed, eval_code, eval_env,
    eval_stored, initial_gas_limit, inject_results, input_env, module_key, name_event, not_found_text, outcome_text,
    ownership_event, plan_batch_gas, policy_key, resume_args, resume_step, script_key, start_async,
    start_stored_async, storage_balance_text, storage_prefix, yield_id_text, AsyncStep,
};
use near_lisp_verified::parser::parse_all;
use near_lisp_verified::types::{Env, LispVal};
use near_lisp_verified::vm::{CallbackInfo, RunResult, run_program_with_ccall};

const T: u64 = 1_000_000_000_000;

#[test]
fn gas_limit_defaults_when_zero() {
    assert_eq!(initial_gas_limit(0), 10_000);
    assert_eq!(initial_gas_limit(5), 5);
}

#[test]
fn whitelist_rules() {
    assert!(eval_allowed(true, false));
    assert!(eval_allowed(true, true));
    assert!(eval_allowed(false, true));
    assert!(!eval_allowed(false, false));
}

#[test]
fn storage_keys() {
    assert_eq!(storage_prefix("alice.near"), "eval:alice.near:");
    assert_eq!(policy_key("p"), "policy:p");
    assert_eq!(script_key("s"), "script:s");
    assert_eq!(module_key("m"), "module:m");
    assert_eq!(data_key("alice.near", "k"), "eval:alice.near:k");
    assert_ne!(data_key("alice.near", "k"), data_key("bob.near", "k"));
    assert_ne!(policy_key("x"), script_key("x"));
}

#[test]
fn answer_texts() {
    assert_eq!(error_text("boom"), "ERROR: boom");
    assert_eq!(not_found_text("policy", "p1"), "ERROR: policy 'p1' not found");
    assert_eq!(outcome_text(Ok("3".to_string())), "3");
    assert_eq!(outcome_text(Err("bad".to_string())), "ERROR: bad");
}

#[test]
fn event_lines() {
    assert_eq!(
        name_event("save_policy", "p"),
        "EVENT_JSON:{\"standard\":\"near-lisp\",\"version\":\"1.0.0\",\"event\":\"save_policy\",\"data\":{\"name\":\"p\"}}"
    );
    assert_eq!(
        ownership_event("a.near", "b.near"),
        "EVENT_JSON:{\"standard\":\"near-lisp\",\"version\":\"1.0.0\",\"event\":\"transfer_ownership\",\"data\":{\"old_owner\":\"a.near\",\"new_owner\":\"b.near\"}}"
    );
}

#[test]
fn balance_text() {
    assert_eq!(storage_balance_text(100, 30), "{\"total\":\"100\",\"available\":\"70\",\"locked\":\"30\"}");
    assert_eq!(storage_balance_text(10, 30), "{\"total\":\"10\",\"available\":\"0\",\"locked\":\"30\"}");
}

#[test]
fn yield_texts() {
    assert_eq!(yield_id_text(5, 7), "vm:5:7");
    assert_eq!(resume_args("vm:5:7"), "{\"yield_id\":\"vm:5:7\"}");
    assert_eq!(resume_args("a\"b"), "{\"yield_id\":\"a\\\"b\"}");
    assert_eq!(auto_resume_args("00ff"), "{\"data_id_hex\":\"00ff\"}");
}

#[test]
fn plain_env_has_only_the_prefix() {
    let env = eval_env("alice.near");
    assert_eq!(env.len(), 1);
    assert_eq!(env.get("__storage_prefix__"), Some(&LispVal::Str("eval:alice.near:".to_string())));
}

#[test]
fn input_env_binds_members_then_input_then_prefix() {
    let env = input_env(r#"{"b": 2, "a": "x"}"#, "alice.near");
    let names: Vec<&str> = env.bindings().iter().map(|(k, _)| k.as_str()).collect();
    assert_eq!(names, vec!["a", "b", "input", "__storage_prefix__"]);
    assert_eq!(env.get("b"), Some(&LispVal::Num(2)));
    assert_eq!(
        env.get("input"),
        Some(&LispVal::Dict(vec![
            ("a".to_string(), LispVal::Str("x".to_string())),
            ("b".to_string(), LispVal::Num(2)),
        ]))
    );
}

#[test]
fn input_env_cannot_shadow_prefix() {
    let env = input_env(r#"{"__storage_prefix__": "evil"}"#, "bob.near");
    assert_eq!(env.get("__storage_prefix__"), Some(&LispVal::Str("eval:bob.near:".to_string())));
}

#[test]
fn input_env_ignores_non_objects() {
    assert_eq!(input_env("[1, 2]", "bob.near").len(), 1);
    assert_eq!(input_env("not json", "bob.near").len(), 1);
}

#[test]
fn eval_code_answers() {
    assert_eq!(eval_code("", "bob.near", 10), "nil");
    assert_eq!(eval_code("1", "bob.near", 0), "ERROR: out of gas");
    assert_eq!(eval_code("(+ 1", "bob.near", 10), "ERROR: unexpected EOF: missing )");
    assert_eq!(eval_code("__storage_prefix__", "bob.near", 10), "\"eval:bob.near:\"");
}

#[test]
fn stored_missing_script() {
    assert_eq!(eval_stored("script", "s", None, None, "bob.near", 10), "ERROR: script 's' not found");
    match start_stored_async("s", None, None, "bob.near", 10) {
        AsyncStep::Finished { result, notify } => {
            assert_eq!(result, "ERROR: script 's' not found");
            assert!(notify.is_none());
        }
        AsyncStep::Suspend { .. } => panic!("expected an answer"),
    }
}

fn callback() -> Option<CallbackInfo> {
    Some(CallbackInfo { account: "agent.near".to_string(), method: "on_result".to_string() })
}

#[test]
fn async_done_notifies_callback() {
    match start_async("(+ 1 2)", Env::new(), 100, callback()) {
        AsyncStep::Finished { result, notify } => {
            assert_eq!(result, "3");
            let cb = notify.expect("callback");
            assert_eq!(cb.account, "agent.near");
            assert_eq!(cb.method, "on_result");
        }
        AsyncStep::Suspend { .. } => panic!("expected an answer"),
    }
}

#[test]
fn async_error_does_not_notify() {
    match start_async("(undefined-fn)", Env::new(), 100, callback()) {
        AsyncStep::Finished { result, notify } => {
            assert!(result.starts_with("ERROR: "), "got {}", result);
            assert!(notify.is_none());
        }
        AsyncStep::Suspend { .. } => panic!("expected an answer"),
    }
}

#[test]
fn async_suspend_carries_callback() {
    match start_async(r#"(define p (near/ccall "o.near" "get" "{}")) p"#, Env::new(), 100, callback()) {
        AsyncStep::Suspend { yields, state } => {
            assert_eq!(yields.len(), 1);
            assert_eq!(state.callback.expect("callback").account, "agent.near");
            assert_eq!(state.remaining.len(), 1);
        }
        AsyncStep::Finished { result, .. } => panic!("expected a suspension, got {}", result),
    }
}

#[test]
fn injected_results_are_bound_and_listed() {
    let mut env = Env::new();
    let vars = vec![Some("price".to_string()), None];
    let results = vec![b"42".to_vec(), b"not json".to_vec()];
    inject_results(&mut env, &vars, &results);
    assert_eq!(env.get("price"), Some(&LispVal::Num(42)));
    assert_eq!(env.get("__ccall_result__"), Some(&LispVal::Str("not json".to_string())));
    assert_eq!(
        env.get("__ccall_results__"),
        Some(&LispVal::List(vec![LispVal::Num(42), LispVal::Str("not json".to_string())]))
    );
}

#[test]
fn resume_runs_the_rest() {
    let mut env = Env::new();
    let r = run_program_with_ccall(r#"(define p (near/ccall "o.near" "get" "{}")) (+ p 1)"#, &mut env, 100).unwrap();
    let state = match r {
        RunResult::Yield { state, .. } => state,
        RunResult::Done(s) => panic!("expected a yield, got {}", s),
    };
    match resume_step(state, &vec![b"41".to_vec()]) {
        AsyncStep::Finished { result, notify } => {
            assert_eq!(result, "42");
            assert!(notify.is_none());
        }
        AsyncStep::Suspend { .. } => panic!("expected an answer"),
    }
}

#[test]
fn gas_plan_for_one_call() {
    let plan = plan_batch_gas(&vec![10], 300 * T, 10 * T, 0, 0).unwrap();
    assert_eq!(plan.total_ccall_gas, 10 * T);
    assert_eq!(plan.auto_resume_gas, 3 * T);
    assert_eq!(plan.reserve, 3 * T);
    // capped at what the resume needs: 5 T + 0.5 T a result
    assert_eq!(plan.resume_gas, 5_500_000_000_000);
}

#[test]
fn gas_plan_with_later_cycles_and_little_gas() {
    let plan = plan_batch_gas(&vec![10, 20], 300 * T, 10 * T, 1, 2).unwrap();
    assert_eq!(plan.total_ccall_gas, 30 * T);
    assert_eq!(plan.reserve, 3_300_000_000_000);
    // needed: 5 + 2*0.5 + 20 + 2*10 = 46 T; plenty is left, so all of it
    assert_eq!(plan.resume_gas, 46 * T);
    let tight = plan_batch_gas(&vec![10], 20 * T, 10 * T, 0, 0).unwrap();
    // nothing is left after the fixed costs: the yield's 5 T only
    assert_eq!(tight.resume_gas, 5 * T);
}

#[test]
fn gas_plan_overflow_is_refused() {
    assert!(plan_batch_gas(&vec![u64::MAX], 300 * T, 0, 0, 0).is_none());
    assert!(plan_batch_gas(&vec![10], 300 * T, 0, u64::MAX, 0).is_none());
}

#[test]
fn call_groups_counted() {
    assert_eq!(count_call_groups(&vec![]), (0, 0));
    assert_eq!(count_call_groups(&vec![true, true, false, true]), (2, 3));
    assert_eq!(count_call_groups(&vec![false, true, false, false, true, true]), (2, 3));
}

#[test]
fn call_flags_find_top_level_calls() {
    let exprs = parse_all(r#"(near/ccall "a.near" "m" "{}") (+ 1 2) (define x (near/ccall-view "b.near" "m"))"#).unwrap();
    assert_eq!(call_flags(&exprs), vec![true, false, true]);
}

#[test]
fn batch_payload_encoding_and_back() {
    let results: Vec<Vec<u8>> = vec![vec![1, 2], vec![], vec![7]];
    let payload = batch_payload(&results).unwrap();
    assert_eq!(payload, vec![3, 0, 0, 0, 2, 0, 0, 0, 1, 2, 0, 0, 0, 0, 1, 0, 0, 0, 7]);
    assert_eq!(decode_batch(&payload), Some(results));
    assert_eq!(batch_payload(&Vec::new()).unwrap(), vec![0, 0, 0, 0]);
}

#[test]
fn batch_payload_rejects_malformed_bytes() {
    assert_eq!(decode_batch(&vec![1, 0, 0]), None);
    assert_eq!(decode_batch(&vec![1, 0, 0, 0, 5, 0, 0, 0, 1]), None);
    assert_eq!(decode_batch(&vec![0, 0, 0, 0, 9]), None);
}
