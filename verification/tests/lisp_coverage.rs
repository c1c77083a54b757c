use near_lisp_verified::contract::{name_event, ownership_event, start_stored_async, storage_balance_text, AsyncStep};
use near_lisp_verified::types::Env;
use near_lisp_verified::vm::run_program;

fn eval_str(code: &str) -> String {
    let mut env = Env::new();
    run_program(code, &mut env, 10_000).unwrap_or_else(|e| format!("ERROR: {}", e))
}

fn setup_test_vm() {
    let context = near_sdk::test_utils::VMContextBuilder::new().build();
    near_sdk::env::set_blockchain_interface(near_sdk::MockedBlockchain::new(
        context,
        near_sdk::test_vm_config(),
        near_sdk::RuntimeFeesConfig::test(),
        Default::default(),
        near_sdk::mock::with_mocked_blockchain(|b| b.take_storage()),
        Default::default(),
        None,
    ));
}

fn assert_event(emitted_event: &str, expected_event: &str, expected_name: &str) {
    assert!(
        emitted_event.starts_with("EVENT_JSON:"),
        "not an EVENT_JSON log: {}",
        emitted_event
    );
    let json_str = &emitted_event["EVENT_JSON:".len()..];
    let parsed: serde_json::Value = serde_json::from_str(json_str)
        .unwrap_or_else(|e| panic!("invalid JSON in event: {} — {}", json_str, e));
    assert_eq!(parsed["standard"], "near-lisp");
    assert_eq!(parsed["version"], "1.0.0");
    assert_eq!(parsed["event"], expected_event);
    assert_eq!(parsed["data"]["name"], expected_name);
}

fn async_answer(step: AsyncStep) -> String {
    match step {
        AsyncStep::Finished { result, .. } => result,
        AsyncStep::Suspend { .. } => "YIELDING".to_string(),
    }
}

#[test]
fn test_require_math_with_prefix() {
    let code = r#"
        (require "math" "m")
        (m/abs -10)
    "#;
    assert_eq!(eval_str(code), "10");
}

#[test]
fn test_require_math_prefix_max() {
    let code = r#"
        (require "math" "m")
        (m/max 3 7)
    "#;
    assert_eq!(eval_str(code), "7");
}

#[test]
fn test_require_prefix_caching() {
    let code = r#"
        (require "math" "m")
        (require "math" "m")
        (m/min 5 3)
    "#;
    assert_eq!(eval_str(code), "3");
}

#[test]
fn test_require_crypto_sha256_bytes() {
    setup_test_vm();
    let code = r#"
        (require "crypto")
        (hash/sha256-bytes "hello")
    "#;
    let result = eval_str(code);
    assert!(result.contains("2cf24dba"), "got: {}", result);
}

#[test]
fn test_require_crypto_keccak256_bytes() {
    setup_test_vm();
    let code = r#"
        (require "crypto")
        (hash/keccak256-bytes "hello")
    "#;
    let result = eval_str(code);
    assert!(!result.contains("ERROR"), "got: {}", result);
    assert!(result.len() > 10, "should return hex hash, got: {}", result);
}

#[test]
fn test_contract_storage_balance() {
    setup_test_vm();
    let balance = storage_balance_text(
        near_sdk::env::account_balance().as_yoctonear(),
        near_sdk::env::account_locked_balance().as_yoctonear(),
    );
    assert!(balance.contains("total"), "got: {}", balance);
    assert!(balance.contains("available"), "got: {}", balance);
    assert!(balance.contains("locked"), "got: {}", balance);
}

#[test]
fn test_near_predecessor_returns_string() {
    setup_test_vm();
    let result = eval_str("(near/predecessor)");
    assert_eq!(result, r#""bob.near""#, "got: {}", result);
}

#[test]
fn test_near_signer_returns_string() {
    setup_test_vm();
    let result = eval_str("(near/signer)");
    assert_eq!(result, r#""bob.near""#, "got: {}", result);
}

#[test]
fn test_near_predecessor_and_equals_consistent() {
    setup_test_vm();
    let pred = eval_str("(near/predecessor)");
    let eq_result = eval_str(r#"(near/predecessor= "bob.near")"#);
    assert_eq!(eq_result, "true");
    assert!(pred.contains("bob.near"), "pred={}", pred);
}

#[test]
fn test_contract_eval_script_async() {
    setup_test_vm();
    let stored = Some("(+ 1 2)".as_bytes().to_vec());
    let result = async_answer(start_stored_async("async-test", stored, None, "bob.near", 10_000));
    // Simple expression with no ccalls returns result directly
    assert!(result == "3" || result == "YIELDING", "got: {}", result);
}

#[test]
fn test_contract_eval_script_async_missing() {
    setup_test_vm();
    let result = async_answer(start_stored_async("nonexistent", None, None, "bob.near", 10_000));
    assert!(result.contains("not found"), "got: {}", result);
}

#[test]
fn test_near_log_with_vm() {
    setup_test_vm();
    let mut e = Env::new();
    let r = run_program(r#"(near/log "test message")"#, &mut e, 10_000);
    assert_eq!(r.unwrap(), "nil");
}

#[test]
fn test_nep297_save_policy_event() {
    setup_test_vm();
    let event = name_event("save_policy", "test-evt-policy");
    assert_event(&event, "save_policy", "test-evt-policy");
}

#[test]
fn test_nep297_remove_policy_event() {
    setup_test_vm();
    let event = name_event("remove_policy", "to-remove-pol");
    assert_event(&event, "remove_policy", "to-remove-pol");
}

#[test]
fn test_nep297_save_script_event() {
    setup_test_vm();
    let event = name_event("save_script", "test-evt-script");
    assert_event(&event, "save_script", "test-evt-script");
}

#[test]
fn test_nep297_remove_script_event() {
    setup_test_vm();
    let event = name_event("remove_script", "to-remove-scr");
    assert_event(&event, "remove_script", "to-remove-scr");
}

#[test]
fn test_nep297_save_module_event() {
    setup_test_vm();
    let event = name_event("save_module", "test-evt-module");
    assert_event(&event, "save_module", "test-evt-module");
}

#[test]
fn test_nep297_remove_module_event() {
    setup_test_vm();
    let event = name_event("remove_module", "to-remove-mod");
    assert_event(&event, "remove_module", "to-remove-mod");
}

#[test]
fn test_nep297_transfer_ownership_event() {
    setup_test_vm();
    let evt = ownership_event("bob.near", "new-owner.near");
    assert!(evt.starts_with("EVENT_JSON:"), "not EVENT_JSON: {}", evt);
    let json_str = &evt["EVENT_JSON:".len()..];
    let parsed: serde_json::Value = serde_json::from_str(json_str).unwrap();
    assert_eq!(parsed["standard"], "near-lisp");
    assert_eq!(parsed["version"], "1.0.0");
    assert_eq!(parsed["event"], "transfer_ownership");
    assert_eq!(parsed["data"]["new_owner"], "new-owner.near");
}


#[test]
fn logs_stay_within_the_call_budget() {
    setup_test_vm();
    let mut e = Env::new();
    let mut code = String::new();
    for _ in 0..120 {
        code.push_str("(near/log \"line\") ");
    }
    let r = run_program(&code, &mut e, 100_000);
    assert_eq!(r.unwrap(), "nil");
    assert_eq!(near_sdk::test_utils::get_logs().len(), 96);
}
