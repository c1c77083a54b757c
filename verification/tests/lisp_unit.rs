use near_lisp_verified::contract::{eval_allowed, eval_code, eval_code_with_input, eval_stored, initial_gas_limit};
use near_lisp_verified::json::json_to_lisp;
use near_lisp_verified::parser::parse_all;
use near_lisp_verified::types::{Env, LispVal};
use near_lisp_verified::vm::{run_program, run_program_with_ccall, run_remaining_with_ccall, RunResult};

fn eval_str(code: &str) -> String {
    let mut env = Env::new();
    run_program(code, &mut env, 10_000).unwrap_or_else(|e| format!("ERROR: {}", e))
}

fn eval_str_gas(code: &str, gas: u64) -> String {
    let mut env = Env::new();
    run_program(code, &mut env, gas).unwrap_or_else(|e| format!("ERROR: {}", e))
}

fn setup_test_vm() {
    let context = near_sdk::test_utils::VMContextBuilder::new().build();
    near_sdk::env::set_blockchain_interface(near_sdk::MockedBlockchain::new(
        context,
        near_sdk::test_vm_config(),
        near_sdk::RuntimeFeesConfig::test(),
        Default::default(),
        near_sdk::mock::with_mocked_blockchain(|b| b.take_storage()),
        Default::default(),
        None,
    ));
}

fn env_from_input(input: &str) -> Env {
    let mut env = Env::new();
    if let Ok(map) = serde_json::from_str::<serde_json::Map<String, serde_json::Value>>(input) {
        for (key, val) in map {
            env.push(key, json_to_lisp(&val.to_string()).unwrap());
        }
    }
    env
}

#[test]
fn test_arithmetic() {
    assert_eq!(eval_str("(+ 1 2)"), "3");
    assert_eq!(eval_str("(* 3 4)"), "12");
    assert_eq!(eval_str("(- 10 3)"), "7");
    assert_eq!(eval_str("(/ 10 2)"), "5");
    assert_eq!(eval_str("(mod 10 3)"), "1");
}

#[test]
fn test_nested_arithmetic() {
    assert_eq!(eval_str("(+ 1 (* 2 3))"), "7");
    assert_eq!(eval_str("(* (+ 2 3) (- 10 5))"), "25");
}

#[test]
fn test_comparison() {
    assert_eq!(eval_str("(> 5 3)"), "true");
    assert_eq!(eval_str("(< 2 5)"), "true");
    assert_eq!(eval_str("(= 3 3)"), "true");
    assert_eq!(eval_str("(!= 3 4)"), "true");
    assert_eq!(eval_str("(>= 5 5)"), "true");
    assert_eq!(eval_str("(<= 4 5)"), "true");
}

#[test]
fn test_boolean_logic() {
    assert_eq!(eval_str("(and true true)"), "true");
    assert_eq!(eval_str("(and true false)"), "false");
    assert_eq!(eval_str("(or false true)"), "true");
    assert_eq!(eval_str("(or false false)"), "false");
    assert_eq!(eval_str("(not true)"), "false");
    assert_eq!(eval_str("(not false)"), "true");
}

#[test]
fn test_define_and_lambda() {
    assert_eq!(eval_str("(define x 42) x"), "42");
    assert_eq!(
        eval_str("(define square (lambda (n) (* n n))) (square 5)"),
        "25"
    );
    assert_eq!(
        eval_str("(define add (lambda (a b) (+ a b))) (add 3 4)"),
        "7"
    );
}

#[test]
fn test_inline_lambda() {
    assert_eq!(eval_str("((lambda (x) (* x x)) 6)"), "36");
}

#[test]
fn test_if() {
    assert_eq!(eval_str("(if (> 5 3) 10 20)"), "10");
    assert_eq!(eval_str("(if (< 5 3) 10 20)"), "20");
    assert_eq!(eval_str("(if true 1)"), "1");
    assert_eq!(eval_str("(if false 1)"), "nil");
}

#[test]
fn test_cond() {
    let code = r#"
        (cond
            ((> 1 2) "first")
            ((> 2 1) "second")
            (else "third"))
    "#;
    assert_eq!(eval_str(code), "\"second\"");
}

#[test]
fn test_let() {
    assert_eq!(eval_str("(let ((x 10) (y 20)) (+ x y))"), "30");
}

#[test]
fn test_progn() {
    assert_eq!(eval_str("(progn (define a 1) (define b 2) (+ a b))"), "3");
}

#[test]
fn test_list_ops() {
    assert_eq!(eval_str("(list 1 2 3)"), "(1 2 3)");
    assert_eq!(eval_str("(car (list 1 2 3))"), "1");
    assert_eq!(eval_str("(cdr (list 1 2 3))"), "(2 3)");
    assert_eq!(eval_str("(len (list 1 2 3))"), "3");
    assert_eq!(eval_str("(nth 1 (list 10 20 30))"), "20");
    assert_eq!(eval_str("(cons 0 (list 1 2))"), "(0 1 2)");
    assert_eq!(eval_str("(append (list 1 2) (list 3 4))"), "(1 2 3 4)");
}

#[test]
fn test_string_ops() {
    assert_eq!(eval_str("(str-contains \"hello world\" \"world\")"), "true");
    assert_eq!(eval_str("(str-contains \"hello\" \"xyz\")"), "false");
    assert_eq!(eval_str("(len \"hello\")"), "5");
}

#[test]
fn test_type_checks() {
    assert_eq!(eval_str("(nil? nil)"), "true");
    assert_eq!(eval_str("(nil? 42)"), "false");
    assert_eq!(eval_str("(list? (list 1 2))"), "true");
    assert_eq!(eval_str("(number? 42)"), "true");
    assert_eq!(eval_str("(string? \"hi\")"), "true");
}

#[test]
fn test_recursive_fibonacci() {
    let code = r#"
        (define fib (lambda (n)
            (if (<= n 1)
                n
                (+ (fib (- n 1)) (fib (- n 2))))))
        (fib 10)
    "#;
    assert_eq!(eval_str(code), "55");
}

#[test]
fn test_fibonacci_15() {
    let code = r#"
        (define fib (lambda (n)
            (if (<= n 1)
                n
                (+ (fib (- n 1)) (fib (- n 2))))))
        (fib 15)
    "#;
    assert_eq!(eval_str_gas(code, 50_000), "610");
}

#[test]
fn test_higher_order() {
    let code = r#"
        (define apply (lambda (f x) (f x)))
        (define double (lambda (n) (* n 2)))
        (apply double 21)
    "#;
    assert_eq!(eval_str(code), "42");
}

#[test]
fn test_closures() {
    let code = r#"
        (define make-adder (lambda (n)
            (lambda (x) (+ n x))))
        (define add5 (make-adder 5))
        (add5 10)
    "#;
    assert_eq!(eval_str(code), "15");
}

#[test]
fn test_gas_limit() {
    let mut env = Env::new();
    let code = r#"
        (define fib (lambda (n)
            (if (<= n 1) n (+ (fib (- n 1)) (fib (- n 2))))))
        (fib 20)
    "#;
    let result = run_program(code, &mut env, 50);
    assert!(result.is_err());
    assert!(result.unwrap_err().contains("gas"));
}

#[test]
fn test_policy_pass() {
    let policy = r#"(and (>= score 85) (<= duration 3600) (str-contains status "complete"))"#;
    let input = r#"{"score": 90, "duration": 1200, "status": "complete"}"#;
    let mut env = env_from_input(input);
    assert_eq!(run_program(policy, &mut env, 10_000).unwrap(), "true");
}

#[test]
fn test_policy_fail() {
    let policy = r#"(and (>= score 85) (<= duration 3600) (str-contains status "complete"))"#;
    let input = r#"{"score": 70, "duration": 1200, "status": "complete"}"#;
    let mut env = env_from_input(input);
    assert_eq!(run_program(policy, &mut env, 10_000).unwrap(), "false");
}

#[test]
fn test_complex_policy() {
    let policy = r#"
        (let ((min-score 80)
              (max-time 5000))
            (and
                (>= score min-score)
                (<= duration max-time)
                (or
                    (str-contains status "complete")
                    (str-contains status "partial"))))
    "#;
    let input = r#"{"score": 92, "duration": 3000, "status": "partial success"}"#;
    let mut env = env_from_input(input);
    assert_eq!(run_program(policy, &mut env, 10_000).unwrap(), "true");
}

#[test]
fn test_run_program_no_ccall() {
    // run_program_with_ccall returns Done when no ccall is present
    let mut env = Env::new();
    let result = run_program_with_ccall("(+ 1 2)", &mut env, 10_000).unwrap();
    match result {
        RunResult::Done(s) => assert_eq!(s, "3"),
        RunResult::Yield { .. } => panic!("Expected Done, got Yield"),
    }
}

#[test]
fn test_run_program_ccall_define_pattern() {
    // (define price (near/ccall "ref.near" "get_price" "{}"))
    // Should yield with pending_vars = [Some("price")]
    let mut env = Env::new();
    let code = r#"
        (define x 42)
        (define price (near/ccall "ref.near" "get_price" "{}"))
        (+ x 10)
    "#;
    let result = run_program_with_ccall(code, &mut env, 10_000).unwrap();
    match result {
        RunResult::Yield { yields, state } => {
            assert_eq!(yields.len(), 1);
            assert_eq!(yields[0].account, "ref.near");
            assert_eq!(yields[0].method, "get_price");
            assert_eq!(state.pending_vars, vec![Some("price".to_string())]);
            // x=42 should be in the env
            assert!(state
                .env.bindings().iter()
                .any(|(k, v)| k == "x" && *v == LispVal::Num(42)));
            // remaining should contain (+ x 10)
            assert_eq!(state.remaining.len(), 1);
        }
        RunResult::Done(_) => panic!("Expected Yield, got Done"),
    }
}

#[test]
fn test_run_program_ccall_standalone_pattern() {
    // (near/ccall "ref.near" "get_price" "{}") standalone
    let mut env = Env::new();
    let code = r#"
        (near/ccall "oracle.near" "latest" "{}")
        (near/ccall-result)
    "#;
    let result = run_program_with_ccall(code, &mut env, 10_000).unwrap();
    match result {
        RunResult::Yield { yields, state } => {
            assert_eq!(yields.len(), 1);
            assert_eq!(yields[0].account, "oracle.near");
            assert_eq!(yields[0].method, "latest");
            assert_eq!(state.pending_vars, vec![None]); // standalone, no define
            assert_eq!(state.remaining.len(), 1); // (near/ccall-result)
        }
        RunResult::Done(_) => panic!("Expected Yield, got Done"),
    }
}

#[test]
fn test_run_program_multiple_top_level_only_first_ccall_yields() {
    // Two consecutive ccalls are now BATCHED into one yield
    let mut env = Env::new();
    let code = r#"
        (define a (near/ccall "x.near" "f" "{}"))
        (define b (near/ccall "y.near" "g" "{}"))
    "#;
    let result = run_program_with_ccall(code, &mut env, 10_000).unwrap();
    match result {
        RunResult::Yield { yields, state } => {
            // Both ccalls are batched into a single yield
            assert_eq!(yields.len(), 2);
            assert_eq!(yields[0].account, "x.near");
            assert_eq!(yields[1].account, "y.near");
            assert_eq!(state.pending_vars, vec![Some("a".to_string()), Some("b".to_string())]);
            assert_eq!(state.remaining.len(), 0); // both ccalls consumed
        }
        RunResult::Done(_) => panic!("Expected Yield"),
    }
}

#[test]
fn test_run_remaining_with_ccall_no_ccall() {
    // run_remaining_with_ccall returns Done when no ccall in remaining
    let mut env = Env::new();
    let exprs = parse_all("(+ 1 2) (* 3 4)").unwrap();
    let mut gas = 10_000u64;
    let result = run_remaining_with_ccall(&exprs, &mut env, &mut gas).unwrap();
    match result {
        RunResult::Done(s) => assert_eq!(s, "12"), // last expression result
        RunResult::Yield { .. } => panic!("Expected Done, got Yield"),
    }
}

#[test]
fn test_run_remaining_with_ccall_yields_on_first_ccall() {
    // remaining expressions contain a ccall as first expression
    let mut env = Env::from_vec(vec![("x".to_string(), LispVal::Num(42))]);
    let exprs = parse_all(
        r#"
        (define b (near/ccall "y.near" "g" "{}"))
        (+ x 10)
    "#,
    )
    .unwrap();
    let mut gas = 10_000u64;
    let result = run_remaining_with_ccall(&exprs, &mut env, &mut gas).unwrap();
    match result {
        RunResult::Yield { yields, state } => {
            assert_eq!(yields.len(), 1);
            assert_eq!(yields[0].account, "y.near");
            assert_eq!(yields[0].method, "g");
            assert_eq!(state.pending_vars, vec![Some("b".to_string())]);
            // x=42 should still be in env
            assert!(state
                .env.bindings().iter()
                .any(|(k, v)| k == "x" && *v == LispVal::Num(42)));
            // remaining should have (+ x 10)
            assert_eq!(state.remaining.len(), 1);
        }
        RunResult::Done(_) => panic!("Expected Yield, got Done"),
    }
}

#[test]
fn test_multi_ccall_two_ccalls_yield_chain() {
    // Two consecutive ccalls are BATCHED into a single yield.
    // With batching: both ccalls yield together, resume injects both results.
    let mut env = Env::new();
    let code = r#"
        (define a (near/ccall "x.near" "f" "{}"))
        (define b (near/ccall "y.near" "g" "{}"))
        (+ 1 2)
    "#;
    let result = run_program_with_ccall(code, &mut env, 10_000).unwrap();

    // Single yield with 2 ccalls batched
    let state = match result {
        RunResult::Yield { yields, state } => {
            assert_eq!(yields.len(), 2);
            assert_eq!(yields[0].account, "x.near");
            assert_eq!(yields[0].method, "f");
            assert_eq!(yields[1].account, "y.near");
            assert_eq!(yields[1].method, "g");
            assert_eq!(
                state.pending_vars,
                vec![Some("a".to_string()), Some("b".to_string())]
            );
            assert_eq!(state.remaining.len(), 1); // (+ 1 2)
            state
        }
        RunResult::Done(_) => panic!("Expected Yield on first ccall"),
    };

    // Resume: inject both results, evaluate remaining
    let mut env2 = state.env.deep_clone();
    env2.push("a".to_string(), LispVal::Str("result_a".to_string()));
    env2.push("b".to_string(), LispVal::Str("result_b".to_string()));
    let mut gas2 = state.gas;
    let result2 = run_remaining_with_ccall(&state.remaining, &mut env2, &mut gas2).unwrap();

    match result2 {
        RunResult::Done(s) => {
            assert_eq!(s, "3"); // (+ 1 2)
        }
        RunResult::Yield { .. } => panic!("Expected Done after all ccalls resolved"),
    }
}

#[test]
fn test_multi_ccall_env_accumulates_across_yields() {
    // Verify env bindings accumulate correctly with batched ccalls
    // When a non-ccall expression sits between two ccalls, they're in separate batches
    let mut env = Env::new();
    let code = r#"
        (define x 100)
        (define a (near/ccall "alpha.near" "f1" "{}"))
        (define y 200)
        (define b (near/ccall "beta.near" "f2" "{}"))
        (+ x y)
    "#;

    // First yield: only the first ccall (non-ccall (define y 200) breaks batch)
    let result1 = run_program_with_ccall(code, &mut env, 10_000).unwrap();
    let state1 = match result1 {
        RunResult::Yield { yields, state } => {
            assert_eq!(yields.len(), 1);
            assert_eq!(yields[0].account, "alpha.near");
            // x=100 should be in env
            assert!(state
                .env.bindings().iter()
                .any(|(k, v)| k == "x" && *v == LispVal::Num(100)));
            state
        }
        RunResult::Done(_) => panic!("Expected Yield"),
    };

    // Resume 1: inject a, then y=200 is defined, then second ccall yields
    let mut env2 = state1.env.deep_clone();
    env2.push("a".to_string(), LispVal::Str("alpha_result".to_string()));
    let mut gas2 = state1.gas;
    let result2 = run_remaining_with_ccall(&state1.remaining, &mut env2, &mut gas2).unwrap();
    let state2 = match result2 {
        RunResult::Yield { yields, state } => {
            assert_eq!(yields.len(), 1);
            assert_eq!(yields[0].account, "beta.near");
            // y=200 should have been defined before the second ccall
            assert!(state
                .env.bindings().iter()
                .any(|(k, v)| k == "y" && *v == LispVal::Num(200)));
            // a should still be there
            assert!(state
                .env.bindings().iter()
                .any(|(k, v)| k == "a" && *v == LispVal::Str("alpha_result".to_string())));
            state
        }
        RunResult::Done(_) => panic!("Expected second Yield"),
    };

    // Resume 2: inject b, then (+ x y) evaluates
    let mut env3 = state2.env.deep_clone();
    env3.push("b".to_string(), LispVal::Str("beta_result".to_string()));
    let mut gas3 = state2.gas;
    let result3 = run_remaining_with_ccall(&state2.remaining, &mut env3, &mut gas3).unwrap();
    match result3 {
        RunResult::Done(s) => {
            assert_eq!(s, "300"); // (+ 100 200)
        }
        RunResult::Yield { .. } => panic!("Expected Done"),
    }
}

#[test]
fn test_multi_ccall_standalone_ccall_chain() {
    // Standalone ccalls separated by (near/ccall-result) — non-ccall breaks batch
    let mut env = Env::new();
    let code = r#"
        (near/ccall "oracle.near" "get1" "{}")
        (near/ccall-result)
        (near/ccall "oracle.near" "get2" "{}")
        (near/ccall-result)
    "#;

    // First yield: only first ccall batches ((near/ccall-result) breaks it)
    let result1 = run_program_with_ccall(code, &mut env, 10_000).unwrap();
    let state1 = match result1 {
        RunResult::Yield { yields, state } => {
            assert_eq!(yields.len(), 1);
            assert_eq!(yields[0].account, "oracle.near");
            assert_eq!(yields[0].method, "get1");
            assert_eq!(state.pending_vars, vec![None]); // standalone
            // remaining = (near/ccall-result) + ccall + ccall-result
            assert_eq!(state.remaining.len(), 3);
            state
        }
        RunResult::Done(_) => panic!("Expected Yield"),
    };

    // Resume: inject __ccall_result__, evaluate (near/ccall-result), then second ccall yields
    let mut env2 = state1.env.deep_clone();
    env2.push("__ccall_result__".to_string(), LispVal::Str("first_result".to_string()));
    let mut gas2 = state1.gas;
    let result2 = run_remaining_with_ccall(&state1.remaining, &mut env2, &mut gas2).unwrap();

    let state2 = match result2 {
        RunResult::Yield { yields, state } => {
            assert_eq!(yields.len(), 1);
            assert_eq!(yields[0].account, "oracle.near");
            assert_eq!(yields[0].method, "get2");
            assert_eq!(state.pending_vars, vec![None]);
            assert_eq!(state.remaining.len(), 1); // (near/ccall-result)
            state
        }
        RunResult::Done(_) => panic!("Expected second Yield"),
    };

    // Second resume: evaluate last (near/ccall-result)
    let mut env3 = state2.env.deep_clone();
    env3.push("__ccall_result__".to_string(), LispVal::Str("second_result".to_string()));
    let mut gas3 = state2.gas;
    let result3 = run_remaining_with_ccall(&state2.remaining, &mut env3, &mut gas3).unwrap();

    match result3 {
        RunResult::Done(s) => {
            assert_eq!(s, "\"second_result\"");
        }
        RunResult::Yield { .. } => panic!("Expected Done"),
    }
}

#[test]
fn test_multi_ccall_mixed_define_and_standalone() {
    // Consecutive ccalls (define + standalone) batch together
    let mut env = Env::new();
    let code = r#"
        (define a (near/ccall "x.near" "f" "{}"))
        (near/ccall "y.near" "g" "{}")
        (near/ccall-result)
    "#;

    // Both ccalls are consecutive, so they batch into one yield
    let result1 = run_program_with_ccall(code, &mut env, 10_000).unwrap();
    let state = match result1 {
        RunResult::Yield { yields, state } => {
            assert_eq!(yields.len(), 2);
            assert_eq!(yields[0].account, "x.near");
            assert_eq!(yields[1].account, "y.near");
            assert_eq!(state.pending_vars, vec![Some("a".to_string()), None]);
            assert_eq!(state.remaining.len(), 1); // (near/ccall-result)
            state
        }
        RunResult::Done(_) => panic!("Expected Yield"),
    };

    // Resume: inject both a and __ccall_result__
    let mut env2 = state.env.deep_clone();
    env2.push("a".to_string(), LispVal::Str("result_a".to_string()));
    env2.push("__ccall_result__".to_string(), LispVal::Str("result_y".to_string()));
    let mut gas2 = state.gas;
    let result2 = run_remaining_with_ccall(&state.remaining, &mut env2, &mut gas2).unwrap();

    match result2 {
        RunResult::Done(s) => {
            assert_eq!(s, "\"result_y\"");
        }
        RunResult::Yield { .. } => panic!("Expected Done"),
    }
}

#[test]
fn test_ccall_args_evaluated() {
    // Args expression should be evaluated before yielding
    let mut env = Env::new();
    let code = r#"
        (define x "hello")
        (define result (near/ccall "test.near" "method" x))
    "#;
    let result = run_program_with_ccall(code, &mut env, 10_000).unwrap();
    match result {
        RunResult::Yield { yields, .. } => {
            assert_eq!(yields[0].args_bytes, b"hello"); // x evaluated to "hello"
        }
        RunResult::Done(_) => panic!("Expected Yield"),
    }
}

#[test]
fn test_run_program_synchronous_ignores_ccall_in_body() {
    // run_program (synchronous) doesn't know about ccall — it will try to
    // evaluate (near/ccall ...) as a regular function call and hit "undefined"
    let mut env = Env::new();
    let result = run_program(
        r#"(near/ccall "test.near" "method" "{}")"#,
        &mut env,
        10_000,
    );
    // Should error because near/ccall isn't a regular function
    assert!(result.is_err());
}

#[test]
fn test_sha256() {
    // SHA256 of empty string = e3b0c44298fc1c149afbf4c8996fb92427ae41e4649b934ca495991b7852b855
    let result = eval_str("(sha256 \"\")");
    assert_eq!(
        result,
        "\"e3b0c44298fc1c149afbf4c8996fb92427ae41e4649b934ca495991b7852b855\""
    );
}

#[test]
fn test_sha256_hello() {
    // SHA256("hello") = 2cf24dba5fb0a30e26e83b2ac5b9e29e1b161e5c1fa7425e73043362938b9824
    let result = eval_str("(sha256 \"hello\")");
    assert_eq!(
        result,
        "\"2cf24dba5fb0a30e26e83b2ac5b9e29e1b161e5c1fa7425e73043362938b9824\""
    );
}

#[test]
fn test_keccak256() {
    // Keccak256 of empty string = c5d2460186f7233c927e7db2dcc703c0e500b653ca82273b7bfad8045d85a470
    let result = eval_str("(keccak256 \"\")");
    assert_eq!(
        result,
        "\"c5d2460186f7233c927e7db2dcc703c0e500b653ca82273b7bfad8045d85a470\""
    );
}

#[test]
fn test_sha256_in_policy() {
    // Use sha256 inside a policy expression
    let code = r#"
        (let ((h (sha256 "test")))
            (str-contains h "9f86d"))
    "#;
    assert_eq!(eval_str(code), "true");
}

#[test]
fn test_storage_write_read() {
    setup_test_vm();
    let mut e = Env::new();
    // Write
    let r = run_program(r#"(near/storage-write "mykey" "myval")"#, &mut e, 10_000);
    assert_eq!(r.unwrap(), "true");
    // Read back
    let r = run_program(r#"(near/storage-read "mykey")"#, &mut e, 10_000);
    assert_eq!(r.unwrap(), "\"myval\"");
}

#[test]
fn test_storage_read_missing() {
    setup_test_vm();
    let mut e = Env::new();
    let r = run_program(r#"(near/storage-read "nonexistent")"#, &mut e, 10_000);
    assert_eq!(r.unwrap(), "nil");
}

#[test]
fn test_storage_has() {
    setup_test_vm();
    let mut e = Env::new();
    // Key doesn't exist yet
    assert_eq!(eval_str(r#"(near/storage-has? "test-key")"#), "false");
    // Write it
    let _ = run_program(r#"(near/storage-write "test-key" "v")"#, &mut e, 10_000);
    // Now it exists
    assert_eq!(eval_str(r#"(near/storage-has? "test-key")"#), "true");
}

#[test]
fn test_storage_remove() {
    setup_test_vm();
    let mut e = Env::new();
    // Write then remove
    let _ = run_program(r#"(near/storage-write "rm-key" "val")"#, &mut e, 10_000);
    let r = run_program(r#"(near/storage-remove "rm-key")"#, &mut e, 10_000);
    assert_eq!(r.unwrap(), "true");
    // Confirm gone
    let r = run_program(r#"(near/storage-read "rm-key")"#, &mut e, 10_000);
    assert_eq!(r.unwrap(), "nil");
}

#[test]
fn test_account_balance_returns_string() {
    setup_test_vm();
    // Should return a yoctonear string
    let result = eval_str("(near/account-balance)");
    // Result is like "\"100000000000000000000000000\"" (100 NEAR in yocto)
    assert!(
        result.contains("100000000000000000000000000"),
        "got: {}",
        result
    );
}

#[test]
fn test_attached_deposit_returns_string() {
    setup_test_vm();
    let result = eval_str("(near/attached-deposit)");
    assert!(result.starts_with("\""), "got: {}", result);
}

#[test]
fn test_signer_equals() {
    setup_test_vm();
    // Default test context signer is "bob.near"
    let result = eval_str("(near/signer= \"bob.near\")");
    assert_eq!(result, "true");
    let result = eval_str("(near/signer= \"eve.near\")");
    assert_eq!(result, "false");
}

#[test]
fn test_predecessor_equals() {
    setup_test_vm();
    // Default test context predecessor is "bob.near"
    let result = eval_str("(near/predecessor= \"bob.near\")");
    assert_eq!(result, "true");
    let result = eval_str("(near/predecessor= \"eve.near\")");
    assert_eq!(result, "false");
}

#[test]
fn test_contract_eval_basic() {
    setup_test_vm();
    assert_eq!(eval_code("(+ 2 3)", "bob.near", 10_000), "5");
}

#[test]
fn test_contract_eval_with_input() {
    setup_test_vm();
    let result = eval_code_with_input("(* x 2)", r#"{"x": 21}"#, "bob.near", 10_000);
    assert_eq!(result, "42");
}

#[test]
fn test_contract_eval_policy() {
    setup_test_vm();
    let stored = Some(r#"(near/signer= "bob.near")"#.as_bytes().to_vec());
    let result = eval_stored("policy", "is-admin", stored, Some("{}"), "bob.near", 10_000);
    assert_eq!(result, "true");
}

#[test]
fn test_contract_eval_policy_not_found() {
    setup_test_vm();
    let result = eval_stored("policy", "nonexistent", None, Some("{}"), "bob.near", 10_000);
    assert!(result.contains("not found"));
}

#[test]
fn test_contract_eval_script() {
    setup_test_vm();
    let stored = Some("(+ 10 20)".as_bytes().to_vec());
    let result = eval_stored("script", "compute", stored, None, "bob.near", 10_000);
    assert_eq!(result, "30");
}

#[test]
fn test_contract_eval_script_not_found() {
    setup_test_vm();
    let result = eval_stored("script", "nonexistent", None, None, "bob.near", 10_000);
    assert!(result.contains("not found"));
}

#[test]
fn test_contract_eval_script_with_input() {
    setup_test_vm();
    let stored = Some("(* x 2)".as_bytes().to_vec());
    let result = eval_stored("script", "double", stored, Some(r#"{"x": 7}"#), "bob.near", 10_000);
    assert_eq!(result, "14");
}

#[test]
fn test_contract_default_gas_limit() {
    setup_test_vm();
    assert_eq!(initial_gas_limit(0), 10_000); // default fallback
}

#[test]
fn test_composite_crypto_policy() {
    setup_test_vm();
    // A realistic policy: hash some data, check signer, verify storage
    let code = r#"
        (progn
            (near/storage-write "attested" (sha256 "result-data"))
            (and
                (near/signer= "bob.near")
                (near/storage-has? "attested")
                (!= (near/storage-read "attested") nil)))
    "#;
    let result = eval_str(code);
    assert_eq!(result, "true");
}

#[test]
fn test_number_predicate_int() {
    assert_eq!(eval_str("(number? 42)"), "true");
}

#[test]
fn test_number_predicate_string() {
    assert_eq!(eval_str("(number? \"hello\")"), "false");
}

#[test]
fn test_bool_predicate() {
    assert_eq!(eval_str("(bool? true)"), "true");
    assert_eq!(eval_str("(bool? false)"), "true");
    assert_eq!(eval_str("(bool? 42)"), "false");
    assert_eq!(eval_str("(bool? nil)"), "false");
    assert_eq!(eval_str("(bool? \"hello\")"), "false");
}

#[test]
fn test_to_num_invalid() {
    let result = eval_str("(to-num \"hello\")");
    assert!(result.contains("ERROR"), "to-num on string should error: {}", result);
}

#[test]
fn test_error_builtin() {
    let result = eval_str("(error \"something broke\")");
    assert!(result.contains("something"), "error should contain message: {}", result);
}

#[test]
fn test_error_builtin_no_args() {
    let result = eval_str("(error)");
    assert!(result.contains("error"), "error with no args should return error: {}", result);
}

#[test]
fn test_error_catchable() {
    let code = r#"(try (error "boom") (catch e (str-concat "caught: " e)))"#;
    let result = eval_str(code);
    assert!(result.contains("caught:"), "error should be catchable: {}", result);
}

#[test]
fn test_dict_empty() {
    assert_eq!(eval_str("(dict)"), "{}");
}

#[test]
fn test_dict_with_pairs() {
    let result = eval_str(r#"(dict "a" 1 "b" 2)"#);
    assert!(result.contains("\"a\""), "should contain key a: {}", result);
    assert!(result.contains("\"b\""), "should contain key b: {}", result);
    assert!(result.contains("1"), "should contain val 1: {}", result);
    assert!(result.contains("2"), "should contain val 2: {}", result);
}

#[test]
fn test_dict_get_existing() {
    assert_eq!(eval_str(r#"(dict/get (dict "x" 42) "x")"#), "42");
}

#[test]
fn test_dict_get_missing() {
    assert_eq!(eval_str(r#"(dict/get (dict "x" 42) "y")"#), "nil");
}

#[test]
fn test_dict_has_existing() {
    assert_eq!(eval_str(r#"(dict/has? (dict "x" 1) "x")"#), "true");
}

#[test]
fn test_dict_has_missing() {
    assert_eq!(eval_str(r#"(dict/has? (dict "x" 1) "y")"#), "false");
}

#[test]
fn test_dict_set_adds_key() {
    let result = eval_str(r#"(dict/set (dict) "k" 42)"#);
    assert!(result.contains("\"k\""), "should contain key k: {}", result);
    assert!(result.contains("42"), "should contain val 42: {}", result);
}

#[test]
fn test_dict_set_overwrites() {
    let result = eval_str(r#"(dict/set (dict "a" 1) "a" 99)"#);
    assert!(
        result.contains("99"),
        "should contain new val 99: {}",
        result
    );
    assert!(
        !result.contains(": 1"),
        "should not contain old val 1: {}",
        result
    );
}

#[test]
fn test_dict_remove() {
    let result = eval_str(r#"(dict/remove (dict "x" 1 "y" 2) "x")"#);
    assert!(!result.contains("\"x\""), "x should be removed: {}", result);
    assert!(result.contains("\"y\""), "y should remain: {}", result);
}

#[test]
fn test_dict_keys() {
    let result = eval_str(r#"(dict/keys (dict "a" 1 "b" 2))"#);
    assert!(
        result.contains("\"a\""),
        "keys should contain a: {}",
        result
    );
    assert!(
        result.contains("\"b\""),
        "keys should contain b: {}",
        result
    );
}

#[test]
fn test_dict_vals() {
    let result = eval_str(r#"(dict/vals (dict "a" 1 "b" 2))"#);
    assert_eq!(result, "(1 2)");
}

#[test]
fn test_dict_merge() {
    let result = eval_str(r#"(dict/merge (dict "a" 1) (dict "b" 2))"#);
    assert!(
        result.contains("\"a\""),
        "merged should contain a: {}",
        result
    );
    assert!(
        result.contains("\"b\""),
        "merged should contain b: {}",
        result
    );
}

#[test]
fn test_dict_merge_overwrite() {
    // Second map overwrites first map's value for same key
    let result = eval_str(r#"(dict/merge (dict "a" 1) (dict "a" 2))"#);
    assert!(
        result.contains("2"),
        "should contain overwritten val 2: {}",
        result
    );
}

#[test]
fn test_map_predicate() {
    assert_eq!(eval_str(r#"(map? (dict "a" 1))"#), "true");
    assert_eq!(eval_str("(map? (list 1 2))"), "false");
}

#[test]
fn test_str_length() {
    assert_eq!(eval_str(r#"(str-length "hello")"#), "5");
}

#[test]
fn test_str_length_empty() {
    assert_eq!(eval_str(r#"(str-length "")"#), "0");
}

#[test]
fn test_str_length_unicode() {
    // str-length counts chars, not bytes
    assert_eq!(eval_str(r#"(str-length "café")"#), "4");
}

#[test]
fn test_str_substring() {
    assert_eq!(eval_str(r#"(str-substring "hello" 1 3)"#), "\"el\"");
}

#[test]
fn test_str_substring_full() {
    assert_eq!(eval_str(r#"(str-substring "abc" 0 3)"#), "\"abc\"");
}

#[test]
fn test_str_split() {
    assert_eq!(
        eval_str(r#"(str-split "a,b,c" ",")"#),
        "(\"a\" \"b\" \"c\")"
    );
}

#[test]
fn test_str_split_no_delimiter() {
    assert_eq!(eval_str(r#"(str-split "hello" ",")"#), "(\"hello\")");
}

#[test]
fn test_str_trim() {
    assert_eq!(eval_str(r#"(str-trim "  hi  ")"#), "\"hi\"");
}

#[test]
fn test_str_trim_no_whitespace() {
    assert_eq!(eval_str(r#"(str-trim "hello")"#), "\"hello\"");
}

#[test]
fn test_str_index_of_found() {
    assert_eq!(eval_str(r#"(str-index-of "hello" "ll")"#), "2");
}

#[test]
fn test_str_index_of_not_found() {
    assert_eq!(eval_str(r#"(str-index-of "hello" "xyz")"#), "-1");
}

#[test]
fn test_str_upcase() {
    assert_eq!(eval_str(r#"(str-upcase "hello")"#), "\"HELLO\"");
}

#[test]
fn test_str_downcase() {
    assert_eq!(eval_str(r#"(str-downcase "HELLO")"#), "\"hello\"");
}

#[test]
fn test_str_starts_with_true() {
    assert_eq!(eval_str(r#"(str-starts-with "hello" "hel")"#), "true");
}

#[test]
fn test_str_starts_with_false() {
    assert_eq!(eval_str(r#"(str-starts-with "hello" "xyz")"#), "false");
}

#[test]
fn test_str_ends_with_true() {
    assert_eq!(eval_str(r#"(str-ends-with "hello" "llo")"#), "true");
}

#[test]
fn test_str_ends_with_false() {
    assert_eq!(eval_str(r#"(str-ends-with "hello" "hel")"#), "false");
}

#[test]
fn test_to_json_list() {
    let result = eval_str(r#"(to-json (list 1 2 3))"#);
    // to-json returns a LispStr containing the JSON text, displayed with quotes
    assert!(
        result.contains("[1,2,3]"),
        "expected JSON array: {}",
        result
    );
}

#[test]
fn test_to_json_dict() {
    let result = eval_str(r#"(to-json (dict "a" 1))"#);
    assert!(result.contains("a"), "expected key a: {}", result);
    assert!(result.contains("1"), "expected val 1: {}", result);
}

#[test]
fn test_to_json_bool() {
    let result = eval_str("(to-json true)");
    assert!(result.contains("true"), "expected JSON true: {}", result);
}

#[test]
fn test_to_json_nil() {
    let result = eval_str("(to-json nil)");
    assert!(result.contains("null"), "expected JSON null: {}", result);
}

#[test]
fn test_from_json_number() {
    assert_eq!(eval_str(r#"(from-json "42")"#), "42");
}

#[test]
fn test_from_json_bool() {
    assert_eq!(eval_str(r#"(from-json "true")"#), "true");
}

#[test]
fn test_from_json_null() {
    assert_eq!(eval_str(r#"(from-json "null")"#), "nil");
}

#[test]
fn test_from_json_array() {
    assert_eq!(eval_str(r#"(from-json "[1,2,3]")"#), "(1 2 3)");
}

#[test]
fn test_json_roundtrip_list() {
    let result = eval_str(r#"(from-json (to-json (list 1 "two" true)))"#);
    assert_eq!(result, "(1 \"two\" true)");
}

#[test]
fn test_json_roundtrip_dict() {
    let result = eval_str(r#"(from-json (to-json (dict "x" 42)))"#);
    // Should produce a Map with x=42
    assert!(result.contains("\"x\""), "should contain key x: {}", result);
    assert!(result.contains("42"), "should contain val 42: {}", result);
}

#[test]
fn test_storage_gas_insufficient() {
    setup_test_vm();
    // Each storage-write costs 100 gas. 200 gas is not enough for 3 writes.
    let result = eval_str_gas(
        r#"(progn (near/storage-write "k1" "v1") (near/storage-write "k2" "v2") (near/storage-write "k3" "v3") "done")"#,
        200,
    );
    assert!(
        result.contains("ERROR"),
        "expected out-of-gas error: {}",
        result
    );
    assert!(
        result.contains("out of gas"),
        "expected 'out of gas': {}",
        result
    );
}

#[test]
fn test_storage_gas_sufficient() {
    setup_test_vm();
    // 350 gas is enough for 3 storage writes (3 * 100 = 300) plus eval overhead
    let result = eval_str_gas(
        r#"(progn (near/storage-write "k1" "v1") (near/storage-write "k2" "v2") (near/storage-write "k3" "v3") "done")"#,
        350,
    );
    assert_eq!(result, "\"done\"");
}

#[test]
fn test_storage_gas_single_write_low() {
    setup_test_vm();
    // 50 gas is not enough for a single storage write (needs 100)
    let result = eval_str_gas(r#"(near/storage-write "k1" "v1")"#, 50);
    assert!(result.contains("ERROR"), "expected out-of-gas: {}", result);
}

#[test]
fn test_storage_gas_consumed_more_than_without() {
    setup_test_vm();
    // Expression without storage
    let mut env1 = Env::new();
    let _ = run_program("(+ 1 2)", &mut env1, 10000);
    // We can't directly observe remaining gas from run_program, but we verify
    // that storage ops consume more gas than pure computation
    let mut env2 = Env::new();
    let result = run_program(
        r#"(progn (near/storage-write "k1" "v1") (+ 1 2))"#,
        &mut env2,
        10000,
    );
    assert_eq!(result.unwrap(), "3");
}

#[test]
fn test_storage_prefix_not_overridden_by_input() {
    setup_test_vm();
    // Try to override __storage_prefix__ via input_json — should be ignored
    let result = eval_code_with_input(
        "(__storage_prefix__)",
        r#"{"__storage_prefix__": "evil"}"#,
        "bob.near",
        10_000,
    );
    assert!(
        result.contains("eval:bob.near:"),
        "prefix should be safe, got: {}",
        result
    );
    assert!(
        !result.contains("evil"),
        "prefix should NOT be 'evil', got: {}",
        result
    );
}

#[test]
fn test_storage_prefix_cannot_write_to_evil_namespace() {
    setup_test_vm();
    let _ = eval_code_with_input(
        r#"(near/storage-write "mykey" "myval")"#,
        r#"{"__storage_prefix__": "evil"}"#,
        "bob.near",
        10_000,
    );
    let result = eval_code(r#"(near/storage-read "mykey")"#, "bob.near", 10_000);
    assert_eq!(result, "\"myval\"");
}

#[test]
fn test_eval_whitelist_empty_allows_all() {
    setup_test_vm();
    // Empty whitelist = open access (backward compat)
    assert!(eval_allowed(true, false));
    assert_eq!(eval_code("(+ 1 2)", "bob.near", 10_000), "3");
}

#[test]
fn test_eval_whitelist_after_add_blocks_others() {
    setup_test_vm();
    // alice.near is on the whitelist; bob.near (the caller) is not
    assert!(!eval_allowed(false, false), "bob.near should be blocked after whitelist add");
    assert!(eval_allowed(false, true));
}

#[test]
fn test_ccall_view_yields_with_zero_deposit() {
    setup_test_vm();
    let mut env = Env::new();
    let code = r#"(define x (near/ccall-view "x.near" "f" "{}"))"#;
    let result = run_program_with_ccall(code, &mut env, 10_000).unwrap();
    match result {
        RunResult::Yield { yields, .. } => {
            assert_eq!(yields.len(), 1);
            assert_eq!(yields[0].deposit, 0, "ccall-view should have deposit=0");
            assert_eq!(yields[0].gas_tgas, 10, "ccall-view should have gas=10 TGas");
            assert_eq!(yields[0].account, "x.near");
            assert_eq!(yields[0].method, "f");
        }
        RunResult::Done(s) => panic!("expected Yield, got Done: {}", s),
    }
}

#[test]
fn test_ccall_call_yields_with_deposit_and_gas() {
    setup_test_vm();
    let mut env = Env::new();
    let code = r#"(define x (near/ccall-call "x.near" "f" "{}" "1000000" "100"))"#;
    let result = run_program_with_ccall(code, &mut env, 10_000).unwrap();
    match result {
        RunResult::Yield { yields, .. } => {
            assert_eq!(yields.len(), 1);
            assert_eq!(yields[0].deposit, 1000000, "ccall-call deposit should be 1000000");
            assert_eq!(yields[0].gas_tgas, 100, "ccall-call gas should be 100 TGas");
            assert_eq!(yields[0].account, "x.near");
            assert_eq!(yields[0].method, "f");
        }
        RunResult::Done(s) => panic!("expected Yield, got Done: {}", s),
    }
}

#[test]
fn test_ccall_view_standalone_yields() {
    setup_test_vm();
    let mut env = Env::new();
    let code = r#"(near/ccall-view "oracle.near" "get_price" "{}")"#;
    let result = run_program_with_ccall(code, &mut env, 10_000).unwrap();
    match result {
        RunResult::Yield { yields, .. } => {
            assert_eq!(yields.len(), 1);
            assert_eq!(yields[0].account, "oracle.near");
            assert_eq!(yields[0].method, "get_price");
            assert_eq!(yields[0].deposit, 0);
        }
        RunResult::Done(s) => panic!("expected Yield, got Done: {}", s),
    }
}

#[test]
fn test_ccall_count_initially_zero() {
    assert_eq!(eval_str("(near/ccall-count)"), "0");
}

#[test]
fn test_batch_result_no_results_errors() {
    let result = eval_str("(near/batch-result)");
    assert!(
        result.contains("ERROR"),
        "expected error when no results: {}",
        result
    );
    assert!(
        result.contains("no results"),
        "expected 'no results' message: {}",
        result
    );
}

#[test]
fn test_near_transfer_returns_string() {
    setup_test_vm();
    let result = eval_str(r#"(near/transfer "1000" "alice.near")"#);
    assert!(
        result.contains("transfer:1000:alice.near"),
        "expected transfer string, got: {}",
        result
    );
}

#[test]
fn test_near_transfer_does_not_crash() {
    setup_test_vm();
    let result = eval_str(r#"(near/transfer "5000000" "bob.near")"#);
    // Should return a string, not an error
    assert!(
        !result.contains("ERROR"),
        "transfer should not error: {}",
        result
    );
}

#[test]
fn test_account_locked_balance_returns_string() {
    setup_test_vm();
    let result = eval_str("(near/account-locked-balance)");
    // Default mock VM has 0 locked balance
    assert!(
        result.starts_with("\""),
        "locked balance should be a quoted string, got: {}",
        result
    );
}

#[test]
fn test_account_locked_balance_is_zero_in_mock() {
    setup_test_vm();
    let result = eval_str("(near/account-locked-balance)");
    assert!(
        result.contains("0"),
        "mock VM should have 0 locked balance, got: {}",
        result
    );
}

#[test]
fn test_loop_recur_sum() {
    // Sum 0+1+2+3+4+5 = 15
    let code = r#"(loop ((i 0) (sum 0)) (if (> i 5) sum (recur (+ i 1) (+ sum i))))"#;
    assert_eq!(eval_str(code), "15");
}

#[test]
fn test_loop_recur_factorial() {
    // 5! = 120
    let code = r#"(loop ((n 5) (acc 1)) (if (= n 0) acc (recur (- n 1) (* acc n))))"#;
    assert_eq!(eval_str(code), "120");
}

#[test]
fn test_loop_recur_immediate_exit() {
    let code = r#"(loop ((n 10)) (if (= n 10) 42 (recur (+ n 1))))"#;
    assert_eq!(eval_str(code), "42");
}

#[test]
fn test_loop_recur_zero_iterations() {
    // Immediately exits since condition is true from start
    let code = r#"(loop ((n 0)) (if (= n 0) 99 (recur (+ n 1))))"#;
    assert_eq!(eval_str(code), "99");
}

#[test]
fn test_require_math_abs_negative() {
    assert_eq!(eval_str(r#"(require "math") (abs -5)"#), "5");
}

#[test]
fn test_require_math_abs_positive() {
    assert_eq!(eval_str(r#"(require "math") (abs 5)"#), "5");
}

#[test]
fn test_require_math_even() {
    assert_eq!(eval_str(r#"(require "math") (even? 4)"#), "true");
}

#[test]
fn test_require_math_odd() {
    assert_eq!(eval_str(r#"(require "math") (odd? 3)"#), "true");
}

#[test]
fn test_require_math_even_false() {
    assert_eq!(eval_str(r#"(require "math") (even? 3)"#), "false");
}

#[test]
fn test_require_math_odd_false() {
    assert_eq!(eval_str(r#"(require "math") (odd? 4)"#), "false");
}

#[test]
fn test_require_list_map() {
    let result = eval_str(r#"(require "list") (map (lambda (x) (* x 2)) (list 1 2 3))"#);
    assert_eq!(result, "(2 4 6)");
}

#[test]
fn test_require_list_filter() {
    let result = eval_str(r#"(require "list") (filter (lambda (x) (> x 2)) (list 1 2 3 4))"#);
    assert_eq!(result, "(3 4)");
}

#[test]
fn test_require_list_reduce_with_lambda() {
    let result = eval_str(r#"(require "list") (reduce (lambda (a b) (+ a b)) 0 (list 1 2 3))"#);
    assert_eq!(result, "6");
}

#[test]
fn test_require_unknown_module_errors() {
    let result = eval_str(r#"(require "nonexistent")"#);
    assert!(result.contains("ERROR"), "expected error: {}", result);
    assert!(
        result.contains("unknown module"),
        "expected 'unknown module': {}",
        result
    );
}

#[test]
fn test_require_non_string_errors() {
    let result = eval_str("(require 42)");
    assert!(result.contains("ERROR"), "expected error: {}", result);
    assert!(
        result.contains("need string"),
        "expected 'need string': {}",
        result
    );
}

#[test]
fn test_stdlib_cached_require_same_module_twice() {
    // Requiring the same module twice should still work and give same result
    let code = r#"(require "math") (require "math") (abs -10)"#;
    assert_eq!(eval_str(code), "10");
}

#[test]
fn test_stdlib_cached_require_list_twice() {
    let code = r#"(require "list") (require "list") (map (lambda (x) (* x 3)) (list 1 2))"#;
    assert_eq!(eval_str(code), "(3 6)");
}

#[test]
fn test_stdlib_cached_require_different_modules() {
    let code = r#"(require "math") (require "string") (abs -7)"#;
    assert_eq!(eval_str(code), "7");
}

#[test]
fn test_stdlib_cached_require_saves_gas() {
    // First require consumes gas; second require should consume almost none
    // because it skips re-evaluation. We test that a low-gas second require works.
    let code1 = r#"(require "math")"#;
    let code2 = r#"(require "math") (min 3 5)"#;

    // Load math with ample gas
    let mut env = Env::new();
    run_program(code1, &mut env, 50_000).unwrap();

    // Second require + call should work with low gas since require is cached
    let result = run_program(code2, &mut env, 200).unwrap();
    assert_eq!(result, "3");
}

#[test]
fn test_try_catch_basic_error() {
    let code = r#"(try (/ 1 0) (catch e "caught"))"#;
    assert_eq!(eval_str(code), "\"caught\"");
}

#[test]
fn test_try_catch_success() {
    let code = r#"(try (+ 1 2) (catch e "error"))"#;
    assert_eq!(eval_str(code), "3");
}

#[test]
fn test_try_catch_error_binding() {
    let code = r#"(try (/ 1 0) (catch err err))"#;
    let result = eval_str(code);
    // Error message should be bound to `err` and returned as a string
    assert!(result.contains("div by zero"), "got: {}", result);
}

#[test]
fn test_try_catch_undefined_var() {
    let code = r#"(try undefined_var (catch e (str-concat "caught: " e)))"#;
    let result = eval_str(code);
    assert!(result.contains("caught:"), "got: {}", result);
    assert!(result.contains("undefined"), "got: {}", result);
}

#[test]
fn test_try_catch_multi_body() {
    // Handler with multiple body forms (progn-style)
    let code = r#"
        (try (/ 1 0)
            (catch e
                (define recovered "yes")
                (str-concat "error:" e)))
    "#;
    let result = eval_str(code);
    assert!(result.starts_with("\"error:"), "got: {}", result);
}

#[test]
fn test_try_catch_gas_exhaustion() {
    // Gas exhaustion from inner expression should be catchable.
    // Need enough gas for: try form (1) + inner call form (1) + catch handler (1+)
    // The inner near/storage-write fails when trying to evaluate its args with 0 gas,
    // then the catch handler needs gas to evaluate "no-gas" string literal.
    let code = r#"(try (near/storage-write "k" "v") (catch e "no-gas"))"#;
    let result = eval_str_gas(code, 5);
    assert_eq!(result, "\"no-gas\"");
}

#[test]
fn test_try_catch_nested() {
    let code = r#"
        (try
            (try (/ 1 0) (catch e (undefined_inner)))
            (catch outer (str-concat "outer:" outer)))
    "#;
    let result = eval_str(code);
    assert!(result.contains("outer:"), "got: {}", result);
}

#[test]
fn test_generic_eq_strings_equal() {
    assert_eq!(eval_str(r#"(= "hello" "hello")"#), "true");
}

#[test]
fn test_generic_eq_strings_not_equal() {
    assert_eq!(eval_str(r#"(= "hello" "world")"#), "false");
}

#[test]
fn test_str_eq_equal() {
    assert_eq!(eval_str(r#"(str= "foo" "foo")"#), "true");
}

#[test]
fn test_str_eq_not_equal() {
    assert_eq!(eval_str(r#"(str= "foo" "bar")"#), "false");
}

#[test]
fn test_str_neq_not_equal() {
    assert_eq!(eval_str(r#"(str!= "foo" "bar")"#), "true");
}

#[test]
fn test_str_neq_equal() {
    assert_eq!(eval_str(r#"(str!= "foo" "foo")"#), "false");
}

#[test]
fn test_str_eq_empty_strings() {
    assert_eq!(eval_str(r#"(str= "" "")"#), "true");
}

#[test]
fn test_str_eq_case_sensitive() {
    assert_eq!(eval_str(r#"(str= "Hello" "hello")"#), "false");
}

#[test]
fn test_batch_call_basic() {
    let code = r#"
        (near/batch-call "test.near"
            (list (list "method1" "{}" "0" "50")))
    "#;
    let result = eval_str(code);
    assert!(result.contains("batch:test.near:1"), "got: {}", result);
}

#[test]
fn test_batch_call_multiple() {
    let code = r#"
        (near/batch-call "test.near"
            (list
                (list "method1" "{}" "0" "50")
                (list "method2" "{}" "1000" "30")))
    "#;
    let result = eval_str(code);
    assert!(result.contains("batch:test.near:2"), "got: {}", result);
}

#[test]
fn test_batch_call_empty_specs_error() {
    let code = r#"
        (near/batch-call "test.near" (list))
    "#;
    let result = eval_str(code);
    assert!(result.contains("ERROR"), "expected error: {}", result);
    assert!(result.contains("at least one call spec"), "got: {}", result);
}

#[test]
fn test_batch_call_invalid_recipient_error() {
    let code = r#"
        (near/batch-call "invalid account"
            (list (list "method1" "{}" "0" "50")))
    "#;
    let result = eval_str(code);
    assert!(result.contains("ERROR"), "expected error: {}", result);
}

#[test]
fn test_batch_call_short_spec_error() {
    let code = r#"
        (near/batch-call "test.near"
            (list (list "method1" "{}")))
    "#;
    let result = eval_str(code);
    assert!(result.contains("ERROR"), "expected error: {}", result);
    assert!(result.contains("each spec needs"), "got: {}", result);
}

#[test]
fn test_batch_call_non_list_specs_error() {
    let code = r#"(near/batch-call "test.near" "not a list")"#;
    let result = eval_str(code);
    assert!(result.contains("ERROR"), "expected error: {}", result);
    assert!(result.contains("list of call specs"), "got: {}", result);
}

#[test]
fn test_match_number_literal() {
    assert_eq!(
        eval_str("(match 42 (1 \"one\") (42 \"found\") (_ \"other\"))"),
        "\"found\""
    );
}

#[test]
fn test_match_string_literal() {
    let code = r#"(match "hello" ("world" 1) ("hello" 2) (_ 3))"#;
    assert_eq!(eval_str(code), "2");
}

#[test]
fn test_match_wildcard() {
    assert_eq!(eval_str("(match 999 (_ \"matched\"))"), "\"matched\"");
}

#[test]
fn test_match_binding_variable() {
    assert_eq!(eval_str("(match 42 (?x (+ x 1)))"), "43");
}

#[test]
fn test_match_list_pattern() {
    assert_eq!(
        eval_str("(match (list 1 2 3) ((list 1 2 3) \"matched\") (_ \"no\"))"),
        "\"matched\""
    );
}

#[test]
fn test_match_list_pattern_with_bindings() {
    assert_eq!(
        eval_str("(match (list 10 20) ((list ?a ?b) (+ a b)) (_ 0))"),
        "30"
    );
}

#[test]
fn test_match_list_pattern_wrong_length() {
    assert_eq!(
        eval_str("(match (list 1 2) ((list 1 2 3) \"yes\") (_ \"no\"))"),
        "\"no\""
    );
}

#[test]
fn test_match_cons_pattern() {
    assert_eq!(eval_str("(match (list 1 2 3) ((cons ?h ?t) h) (_ 0))"), "1");
}

#[test]
fn test_match_cons_pattern_tail() {
    assert_eq!(
        eval_str("(match (list 1 2 3) ((cons ?h ?t) t) (_ (list)))"),
        "(2 3)"
    );
}

#[test]
fn test_match_cons_empty_list_fails() {
    assert_eq!(
        eval_str("(match (list) ((cons ?h ?t) \"yes\") (_ \"empty\"))"),
        "\"empty\""
    );
}

#[test]
fn test_match_bool_literal() {
    assert_eq!(
        eval_str("(match true (false \"no\") (true \"yes\"))"),
        "\"yes\""
    );
}

#[test]
fn test_match_no_match_returns_nil() {
    assert_eq!(eval_str("(match 5 (1 \"a\") (2 \"b\"))"), "nil");
}

#[test]
fn test_match_nested() {
    let code = r#"
        (define classify
            (lambda (x)
                (match x
                    ((list 1 ?rest) (str-concat "starts-1:" (to-json rest)))
                    ((cons ?h ?t) (str-concat "head:" (to-json (list h))))
                    (_ "other"))))
        (classify (list 1 99))
    "#;
    let result = eval_str(code);
    assert!(result.contains("starts-1:"), "got: {}", result);
}

#[test]
fn test_fmt_simple() {
    let code = r#"(fmt "Hello {name}" (dict "name" "Alice"))"#;
    assert_eq!(eval_str(code), "\"Hello Alice\"");
}

#[test]
fn test_fmt_multiple_keys() {
    let code = r#"(fmt "{greeting} {name}" (dict "greeting" "Hi" "name" "Bob"))"#;
    assert_eq!(eval_str(code), "\"Hi Bob\"");
}

#[test]
fn test_fmt_missing_key_left_as_is() {
    let code = r#"(fmt "Hello {unknown}" (dict "name" "Alice"))"#;
    assert_eq!(eval_str(code), "\"Hello {unknown}\"");
}

#[test]
fn test_fmt_number_value() {
    let code = r#"(fmt "Score: {score}" (dict "score" 95))"#;
    assert_eq!(eval_str(code), "\"Score: 95\"");
}

#[test]
fn test_fmt_bool_value() {
    let code = r#"(fmt "Active: {status}" (dict "status" true))"#;
    assert_eq!(eval_str(code), "\"Active: true\"");
}

#[test]
fn test_fmt_empty_dict() {
    let code = r#"(fmt "Hello {name}" (dict))"#;
    assert_eq!(eval_str(code), "\"Hello {name}\"");
}

#[test]
fn test_fmt_no_placeholders() {
    let code = r#"(fmt "No placeholders" (dict))"#;
    assert_eq!(eval_str(code), "\"No placeholders\"");
}

#[test]
fn test_fmt_mixed_found_and_missing() {
    let code = r#"(fmt "{a} {b} {c}" (dict "a" 1 "c" 3))"#;
    assert_eq!(eval_str(code), "\"1 {b} 3\"");
}

#[test]
fn test_require_unknown_module_still_errors() {
    let result = eval_str(r#"(require "nonexistent_module_xyz")"#);
    assert!(result.contains("ERROR"), "expected error: {}", result);
    assert!(
        result.contains("unknown module"),
        "expected 'unknown module': {}",
        result
    );
}

#[test]
fn test_mod_positive() {
    assert_eq!(eval_str("(mod 10 3)"), "1");
    assert_eq!(eval_str("(mod 7 2)"), "1");
    assert_eq!(eval_str("(mod 20 5)"), "0");
}

#[test]
fn test_mod_negative() {
    // Rust rem_euclid: (-10) mod 3 = 2 (always non-negative)
    assert_eq!(eval_str("(mod -10 3)"), "2");
    assert_eq!(eval_str("(mod -1 3)"), "2");
}

#[test]
fn test_nth_first() {
    assert_eq!(eval_str("(nth 0 (list 10 20 30))"), "10");
}

#[test]
fn test_nth_last() {
    assert_eq!(eval_str("(nth 2 (list 10 20 30))"), "30");
}

#[test]
fn test_nth_out_of_bounds() {
    let result = eval_str("(nth 5 (list 1 2 3))");
    assert!(result.contains("ERROR") || result == "nil", "out of bounds: {}", result);
}

#[test]
fn test_str_contains_basic() {
    assert_eq!(eval_str("(str-contains \"hello world\" \"world\")"), "true");
    assert_eq!(eval_str("(str-contains \"hello\" \"xyz\")"), "false");
}

#[test]
fn test_str_contains_empty() {
    assert_eq!(eval_str("(str-contains \"hello\" \"\")"), "true");
}

#[test]
fn test_str_contains_case_sensitive() {
    assert_eq!(eval_str("(str-contains \"Hello\" \"hello\")"), "false");
}

#[test]
fn test_to_string_int() {
    assert_eq!(eval_str("(to-string 42)"), "\"42\"");
}

#[test]
fn test_to_string_bool() {
    assert_eq!(eval_str("(to-string true)"), "\"true\"");
    assert_eq!(eval_str("(to-string false)"), "\"false\"");
}

#[test]
fn test_to_string_nil() {
    assert_eq!(eval_str("(to-string nil)"), "\"nil\"");
}

#[test]
fn test_to_string_string() {
    assert_eq!(eval_str("(to-string \"hello\")"), "\"\"hello\"\"");
}

#[test]
fn test_to_string_list() {
    assert_eq!(eval_str("(to-string (list 1 2 3))"), "\"(1 2 3)\"");
}

#[test]
fn test_empty_nil() {
    assert_eq!(eval_str("(empty? nil)"), "true");
}

#[test]
fn test_empty_list() {
    assert_eq!(eval_str("(empty? (list))"), "true");
    assert_eq!(eval_str("(empty? (list 1))"), "false");
}

#[test]
fn test_empty_nonempty() {
    assert_eq!(eval_str("(empty? (list 1 2 3))"), "false");
}

#[test]
fn test_range_basic() {
    assert_eq!(eval_str("(range 0 5)"), "(0 1 2 3 4)");
}

#[test]
fn test_range_single() {
    assert_eq!(eval_str("(range 3 4)"), "(3)");
}

#[test]
fn test_range_empty() {
    assert_eq!(eval_str("(range 5 5)"), "()");
    assert_eq!(eval_str("(range 5 3)"), "()");
}

#[test]
fn test_range_offset() {
    assert_eq!(eval_str("(range 10 13)"), "(10 11 12)");
}

#[test]
fn test_reverse_basic() {
    assert_eq!(eval_str("(reverse (list 1 2 3))"), "(3 2 1)");
}

#[test]
fn test_reverse_empty() {
    assert_eq!(eval_str("(reverse (list))"), "()");
}

#[test]
fn test_reverse_nil() {
    assert_eq!(eval_str("(reverse nil)"), "()");
}

#[test]
fn test_reverse_single() {
    assert_eq!(eval_str("(reverse (list 42))"), "(42)");
}

#[test]
fn test_sort_basic() {
    assert_eq!(eval_str("(sort (list 3 1 2))"), "(1 2 3)");
}

#[test]
fn test_sort_empty() {
    assert_eq!(eval_str("(sort (list))"), "()");
}

#[test]
fn test_sort_single() {
    assert_eq!(eval_str("(sort (list 5))"), "(5)");
}

#[test]
fn test_sort_already_sorted() {
    assert_eq!(eval_str("(sort (list 1 2 3))"), "(1 2 3)");
}

#[test]
fn test_sort_duplicates() {
    assert_eq!(eval_str("(sort (list 3 1 2 1 3))"), "(1 1 2 3 3)");
}

#[test]
fn test_sort_reverse_order() {
    assert_eq!(eval_str("(sort (list 5 4 3 2 1))"), "(1 2 3 4 5)");
}

#[test]
fn test_sort_nil() {
    assert_eq!(eval_str("(sort nil)"), "()");
}

#[test]
fn test_zip_basic() {
    assert_eq!(eval_str("(zip (list 1 2 3) (list 4 5 6))"), "((1 4) (2 5) (3 6))");
}

#[test]
fn test_zip_unequal() {
    // zip stops at shorter list
    assert_eq!(eval_str("(zip (list 1 2) (list 3 4 5))"), "((1 3) (2 4))");
}

#[test]
fn test_zip_empty() {
    assert_eq!(eval_str("(zip (list) (list 1 2))"), "()");
    assert_eq!(eval_str("(zip (list 1 2) (list))"), "()");
}

#[test]
fn test_zip_nil() {
    assert_eq!(eval_str("(zip nil (list 1 2))"), "()");
    assert_eq!(eval_str("(zip (list 1 2) nil)"), "()");
}

#[test]
fn test_find_match() {
    assert_eq!(eval_str("(find (lambda (x) (> x 3)) (list 1 2 4 3))"), "4");
}

#[test]
fn test_find_no_match() {
    assert_eq!(eval_str("(find (lambda (x) (> x 10)) (list 1 2 3))"), "nil");
}

#[test]
fn test_find_empty() {
    assert_eq!(eval_str("(find (lambda (x) true) nil)"), "nil");
}

#[test]
fn test_find_first_match() {
    // should return first matching element, not all
    assert_eq!(eval_str("(find (lambda (x) (> x 2)) (list 1 3 5))"), "3");
}

#[test]
fn test_some_true() {
    assert_eq!(eval_str("(some (lambda (x) (> x 3)) (list 1 2 5 3))"), "true");
}

#[test]
fn test_some_false() {
    assert_eq!(eval_str("(some (lambda (x) (> x 10)) (list 1 2 3))"), "false");
}

#[test]
fn test_some_empty() {
    assert_eq!(eval_str("(some (lambda (x) true) nil)"), "false");
}

#[test]
fn test_every_true() {
    assert_eq!(eval_str("(every (lambda (x) (> x 0)) (list 1 2 3))"), "true");
}

#[test]
fn test_every_false() {
    assert_eq!(eval_str("(every (lambda (x) (> x 2)) (list 1 2 3))"), "false");
}

#[test]
fn test_every_empty() {
    // every on empty is vacuously true
    assert_eq!(eval_str("(every (lambda (x) false) nil)"), "true");
}

#[test]
fn test_near_log_returns_nil() {
    // near/log returns nil; in unit test the env::log_str is mocked/panics,
    // but we verify the wiring by checking it doesn't crash in the eval path
    // (may panic in unit tests — that's expected for NEAR builtins)
}

#[test]
fn test_native_map() {
    assert_eq!(
        eval_str("(map (lambda (x) (* x x)) (list 1 2 3 4))"),
        "(1 4 9 16)"
    );
}

#[test]
fn test_native_map_empty() {
    assert_eq!(eval_str("(map (lambda (x) x) (list))"), "()");
}

#[test]
fn test_native_map_nil() {
    assert_eq!(eval_str("(map (lambda (x) x) nil)"), "()");
}

#[test]
fn test_native_filter() {
    assert_eq!(
        eval_str("(filter (lambda (x) (> x 2)) (list 1 2 3 4 5))"),
        "(3 4 5)"
    );
}

#[test]
fn test_native_filter_none() {
    assert_eq!(
        eval_str("(filter (lambda (x) (> x 100)) (list 1 2 3))"),
        "()"
    );
}

#[test]
fn test_native_reduce() {
    assert_eq!(
        eval_str("(reduce (lambda (acc x) (+ acc x)) 0 (list 1 2 3 4))"),
        "10"
    );
}

#[test]
fn test_native_reduce_string() {
    assert_eq!(
        eval_str("(reduce (lambda (acc x) (str-concat acc x)) \"\" (list \"a\" \"b\" \"c\"))"),
        "\"abc\""
    );
}

#[test]
fn test_native_reduce_empty() {
    assert_eq!(eval_str("(reduce (lambda (a b) (+ a b)) 42 nil)"), "42");
}

#[test]
fn test_stdlib_math_min() {
    let code = r#"(require "math") (min 3 7)"#;
    assert_eq!(eval_str(code), "3");
}

#[test]
fn test_stdlib_math_max() {
    let code = r#"(require "math") (max 3 7)"#;
    assert_eq!(eval_str(code), "7");
}

#[test]
fn test_stdlib_math_gcd() {
    let code = r#"(require "math") (gcd 12 8)"#;
    assert_eq!(eval_str(code), "4");
}

#[test]
fn test_stdlib_math_gcd_coprime() {
    let code = r#"(require "math") (gcd 7 13)"#;
    assert_eq!(eval_str(code), "1");
}

#[test]
fn test_stdlib_math_square() {
    let code = r#"(require "math") (square 7)"#;
    assert_eq!(eval_str(code), "49");
}

#[test]
fn test_stdlib_math_identity() {
    let code = r#"(require "math") (identity 42)"#;
    assert_eq!(eval_str(code), "42");
}

#[test]
fn test_stdlib_math_pow() {
    let code = r#"(require "math") (pow 2 10)"#;
    assert_eq!(eval_str(code), "1024");
}

#[test]
fn test_stdlib_math_pow_zero() {
    let code = r#"(require "math") (pow 5 0)"#;
    assert_eq!(eval_str(code), "1");
}

#[test]
fn test_stdlib_math_lcm() {
    let code = r#"(require "math") (lcm 4 6)"#;
    assert_eq!(eval_str(code), "12");
}

#[test]
fn test_stdlib_math_lcm_zero() {
    let code = r#"(require "math") (lcm 0 5)"#;
    assert_eq!(eval_str(code), "0");
}

#[test]
fn test_stdlib_math_sqrt() {
    let code = r#"(require "math") (sqrt 49)"#;
    assert_eq!(eval_str(code), "7");
}

#[test]
fn test_stdlib_math_sqrt_perfect() {
    let code = r#"(require "math") (sqrt 144)"#;
    assert_eq!(eval_str(code), "12");
}

#[test]
fn test_stdlib_math_sqrt_negative() {
    let code = r#"(require "math") (sqrt -1)"#;
    assert_eq!(eval_str(code), "nil");
}

#[test]
fn test_stdlib_string_join() {
    let code = r#"(require "string") (str-join ", " (list "a" "b" "c"))"#;
    assert_eq!(eval_str(code), "\"a, b, c\"");
}

#[test]
fn test_stdlib_string_join_empty() {
    let code = r#"(require "string") (str-join ", " (list))"#;
    assert_eq!(eval_str(code), "\"\"");
}

#[test]
fn test_stdlib_string_join_single() {
    let code = r#"(require "string") (str-join ", " (list "hello"))"#;
    assert_eq!(eval_str(code), "\"hello\"");
}

#[test]
fn test_stdlib_string_replace() {
    let code = r#"(require "string") (str-replace "hello world" "world" "near")"#;
    assert_eq!(eval_str(code), "\"hello near\"");
}

#[test]
fn test_stdlib_string_replace_all() {
    let code = r#"(require "string") (str-replace "a-b-c" "-" ".")"#;
    assert_eq!(eval_str(code), "\"a.b.c\"");
}

#[test]
fn test_stdlib_string_repeat() {
    let code = r#"(require "string") (str-repeat "ab" 3)"#;
    assert_eq!(eval_str(code), "\"ababab\"");
}

#[test]
fn test_stdlib_string_repeat_zero() {
    let code = r#"(require "string") (str-repeat "ab" 0)"#;
    assert_eq!(eval_str(code), "\"\"");
}

#[test]
fn test_stdlib_string_pad_left() {
    let code = r#"(require "string") (str-pad-left "5" 3 "0")"#;
    assert_eq!(eval_str(code), "\"005\"");
}

#[test]
fn test_stdlib_string_pad_right() {
    let code = r#"(require "string") (str-pad-right "hi" 5 ".")"#;
    assert_eq!(eval_str(code), "\"hi...\"");
}

#[test]
fn test_int_div_by_zero() {
    let result = eval_str("(/ 10 0)");
    assert!(result.contains("ERROR"), "div by zero should error: {}", result);
}

#[test]
fn test_mod_negative_dividend() {
    // Euclidean remainder: (-7) mod 3 = 2
    assert_eq!(eval_str("(mod -7 3)"), "2");
}

#[test]
fn test_mod_negative_divisor() {
    // Rust rem_euclid: 7 mod -3 — behavior depends on implementation
    // Rust's % gives -2, rem_euclid gives 1
    let result = eval_str("(mod 7 -3)");
    assert!(result == "1" || result == "-2", "mod with negative divisor: {}", result);
}

#[test]
fn test_sort_negative_numbers() {
    assert_eq!(eval_str("(sort (list -3 -1 -2 0 2 1))"), "(-3 -2 -1 0 1 2)");
}

#[test]
fn test_sort_all_equal() {
    assert_eq!(eval_str("(sort (list 5 5 5))"), "(5 5 5)");
}

#[test]
fn test_range_large() {
    let result = eval_str("(len (range 0 100))");
    assert_eq!(result, "100");
}

#[test]
fn test_zip_single_elements() {
    assert_eq!(eval_str("(zip (list 1) (list 2))"), "((1 2))");
}

#[test]
fn test_zip_preserves_order() {
    assert_eq!(
        eval_str("(zip (list 1 2 3) (list \"a\" \"b\" \"c\"))"),
        "((1 \"a\") (2 \"b\") (3 \"c\"))"
    );
}

#[test]
fn test_empty_string() {
    // empty? only checks nil and empty list
    let result = eval_str("(empty? \"\")");
    // depends on implementation — should be false (not a list/nil)
    assert!(result == "false" || result == "true", "empty? on string: {}", result);
}

#[test]
fn test_match_nested_patterns() {
    // Nested destructuring: match (list 1 (list 2 3)) with (a (b c))
    // If nested destructuring is not supported, this returns nil (no match)
    let code = r#"
        (match (list 1 (list 2 3))
            ((a (b c)) (str-concat (to-string a) (to-string b) (to-string c)))
            (else "no match"))
    "#;
    let result = eval_str(code);
    // Either works (nested destructuring) or falls through to else or returns nil
    assert!(
        result == "\"123\"" || result == "\"no match\"" || result == "nil",
        "match nested: {}",
        result
    );
}

#[test]
fn test_fmt_nested_dict_value() {
    let code = r#"(fmt "{a}" (dict "a" (list 1 2 3)))"#;
    assert_eq!(eval_str(code), "\"(1 2 3)\"");
}

#[test]
fn test_from_json_nested_object() {
    // Test JSON parsing produces a valid result (dict/map)
    let code = r#"(from-json "[1,2,3]")"#;
    let result = eval_str(code);
    // Should parse as a list
    assert!(!result.contains("ERROR"), "json parse: {}", result);
    assert!(result.contains("1"), "should contain value 1: {}", result);
}

#[test]
fn test_from_json_nested_array() {
    let code = r#"(from-json "[[1,2],[3,4]]")"#;
    let result = eval_str(code);
    assert!(!result.contains("ERROR"), "nested array json: {}", result);
}

#[test]
fn test_to_json_nested_list() {
    let code = r#"(to-json (list (list 1 2) (list 3 4)))"#;
    assert_eq!(eval_str(code), "\"[[1,2],[3,4]]\"");
}

#[test]
fn test_to_json_dict_with_list() {
    let code = r#"(to-json (dict "items" (list 1 2 3)))"#;
    let result = eval_str(code);
    assert!(result.contains("items"), "dict with list: {}", result);
    assert!(result.contains("[1,2,3]"), "nested list: {}", result);
}

#[test]
fn test_try_catch_division_by_zero() {
    let code = r#"(try (/ 1 0) (catch e (str-concat "caught: " e)))"#;
    let result = eval_str(code);
    assert!(result.contains("caught:"), "should catch div-by-zero: {}", result);
}

#[test]
fn test_try_catch_type_error() {
    let code = r#"(try (+ 1 "hello") (catch e (str-concat "caught: " e)))"#;
    let result = eval_str(code);
    assert!(result.contains("caught:"), "should catch type error: {}", result);
}

#[test]
fn test_dict_large() {
    let code = r#"
        (define d (dict "a" 1 "b" 2 "c" 3 "d" 4 "e" 5))
        (dict/get d "c")
    "#;
    assert_eq!(eval_str(code), "3");
}

#[test]
fn test_dict_keys_sorted() {
    let code = r#"(sort (dict/keys (dict "z" 1 "a" 2 "m" 3)))"#;
    assert_eq!(eval_str(code), "(\"a\" \"m\" \"z\")");
}

#[test]
fn test_dict_merge_preserves_all() {
    let code = r#"
        (define a (dict "x" 1 "y" 2))
        (define b (dict "y" 99 "z" 3))
        (define m (dict/merge a b))
        (str-concat (to-string (dict/get m "x")) (to-string (dict/get m "y")) (to-string (dict/get m "z")))
    "#;
    // to-string on numbers wraps them: 1->"1", 99->"99", 3->"3"
    assert_eq!(eval_str(code), "\"1993\"");
}

#[test]
fn test_float_mod() {
    // Float mod: 10.0 mod 3.0 = 1.0
    assert_eq!(eval_str("(mod 10 3)"), "1");
}

#[test]
fn test_deep_recursion_gas_limit() {
    // Should hit gas limit, not stack overflow
    let code = "(define f (lambda (n) (if (<= n 0) 0 (+ 1 (f (- n 1)))))) (f 10000)";
    let result = eval_str_gas(code, 1_000);
    assert!(result.contains("ERROR"), "deep recursion should error: {}", result);
    assert!(result.contains("gas"), "should be gas error: {}", result);
}

#[test]
fn test_str_concat_empty() {
    assert_eq!(eval_str("(str-concat \"\" \"hello\")"), "\"hello\"");
    assert_eq!(eval_str("(str-concat \"hello\" \"\")"), "\"hello\"");
}

#[test]
fn test_str_split_multiple() {
    assert_eq!(eval_str("(str-split \"a,b,c,d\" \",\")"), "(\"a\" \"b\" \"c\" \"d\")");
}

#[test]
fn test_str_substring_out_of_range() {
    let result = eval_str("(str-substring \"hi\" 5 10)");
    // Should either error or return empty
    assert!(result.contains("ERROR") || result == "\"\"", "substring oob: {}", result);
}

#[test]
fn test_ed25519_verify_wrong_length_sig() {
    let result = eval_str("(ed25519-verify \"abcd\" \"msg\" \"abcd\")");
    assert!(result.contains("ERROR"), "bad sig length should error: {}", result);
}

#[test]
fn test_ed25519_verify_wrong_length_pk() {
    // 128 hex char sig (64 bytes), but short pk
    let result = eval_str("(ed25519-verify \"00000000000000000000000000000000000000000000000000000000000000000000000000000000000000000000000000000000000000000000000000000000\" \"msg\" \"abcd\")");
    assert!(result.contains("ERROR"), "bad pk length should error: {}", result);
}

#[test]
fn test_ecrecover_wrong_hash_length() {
    let result = eval_str("(ecrecover \"abcd\" \"abcd\" 0 true)");
    assert!(result.contains("ERROR"), "bad hash length: {}", result);
}

#[test]
fn test_ecrecover_wrong_sig_length() {
    // 64-char hash (32 bytes) but short sig
    let result = eval_str("(ecrecover \"0000000000000000000000000000000000000000000000000000000000000000\" \"abcd\" 0 true)");
    assert!(result.contains("ERROR"), "bad sig length: {}", result);
}

