use near_lisp_verified::bytecode::{eval_builtin, run_compiled_lambda, try_compile_lambda, try_compile_loop, exec_compiled_loop};
use near_lisp_verified::eval::dispatch_call;
use near_lisp_verified::parser::parse_all;
use near_lisp_verified::types::{Env, LispVal};

#[test]
fn compiled_lambda_with_if_runs() {
    let body = parse_all("(if (> x 0) x 0)").unwrap().remove(0);
    let cl = try_compile_lambda(&vec!["x".to_string()], &body, &vec![], &Env::new()).unwrap();
    let mut gas = 1000;
    assert_eq!(run_compiled_lambda(&cl, &vec![LispVal::Num(5)], &mut gas), Ok(LispVal::Num(5)));
    assert_eq!(run_compiled_lambda(&cl, &vec![LispVal::Num(-2)], &mut gas), Ok(LispVal::Num(0)));
}

#[test]
fn compiled_loop_exits_on_first_test() {
    let body = parse_all("(if (< i 5) sum (recur (+ i 1) (+ sum i)))").unwrap().remove(0);
    let cl = try_compile_loop(&vec!["i".to_string(), "sum".to_string()], vec![LispVal::Num(0), LispVal::Num(0)],
        &body, &Env::new()).unwrap();
    let mut gas = 1000;
    let mut env = Env::new();
    assert_eq!(exec_compiled_loop(&cl, &mut gas, &mut env), Ok(LispVal::Num(0)));
    assert_eq!(gas, 999);
}

#[test]
fn compiled_loop_counts_passes() {
    let body = parse_all("(if (>= i 10) sum (recur (+ i 1) (+ sum i)))").unwrap().remove(0);
    let cl = try_compile_loop(&vec!["i".to_string(), "sum".to_string()], vec![LispVal::Num(0), LispVal::Num(0)],
        &body, &Env::new()).unwrap();
    let mut gas = 1000;
    let mut env = Env::new();
    assert_eq!(exec_compiled_loop(&cl, &mut gas, &mut env), Ok(LispVal::Num(45)));
    assert_eq!(gas, 989);
    let mut gas = 5;
    assert_eq!(exec_compiled_loop(&cl, &mut gas, &mut env), Err("out of gas".to_string()));
}

#[test]
fn loop_builtin_mod_is_euclidean() {
    assert_eq!(eval_builtin("mod", &vec![LispVal::Num(-7), LispVal::Num(3)]), Ok(LispVal::Num(2)));
    assert_eq!(eval_builtin("remainder", &vec![LispVal::Num(-7), LispVal::Num(3)]), Ok(LispVal::Num(-1)));
}

#[test]
fn storage_call_needs_its_gas() {
    let call = vec![LispVal::Sym("near/storage-write".to_string()), LispVal::Str("k1".to_string()),
        LispVal::Str("v1".to_string())];
    let mut env = Env::new();
    let mut gas = 50;
    assert_eq!(dispatch_call(&call, &mut env, &mut gas), Err("out of gas".to_string()));
    assert_eq!(gas, 48);
}

#[test]
fn fusion_never_swallows_a_jump_target() {
    let body = parse_all("(if (> (+ (if c 1 x) 5) 100) 0 (+ (if c 1 x) 5))").unwrap().remove(0);
    let cl = try_compile_loop(&vec!["c".to_string(), "x".to_string()], vec![LispVal::Bool(true), LispVal::Num(10)],
        &body, &Env::new()).unwrap();
    let mut gas = 1000;
    let mut env = Env::new();
    assert_eq!(exec_compiled_loop(&cl, &mut gas, &mut env), Ok(LispVal::Num(6)));
    let lam = parse_all("(+ (if c 1 x) 5)").unwrap().remove(0);
    let cl = try_compile_lambda(&vec!["c".to_string(), "x".to_string()], &lam, &vec![], &Env::new()).unwrap();
    let mut gas = 1000;
    assert_eq!(run_compiled_lambda(&cl, &vec![LispVal::Bool(true), LispVal::Num(10)], &mut gas), Ok(LispVal::Num(6)));
    assert_eq!(run_compiled_lambda(&cl, &vec![LispVal::Bool(false), LispVal::Num(10)], &mut gas), Ok(LispVal::Num(15)));
}

#[test]
fn whitespace_is_the_unicode_list() {
    assert!(near_lisp_verified::parser::is_whitespace('\u{3000}'));
    assert!(near_lisp_verified::parser::is_whitespace('\t'));
    assert!(!near_lisp_verified::parser::is_whitespace('\u{200b}'));
    assert!(!near_lisp_verified::parser::is_whitespace('a'));
}
