use near_lisp_verified::parser::parse_all;
use near_lisp_verified::repl::count_open_parens;
use near_lisp_verified::types::{Env, LispVal};
use near_lisp_verified::vm::{
    check_ccall, eval_single, eval_with_gas, lift_all_ccalls, run_program, run_program_with_ccall, RunResult,
};

fn sym(s: &str) -> LispVal {
    LispVal::Sym(s.to_string())
}

#[test]
fn reader_reads_lists_quotes_and_comments() {
    let v = parse_all("(+ 1 (; inner ;) 2) ; rest\n'x \"a\\nb\"").unwrap();
    assert_eq!(v.len(), 3);
    assert_eq!(v[0], LispVal::List(vec![sym("+"), LispVal::Num(1), LispVal::Num(2)]));
    assert_eq!(v[1], LispVal::List(vec![sym("quote"), sym("x")]));
    assert_eq!(v[2], LispVal::Str("a\nb".to_string()));
}

#[test]
fn reader_errors() {
    assert_eq!(parse_all(")").unwrap_err(), "unexpected )");
    assert_eq!(parse_all("(1 2").unwrap_err(), "unexpected EOF: missing )");
    assert_eq!(parse_all("\"abc").unwrap_err(), "unterminated string");
    assert_eq!(parse_all("'").unwrap_err(), "unexpected EOF after '");
    assert_eq!(parse_all("3.14").unwrap_err(), "float literals are not supported");
}

#[test]
fn reader_atoms() {
    let v = parse_all("nil true false -7 +3 9223372036854775808 foo-bar").unwrap();
    assert_eq!(v[0], LispVal::Nil);
    assert_eq!(v[1], LispVal::Bool(true));
    assert_eq!(v[2], LispVal::Bool(false));
    assert_eq!(v[3], LispVal::Num(-7));
    assert_eq!(v[4], LispVal::Num(3));
    assert_eq!(v[5], sym("9223372036854775808"));
    assert_eq!(v[6], sym("foo-bar"));
}

#[test]
fn run_program_edges() {
    assert_eq!(run_program("", &mut Env::new(), 10).unwrap(), "nil");
    assert_eq!(run_program("; only a comment", &mut Env::new(), 10).unwrap(), "nil");
    assert_eq!(run_program("1 2 3", &mut Env::new(), 0).unwrap_err(), "out of gas");
    assert_eq!(run_program("1 \"two\" 3", &mut Env::new(), 3).unwrap(), "3");
    assert_eq!(run_program("1 2 3", &mut Env::new(), 2).unwrap_err(), "out of gas");
}

#[test]
fn nested_calls_are_lifted_top_level_calls_are_not() {
    let exprs = parse_all(r#"(define p (dict/get (near/ccall "o.near" "get" "{}") "x")) (near/ccall "a.near" "m" "{}")"#).unwrap();
    let lifted = lift_all_ccalls(exprs);
    let shown: Vec<String> = lifted.iter().map(|v| v.to_lisp_string()).collect();
    assert_eq!(
        shown,
        vec![
            "(define __ccall_tmp_0__ (near/ccall \"o.near\" \"get\" \"{}\"))".to_string(),
            "(define p (dict/get __ccall_tmp_0__ \"x\"))".to_string(),
            "(near/ccall \"a.near\" \"m\" \"{}\")".to_string(),
        ]
    );
}

#[test]
fn lifted_call_yields_under_its_variable() {
    let r = run_program_with_ccall(r#"(+ 1 (near/ccall "o.near" "get" "{}"))"#, &mut Env::new(), 100).unwrap();
    match r {
        RunResult::Yield { yields, state } => {
            assert_eq!(yields[0].account, "o.near");
            assert_eq!(state.pending_vars, vec![Some("__ccall_tmp_0__".to_string())]);
            assert_eq!(state.remaining.len(), 1);
        }
        RunResult::Done(s) => panic!("expected a yield, got {}", s),
    }
}

fn check_text(code: &str) -> Result<bool, String> {
    let e = parse_all(code).unwrap();
    let mut env = Env::new();
    let mut gas = 100u64;
    check_ccall(&e[0], &mut env, &mut gas).map(|r| r.is_some())
}

#[test]
fn call_form_errors() {
    assert_eq!(check_text(r#"(near/ccall-call "a.near" "m" "{}")"#).unwrap_err(), "near/ccall-call: need deposit (yoctonear string)");
    assert_eq!(check_text(r#"(near/ccall-call "a.near" "m" "{}" "x" "1")"#).unwrap_err(), "near/ccall-call: invalid deposit");
    assert_eq!(check_text(r#"(near/ccall-call "a.near" "m" "{}" "1")"#).unwrap_err(), "near/ccall-call: need gas (tgas)");
    assert_eq!(check_text(r#"(near/ccall-call "a.near" "m" "{}" "1" "g")"#).unwrap_err(), "near/ccall-call: invalid gas");
    assert_eq!(check_text(r#"(near/ccall "a.near" "m" "{}" "g")"#).unwrap_err(), "near/ccall: invalid gas (must be number in Tgas)");
    assert_eq!(check_text(r#"(near/ccall nil "m")"#).unwrap_err(), "expected string, got nil");
    assert_eq!(check_text(r#"(near/ccall 1 "m")"#), Ok(true));
    assert_eq!(check_text("(+ 1 2)"), Ok(false));
    assert_eq!(check_text(r#"(near/ccall-view* "a.near" "m")"#), Ok(true));
}

#[test]
fn null_safe_calls_are_flagged() {
    let r = run_program_with_ccall(r#"(near/ccall-view* "a.near" "m") (near/ccall "b.near" "m")"#, &mut Env::new(), 100).unwrap();
    match r {
        RunResult::Yield { yields, state } => {
            assert_eq!(yields.len(), 2);
            assert_eq!(state.null_safe_flags, vec![true, false]);
            assert_eq!(yields[0].args_bytes, b"{}".to_vec());
            assert_eq!(yields[0].gas_tgas, 10);
        }
        RunResult::Done(s) => panic!("expected a yield, got {}", s),
    }
}

#[test]
fn single_expression_runs() {
    assert_eq!(eval_single("(+ 1 2)").unwrap(), LispVal::Num(3));
    assert_eq!(eval_single("1 2").unwrap_err(), "expected 1 expr, got 2");
    assert_eq!(eval_single(")").unwrap_err(), "parse error: \"unexpected )\"");
    let (r, used) = eval_with_gas("7", 10);
    assert_eq!(r.unwrap(), LispVal::Num(7));
    assert_eq!(used, 1);
    let (r, used) = eval_with_gas("", 10);
    assert_eq!(r.unwrap_err(), "expected 1 expr");
    assert_eq!(used, 0);
}

#[test]
fn open_paren_counting() {
    assert_eq!(count_open_parens("(+ 1 ("), 2);
    assert_eq!(count_open_parens("(f \"(\" )"), 0);
    assert_eq!(count_open_parens("(a ;; ((("), 1);
    assert_eq!(count_open_parens("(a \"\\\")\" )"), 0);
    assert_eq!(count_open_parens("))"), -2);
}

#[test]
fn laws_on_values() {
    // dictionaries: a read gives back what was set, and nothing after a remove
    assert_eq!(run_program(r#"(dict/get (dict/set (dict "a" 1) "b" 2) "b")"#, &mut Env::new(), 100).unwrap(), "2");
    assert_eq!(run_program(r#"(dict/get (dict/remove (dict "a" 1) "a") "a")"#, &mut Env::new(), 100).unwrap(), "nil");
    // arithmetic
    assert_eq!(run_program("(+ 3 -8)", &mut Env::new(), 100).unwrap(), run_program("(+ -8 3)", &mut Env::new(), 100).unwrap());
    assert_eq!(run_program("(* 7 0)", &mut Env::new(), 100).unwrap(), "0");
    assert_eq!(run_program("(+ 9223372036854775807 1)", &mut Env::new(), 100).unwrap_err(), "integer overflow");
    // gas: evaluation with none left fails
    assert_eq!(run_program("(+ 1 2)", &mut Env::new(), 1).unwrap_err(), "out of gas");
}

#[test]
fn two_calls_without_arguments_yield_one_batch() {
    let mut env = near_lisp_verified::types::Env::new();
    let code = r#"
        (define x 1)
        (define a (near/ccall-view "a.near" "get_a"))
        (define b (near/ccall-view "b.near" "get_b"))
        (+ x 1)
    "#;
    match near_lisp_verified::vm::run_program_with_ccall(code, &mut env, 10_000).unwrap() {
        near_lisp_verified::vm::RunResult::Yield { yields, state } => {
            assert_eq!(yields.len(), 2);
            assert_eq!(yields[0].account, "a.near");
            assert_eq!(yields[1].method, "get_b");
            assert_eq!(yields[0].args_bytes, b"{}".to_vec());
            assert_eq!(state.pending_vars, vec![Some("a".to_string()), Some("b".to_string())]);
            assert_eq!(state.remaining.len(), 1);
        }
        near_lisp_verified::vm::RunResult::Done(_) => panic!("expected a yield"),
    }
}
