use near_lisp_verified::types::{check_used_gas, Env};
use near_lisp_verified::vm::run_program;

fn run(code: &str) -> String {
    let mut env = Env::new();
    run_program(code, &mut env, 10_000).unwrap_or_else(|e| format!("ERROR: {}", e))
}

#[test]
fn read_after_define_gives_the_value() {
    assert_eq!(run("(define x 5) x"), "5");
    assert_eq!(run("(define y 1) (define x 5) y"), "1");
    assert_eq!(run("(define x 1) (define x 2) x"), "2");
}

#[test]
fn try_catches_the_failure_message() {
    assert_eq!(run(r#"(try (error "boom") (catch e e))"#), r#""boom""#);
    assert_eq!(run("(try undefined-name (catch e e))"), r#""undefined: undefined-name""#);
    assert_eq!(run("(try (+ 1 2) (catch e e))"), "3");
}

#[test]
fn calls_keep_the_caller_bindings() {
    assert_eq!(run("(define x 1) (define f (lambda () (define x 99) x)) (f) x"), "1");
    assert_eq!(run("(define f (lambda (x) x)) (f 7) (try x (catch e e))"), r#""undefined: x""#);
}

#[test]
fn let_bindings_are_gone_after() {
    assert_eq!(run("(let ((a 1) (b 2)) (+ a b))"), "3");
    assert_eq!(run("(let ((a 1)) a) (try a (catch e e))"), r#""undefined: a""#);
    assert_eq!(run("(define a 10) (let ((a 1)) a) a"), "10");
}

#[test]
fn require_loads_once() {
    assert_eq!(run(r#"(require "math") (define abs 0) (require "math") abs"#), "0");
    assert_eq!(run(r#"(require "math") (require "math")"#), "nil");
    assert_eq!(run(r#"(require "math" "m") (m/abs -3)"#), "3");
}

#[test]
fn and_or_do_not_depend_on_order() {
    for (x, y) in [("true", "false"), ("false", "true"), ("true", "true"), ("false", "false")] {
        assert_eq!(run(&format!("(and {} {})", x, y)), run(&format!("(and {} {})", y, x)));
        assert_eq!(run(&format!("(or {} {})", x, y)), run(&format!("(or {} {})", y, x)));
    }
}

#[test]
fn double_negation_and_identities() {
    assert_eq!(run("(not (not true))"), "true");
    assert_eq!(run("(not (not false))"), "false");
    assert_eq!(run("(+ 42 0)"), "42");
    assert_eq!(run("(* -42 1)"), "-42");
    assert_eq!(run("(* 6 7)"), run("(* 7 6)"));
}

#[test]
fn higher_order_builtins() {
    assert_eq!(run("(map (lambda (x) (* x x)) (list 1 2 3))"), "(1 4 9)");
    assert_eq!(run("(filter (lambda (x) (> x 1)) (list 1 2 3))"), "(2 3)");
    assert_eq!(run("(reduce + 0 (list 1 2 3 4))"), "10");
    assert_eq!(run("(find (lambda (x) (> x 1)) (list 1 2 3))"), "2");
    assert_eq!(run("(some (lambda (x) (> x 5)) (list 1 2 3))"), "false");
    assert_eq!(run("(every (lambda (x) (> x 0)) (list 1 2 3))"), "true");
    assert_eq!(run("(map (lambda (x) x) nil)"), "()");
    assert_eq!(run("(map (lambda (x) x) 5)"), "ERROR: map: expected list, got 5");
    assert_eq!(run("(reduce +)"), "ERROR: reduce: need (f init list)");
}

#[test]
fn loops_that_are_interpreted() {
    // a body with `define` does not compile, so it is evaluated form by form
    assert_eq!(run("(loop ((i 0) (acc 0)) (if (> i 3) acc (progn (define t (+ acc i)) (recur (+ i 1) t))))"), "6");
    assert_eq!(run("(loop (i 0) (if (> i 2) i (progn (define z 1) (recur (+ i 1)))))"), "3");
    assert_eq!(run("(loop ((i 0)) (progn (define z 1) (recur 1 2)))"), "ERROR: recur: expected 1 args, got 2");
    assert_eq!(run("(loop (1 2) 3)"), "ERROR: loop: binding name must be sym, got 1");
    assert_eq!(run("(loop (i) 3)"), "ERROR: loop: flat bindings need even count");
}

#[test]
fn match_picks_the_first_matching_clause() {
    assert_eq!(run("(match 5 (1 \"one\") (?n (+ n 1)))"), "6");
    assert_eq!(run("(match 5 (1 \"one\"))"), "nil");
    assert_eq!(run("(match 5 (?n n)) (try n (catch e e))"), r#""undefined: n""#);
}

#[test]
fn failing_let_or_catch_leaves_no_bindings() {
    assert_eq!(run("(try (let ((a 1) (b (error \"x\"))) a) (catch e e)) (try a (catch e e))"), r#""undefined: a""#);
    assert_eq!(run("(try (try (error \"x\") (catch m (error m))) (catch e e)) (try m (catch e e))"), r#""undefined: m""#);
}

#[test]
fn loop_for_collects_sums_and_counts() {
    assert_eq!(run("(loop for i in (list 1 2 3 4 5) sum i)"), "15");
    assert_eq!(run("(loop for i in (list 1 2 3) collect (* i i))"), "(1 4 9)");
    assert_eq!(run("(loop for i in (list 1 2 3 4) count (> i 2))"), "2");
    assert_eq!(run("(loop for i in nil sum i)"), "0");
    assert_eq!(run("(loop for i in (list 1 2) collect i) (try i (catch e e))"), r#""undefined: i""#);
    assert_eq!(run("(loop for i in 5 sum i)"), "ERROR: loop for: expected a list");
    assert_eq!(run("(loop for i in (list 1 \"a\") sum i)"), "ERROR: loop for: sum needs numbers");
    assert_eq!(run("(loop for i (list 1) sum i)"),
        "ERROR: loop for: expected (loop for VAR in LIST collect|sum|count EXPR)");
}

#[test]
fn math_module_rounding_keeps_integers() {
    assert_eq!(run(r#"(require "math") (list (floor 7) (ceil -3) (round 0))"#), "(7 -3 0)");
}

#[test]
fn builtin_names_are_values() {
    assert!(near_lisp_verified::helpers::is_builtin_name("to-json"));
    assert!(near_lisp_verified::helpers::is_builtin_name("from-json"));
    assert!(!near_lisp_verified::helpers::is_builtin_name("no-such-builtin"));
    assert_eq!(run("to-json"), "to-json");
}

#[test]
fn loops_spend_gas_on_every_step() {
    let mut env = Env::new();
    let r = run_program("(loop ((i 0)) (if (>= i 1000) i (recur (+ i 1))))", &mut env, 1_000);
    assert_eq!(r, Err("out of gas".to_string()));
    let mut env = Env::new();
    let r = run_program("(loop ((i 0)) (if (>= i 1000) i (recur (+ i 1))))", &mut env, 1_000_000);
    assert_eq!(r, Ok("1000".to_string()));
    let mut env = Env::new();
    let r = run_program("(loop ((i 0) (sum 0)) (if (< i 5) sum (recur (+ i 1) (+ sum i))))", &mut env, 1_000);
    assert_eq!(r, Ok("0".to_string()));
}

#[test]
fn on_chain_gas_check_keeps_the_buffer() {
    assert!(check_used_gas(5_000_000_000_000, 2_999_999_999_999).is_ok());
    assert_eq!(check_used_gas(5_000_000_000_000, 3_000_000_000_000), Err("out of gas".to_string()));
    assert_eq!(check_used_gas(1_000, 0), Err("out of gas".to_string()));
}

#[test]
fn mod_by_zero_is_a_catchable_error() {
    assert_eq!(run("(mod 5 0)"), "ERROR: div by zero");
    assert_eq!(run("(try (mod 5 0) (catch e e))"), r#""div by zero""#);
}

#[test]
fn scoped_forms_leave_the_bindings() {
    assert_eq!(run("(define y 2) (try 5 (catch e e)) (match y (2 (define z 1))) y"), "2");
    assert_eq!(run("(match 3 (x x)) (try x (catch e e))"), r#""undefined: x""#);
    assert_eq!(run("(define y 1) ((lambda (x) (progn (define q 3) x)) y) (try q (catch e e))"), r#""undefined: q""#);
}

#[test]
fn trim_removes_unicode_whitespace() {
    assert_eq!(run("(str-trim \"\u{3000}\u{a0} hi\u{2003}\t\")"), "\"hi\"");
    assert_eq!(run("(str-length (str-trim \"\u{200b}x\"))"), "2");
}

#[test]
fn to_json_escapes_quotes_and_backslashes() {
    assert_eq!(run(r#"(str-length (to-json "a\"b"))"#), "6");
    assert_eq!(run(r#"(str-length (to-json "ab"))"#), "4");
}
