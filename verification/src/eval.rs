//! The evaluator: special forms, calls, lambda application, and the
//! higher-order builtins. Every step spends one unit of gas, so evaluation
//! always ends.
use vstd::prelude::*;
use crate::text::{str_eq, chars_to_string, str_to_chars, i64_to_string, u128_to_string, nat_digits, nat_to_decimal, int_to_decimal};
use crate::types::{lemma_lookup_push, LispVal, SVal, Env, lookup, lemma_sv_unfold, vals_view, binds_view, strings_view, check_gas, consume_gas, STORAGE_GAS_COST,
    clone_vals, clone_binds, clone_strings};
use crate::display::{display, push_str, push_all, display_into};
use crate::helpers::{ArithOp, ArithFail, arith_fold, arith_result, is_truthy, truthy, is_builtin_name, builtin_name, parse_params, params_of, match_pattern, match_pat, as_str, lemma_arith_commutes, lemma_arith_identity};
use crate::builtins::{res_sv, opt_res_sv, nth_arg};
use crate::prims::{pure_builtin, pure_spec};
use crate::effects::{effect_builtin, effect_name, effect_value, effect_ok, lemma_effect_value};
use crate::parser::{parse_all, parse_program};
use crate::stdlib::{get_stdlib_code, stdlib_code};
use crate::near;

verus! {

broadcast use lemma_sv_unfold;

/// `a` is an initial part of `b`: evaluation only ever adds bindings on top.
pub open spec fn env_prefix(a: Seq<(Seq<char>, SVal)>, b: Seq<(Seq<char>, SVal)>) -> bool {
    a.len() <= b.len() && b.take(a.len() as int) == a
}

pub proof fn lemma_prefix_refl(a: Seq<(Seq<char>, SVal)>)
    ensures
        env_prefix(a, a),
{
    assert(a.take(a.len() as int) =~= a);
}

pub proof fn lemma_prefix_trans(a: Seq<(Seq<char>, SVal)>, b: Seq<(Seq<char>, SVal)>, c: Seq<(Seq<char>, SVal)>)
    requires
        env_prefix(a, b),
        env_prefix(b, c),
    ensures
        env_prefix(a, c),
{
    assert(c.take(a.len() as int) =~= b.take(b.len() as int).take(a.len() as int));
    assert(c.take(a.len() as int) =~= a);
}

pub proof fn lemma_prefix_push(a: Seq<(Seq<char>, SVal)>, x: (Seq<char>, SVal))
    ensures
        env_prefix(a, a.push(x)),
{
    assert(a.push(x).take(a.len() as int) =~= a);
}

/// Adds a binding on top.
fn push_binding(env: &mut Env, name: String, val: LispVal)
    ensures
        final(env)@ == old(env)@.push((name@, val.sv())),
        env_prefix(old(env)@, final(env)@),
{
    env.push(name, val);
    proof { lemma_prefix_push(old(env)@, (name@, val.sv())); }
}

/// What every evaluator function keeps: gas never grows, bindings are only
/// added on top.
pub open spec fn kept(g0: u64, g1: u64, e0: Seq<(Seq<char>, SVal)>, e1: Seq<(Seq<char>, SVal)>) -> bool {
    g1 <= g0 && env_prefix(e0, e1)
}

/// After a scoped evaluation the bindings are back where they were.
fn restore(env: &mut Env, base: usize, Ghost(e0): Ghost<Seq<(Seq<char>, SVal)>>)
    requires
        e0.len() == base,
        env_prefix(e0, old(env)@),
    ensures
        final(env)@ == e0,
{
    env.truncate(base);
    proof {
        if base >= old(env)@.len() {
            assert(old(env)@ =~= e0);
        }
    }
}

/// Applies a lambda: binds the closure's bindings, then the parameters
/// (missing arguments are `nil`) and the rest parameter (the extra
/// arguments as a list) on top of the caller's bindings, evaluates the body,
/// and takes all of them off again.
pub fn apply_lambda(params: &Vec<String>, rest_param: &Option<String>, body: &LispVal, closed_env: &Vec<(String, LispVal)>,
    args: &Vec<LispVal>, caller_env: &mut Env, gas: &mut u64) -> (r: Result<LispVal, String>)
    ensures
        *final(gas) <= *old(gas),
        final(caller_env)@ == old(caller_env)@,
        *old(gas) == 0 ==> (r matches Err(e) && e@ == "out of gas"@),
        pure_apply(strings_view(params@), match rest_param { Some(x) => Some(x@), None => None }, body.sv(),
            binds_view(closed_env@), vals_view(args@), old(caller_env)@, *old(gas) as nat)
            matches Some((pr, pg, pe)) ==> res_sv(r) == pr && *final(gas) == pg,
    decreases *old(gas), 1nat,
{
    let ghost e0 = caller_env@;
    let ghost cv = binds_view(closed_env@);
    let ghost pv = strings_view(params@);
    let ghost rv = match rest_param { Some(x) => Some(x@), None => None::<Seq<char>> };
    let ghost vals = vals_view(args@);
    let ghost fixed = Seq::new(pv.len(), |j: int| (pv[j], if j < vals.len() { vals[j] } else { SVal::Nil }));
    let base = caller_env.len();
    let mut i: usize = 0;
    proof { lemma_prefix_refl(e0); }
    assert(cv.take(0) =~= Seq::<(Seq<char>, SVal)>::empty());
    assert(e0 + cv.take(0) =~= e0);
    while i < closed_env.len()
        invariant
            i <= closed_env@.len(),
            env_prefix(e0, caller_env@),
            e0.len() == base,
            cv == binds_view(closed_env@),
            caller_env@ == e0 + cv.take(i as int),
        decreases closed_env.len() - i,
    {
        let ghost before = caller_env@;
        push_binding(caller_env, closed_env[i].0.clone(), closed_env[i].1.deep_clone());
        proof {
            lemma_prefix_trans(e0, before, caller_env@);
            assert(cv[i as int] == (closed_env@[i as int].0@, closed_env@[i as int].1.sv()));
            assert(e0 + cv.take(i + 1) =~= (e0 + cv.take(i as int)).push(cv[i as int]));
        }
        i += 1;
    }
    assert(cv.take(i as int) =~= cv);
    let mut j: usize = 0;
    assert(fixed.take(0) =~= Seq::<(Seq<char>, SVal)>::empty());
    assert(e0 + cv + fixed.take(0) =~= e0 + cv);
    while j < params.len()
        invariant
            j <= params@.len(),
            env_prefix(e0, caller_env@),
            e0.len() == base,
            pv == strings_view(params@),
            vals == vals_view(args@),
            fixed == Seq::new(pv.len(), |j: int| (pv[j], if j < vals.len() { vals[j] } else { SVal::Nil })),
            caller_env@ == e0 + cv + fixed.take(j as int),
        decreases params.len() - j,
    {
        let v = if j < args.len() { args[j].deep_clone() } else { LispVal::Nil };
        let ghost before = caller_env@;
        push_binding(caller_env, params[j].clone(), v);
        proof {
            lemma_prefix_trans(e0, before, caller_env@);
            assert(pv[j as int] == params@[j as int]@);
            if j < args@.len() { assert(vals[j as int] == args@[j as int].sv()); }
            assert(e0 + cv + fixed.take(j + 1) =~= (e0 + cv + fixed.take(j as int)).push(fixed[j as int]));
        }
        j += 1;
    }
    assert(fixed.take(j as int) =~= fixed);
    match rest_param {
        Some(rest_name) => {
            let mut rest: Vec<LispVal> = Vec::new();
            let mut k: usize = params.len();
            assert(vals_view(rest@) =~= Seq::<SVal>::empty());
            while k < args.len()
                invariant
                    params@.len() <= k,
                    k <= args@.len() || args@.len() <= params@.len(),
                    k < args@.len() || k == params@.len() || k == args@.len(),
                    vals == vals_view(args@),
                    k <= args@.len() ==> vals_view(rest@) == vals.subrange(params@.len() as int, k as int),
                    k > args@.len() ==> vals_view(rest@) == Seq::<SVal>::empty(),
                decreases args.len() - k,
            {
                let ghost before = vals_view(rest@);
                rest.push(args[k].deep_clone());
                proof {
                    assert(vals_view(rest@) =~= before.push(vals[k as int]));
                    assert(vals.subrange(params@.len() as int, k + 1) =~= vals.subrange(params@.len() as int, k as int).push(vals[k as int]));
                }
                k += 1;
            }
            proof {
                if args@.len() > params@.len() {
                    assert(vals.subrange(params@.len() as int, args@.len() as int) =~= vals.skip(params@.len() as int));
                } else if k <= args@.len() {
                    assert(vals.subrange(params@.len() as int, k as int) =~= Seq::<SVal>::empty());
                }
            }
            let ghost before = caller_env@;
            push_binding(caller_env, rest_name.clone(), LispVal::List(rest));
            proof { lemma_prefix_trans(e0, before, caller_env@); }
        },
        None => {},
    }
    assert(caller_env@ =~= e0 + cv + param_bindings(pv, rv, vals));
    let ghost mid = caller_env@;
    let result = lisp_eval(body, caller_env, gas);
    proof { lemma_prefix_trans(e0, mid, caller_env@); }
    restore(caller_env, base, Ghost(e0));
    result
}

/// Calls a function value on evaluated arguments: a lambda, a lambda form
/// `(lambda params body)` written as a list, or a builtin's name.
pub fn call_val(func: &LispVal, args: &Vec<LispVal>, env: &mut Env, gas: &mut u64) -> (r: Result<LispVal, String>)
    ensures
        kept(*old(gas), *final(gas), old(env)@, final(env)@),
        *old(gas) == 0 ==> r is Err,
        pure_call_val(func.sv(), vals_view(args@), old(env)@, *old(gas) as nat) matches Some((pr, pg, pe))
            ==> res_sv(r) == pr && *final(gas) == pg && final(env)@ == pe,
    decreases *old(gas), 2nat,
{
    match func {
        LispVal::Lambda { params, rest_param, body, closed_env } => {
            let r = apply_lambda(params, rest_param, &**body, &**closed_env, args, env, gas);
            proof { lemma_prefix_refl(env@); }
            r
        },
        LispVal::List(ll) => {
            if ll.len() >= 3 {
                let (params, rest) = match parse_params(&ll[1]) {
                    Ok(p) => p,
                    Err(e) => { proof { lemma_prefix_refl(env@); } return Err(e); },
                };
                if *gas == 0 {
                    proof { lemma_prefix_refl(env@); }
                    return Err(String::from_str("out of gas"));
                }
                let empty: Vec<(String, LispVal)> = Vec::new();
                let r = apply_lambda(&params, &rest, &ll[2], &empty, args, env, gas);
                proof { lemma_prefix_refl(env@); }
                r
            } else {
                proof { lemma_prefix_refl(env@); }
                Err(not_callable(func))
            }
        },
        LispVal::Sym(_) => {
            match check_gas(gas) {
                Ok(()) => {},
                Err(e) => { proof { lemma_prefix_refl(env@); } return Err(e); },
            }
            let mut call: Vec<LispVal> = Vec::new();
            call.push(func.deep_clone());
            let ghost va = vals_view(args@);
            let mut i: usize = 0;
            assert(vals_view(call@) =~= seq![func.sv()] + va.take(0));
            while i < args.len()
                invariant
                    i <= args@.len(),
                    va == vals_view(args@),
                    vals_view(call@) == seq![func.sv()] + va.take(i as int),
                decreases args.len() - i,
            {
                let ghost before = vals_view(call@);
                proof { assert(va[i as int] == args@[i as int].sv()); }
                call.push(args[i].deep_clone());
                proof {
                    assert(va.take(i + 1) =~= va.take(i as int).push(va[i as int]));
                    assert(vals_view(call@) =~= before.push(va[i as int]));
                }
                i += 1;
            }
            proof { assert(va.take(va.len() as int) =~= va); }
            dispatch_call(&call, env, gas)
        },
        _ => {
            proof { lemma_prefix_refl(env@); }
            Err(not_callable(func))
        },
    }
}

fn not_callable(func: &LispVal) -> (e: String)
    ensures
        e@ == "not callable: "@ + display(func.sv()),
{
    let mut out: Vec<char> = Vec::new();
    push_str(&mut out, "not callable: ");
    display_into(func, &mut out);
    chars_to_string(&out)
}

/// Names of the builtins that call a function on list elements.
pub open spec fn higher_order_name(n: Seq<char>) -> bool {
    n == "map"@ || n == "filter"@ || n == "reduce"@ || n == "find"@ || n == "some"@ || n == "every"@
}

fn name_msg(name: &str, tail: &str) -> (e: String)
    ensures
        e@ == name@ + tail@,
{
    let mut out: Vec<char> = Vec::new();
    push_str(&mut out, name);
    push_str(&mut out, tail);
    chars_to_string(&out)
}

/// `map`, `filter`, `reduce`, `find`, `some`, `every`: the function is the
/// first argument; the list is the last (`nil` counts as empty).
#[verifier::rlimit(50)]
pub fn higher_order(name: &str, args: &Vec<LispVal>, env: &mut Env, gas: &mut u64) -> (r: Result<LispVal, String>)
    requires
        higher_order_name(name@),
    ensures
        kept(*old(gas), *final(gas), old(env)@, final(env)@),
        pure_higher(name@, vals_view(args@), old(env)@, *old(gas) as nat) matches Some((pr, pg, pe))
            ==> res_sv(r) == pr && *final(gas) == pg && final(env)@ == pe,
    decreases *old(gas), 3nat,
{
    proof {
        lemma_prefix_refl(env@);
        assert(forall|k: int| 0 <= k < args@.len() ==> #[trigger] vals_view(args@)[k] == args@[k].sv());
    }
    let ghost va = vals_view(args@);
    let ghost nm = name@;
    let is_reduce = str_eq(name, "reduce");
    let need = if is_reduce { name_msg(name, ": need (f init list)") }
        else if str_eq(name, "map") { name_msg(name, ": need (f list)") }
        else { name_msg(name, ": need (pred list)") };
    if args.len() == 0 {
        return Err(need);
    }
    let func = &args[0];
    let li: usize = if is_reduce { 2 } else { 1 };
    if is_reduce && args.len() < 2 {
        return Err(need);
    }
    let ev: Vec<LispVal> = Vec::new();
    proof { assert(vals_view(ev@) =~= Seq::<SVal>::empty()); }
    let empty_answer = if str_eq(name, "map") || str_eq(name, "filter") { LispVal::List(ev) }
        else if is_reduce { args[1].deep_clone() }
        else if str_eq(name, "find") { LispVal::Nil }
        else if str_eq(name, "some") { LispVal::Bool(false) }
        else { LispVal::Bool(true) };
    if args.len() <= li {
        return Err(need);
    }
    let lst = match &args[li] {
        LispVal::List(l) => clone_vals(l),
        LispVal::Nil => { return Ok(empty_answer); },
        other => {
            let mut out: Vec<char> = Vec::new();
            push_str(&mut out, name);
            push_str(&mut out, ": expected list, got ");
            display_into(other, &mut out);
            return Err(chars_to_string(&out));
        },
    };
    let ghost lv = vals_view(lst@);
    let ghost g0 = *gas;
    let ghost e0 = env@;
    let ghost ph = pure_higher(nm, va, e0, g0 as nat);
    let mut acc: LispVal = if is_reduce { args[1].deep_clone() } else { LispVal::Nil };
    let mut out: Vec<LispVal> = Vec::new();
    proof {
        assert(vals_view(out@) =~= Seq::<SVal>::empty());
        assert(va[li as int] == SVal::List(lv));
    }
    let mut i: usize = 0;
    while i < lst.len()
        invariant
            i <= lst@.len(),
            kept(g0, *gas, e0, env@),
            g0 == *old(gas),
            e0 == old(env)@,
            va == vals_view(args@),
            nm == name@,
            higher_order_name(nm),
            is_reduce == (nm == "reduce"@),
            args@.len() > 0,
            func == &args@[0],
            lv == vals_view(lst@),
            ph == pure_higher(nm, va, e0, g0 as nat),
            ph is Some ==> pure_higher_from(nm, va[0], lv, i as int, acc.sv(), vals_view(out@), env@, *gas as nat) == ph,
        decreases lst.len() - i,
    {
        let ghost o0 = vals_view(out@);
        let mut one: Vec<LispVal> = Vec::new();
        if is_reduce {
            one.push(acc.deep_clone());
        }
        proof { assert(lv[i as int] == lst@[i as int].sv()); }
        one.push(lst[i].deep_clone());
        proof {
            if is_reduce {
                assert(vals_view(one@) =~= seq![acc.sv(), lv[i as int]]);
            } else {
                assert(vals_view(one@) =~= seq![lv[i as int]]);
            }
            assert(va[0] == func.sv());
        }
        let ghost e1 = env@;
        let v = match call_val(func, &one, env, gas) {
            Ok(v) => v,
            Err(e) => { proof { lemma_prefix_trans(e0, e1, env@); } return Err(e); },
        };
        proof { lemma_prefix_trans(e0, e1, env@); }
        if is_reduce {
            acc = v;
        } else if str_eq(name, "map") {
            out.push(v);
            proof { assert(vals_view(out@) =~= o0.push(v.sv())); }
        } else if str_eq(name, "filter") {
            if is_truthy(&v) {
                out.push(lst[i].deep_clone());
                proof { assert(vals_view(out@) =~= o0.push(lv[i as int])); }
            }
        } else if str_eq(name, "find") {
            if is_truthy(&v) {
                return Ok(lst[i].deep_clone());
            }
        } else if str_eq(name, "some") {
            if is_truthy(&v) {
                return Ok(LispVal::Bool(true));
            }
        } else {
            if !is_truthy(&v) {
                return Ok(LispVal::Bool(false));
            }
        }
        i += 1;
    }
    if is_reduce {
        Ok(acc)
    } else if str_eq(name, "map") || str_eq(name, "filter") {
        Ok(LispVal::List(out))
    } else if str_eq(name, "find") {
        Ok(LispVal::Nil)
    } else if str_eq(name, "some") {
        Ok(LispVal::Bool(false))
    } else {
        Ok(LispVal::Bool(true))
    }
}

fn is_higher_order(name: &str) -> (r: bool)
    ensures
        r == higher_order_name(name@),
{
    str_eq(name, "map") || str_eq(name, "filter") || str_eq(name, "reduce") || str_eq(name, "find")
        || str_eq(name, "some") || str_eq(name, "every")
}

/// The storage builtins, each of which costs `STORAGE_GAS_COST` gas.
pub open spec fn storage_op(name: Seq<char>) -> bool {
    name == "near/storage-write"@ || name == "near/storage-read"@ || name == "near/storage-remove"@
        || name == "near/storage-has?"@
}

fn is_storage_op(name: &str) -> (r: bool)
    ensures
        r == storage_op(name@),
{
    str_eq(name, "near/storage-write") || str_eq(name, "near/storage-read") || str_eq(name, "near/storage-remove")
        || str_eq(name, "near/storage-has?")
}

/// Applies the head of a call to evaluated arguments: a builtin's name (the
/// value-only builtins, then the chain builtins, then the higher-order
/// ones), else the function bound to the name; a lambda; or a lambda form.
pub fn apply_call(head: &LispVal, args: &Vec<LispVal>, env: &mut Env, gas: &mut u64) -> (r: Result<LispVal, String>)
    ensures
        kept(*old(gas), *final(gas), old(env)@, final(env)@),
        match head.sv() {
            SVal::Sym(n) => (pure_spec(n, vals_view(args@)) is Some
                ==> Some(res_sv(r)) == pure_spec(n, vals_view(args@)) && final(env)@ == old(env)@ && *final(gas) == *old(gas))
                && (pure_spec(n, vals_view(args@)) is None && storage_op(n) ==> final(env)@ == old(env)@ && if *old(gas) < STORAGE_GAS_COST {
                    (r matches Err(e) && e@ == "out of gas"@) && *final(gas) == *old(gas)
                } else {
                    *final(gas) == *old(gas) - STORAGE_GAS_COST && effect_ok(n, vals_view(args@), old(env)@, res_sv(r))
                }),
            _ => true,
        },
        pure_apply_head(head.sv(), vals_view(args@), old(env)@, *old(gas) as nat) matches Some((pr, pg, pe))
            ==> res_sv(r) == pr && *final(gas) == pg && final(env)@ == pe,
        head.sv() is List || head.sv() is Lambda ==> final(env)@ == old(env)@,
    decreases *old(gas), 4nat,
{
    proof { lemma_prefix_refl(env@); }
    match head {
        LispVal::Sym(name) => {
            match pure_builtin(name.as_str(), args) {
                Some(r) => { return r; },
                None => {},
            }
            if is_storage_op(name.as_str()) {
                match consume_gas(gas, STORAGE_GAS_COST) {
                    Ok(()) => {},
                    Err(e) => { return Err(e); },
                }
            }
            match effect_builtin(name.as_str(), args, env) {
                Some(r) => {
                    proof {
                        if effect_value(name@, vals_view(args@)) is Some {
                            lemma_effect_value(name@, vals_view(args@), old(env)@, res_sv(r));
                        }
                    }
                    return r;
                },
                None => {},
            }
            if is_higher_order(name.as_str()) {
                return higher_order(name.as_str(), args, env, gas);
            }
            let f = match env.get(name.as_str()) {
                Some(f) => f.deep_clone(),
                None => { return Err(name_msg("undefined: ", name.as_str())); },
            };
            call_val(&f, args, env, gas)
        },
        LispVal::Lambda { params, rest_param, body, closed_env } => {
            apply_lambda(params, rest_param, &**body, &**closed_env, args, env, gas)
        },
        LispVal::List(ll) => {
            if ll.len() < 3 {
                return Err(String::from_str("inline lambda too short"));
            }
            let (params, rest) = match parse_params(&ll[1]) {
                Ok(p) => p,
                Err(e) => { return Err(e); },
            };
            let empty: Vec<(String, LispVal)> = Vec::new();
            apply_lambda(&params, &rest, &ll[2], &empty, args, env, gas)
        },
        _ => Err(String::from_str("not callable")),
    }
}

/// Evaluates the arguments of a call, left to right, then applies the head
/// (see `apply_call`). Integer `mod` by zero answers the error `div by zero`
/// (see `lemma_mod_by_zero`) where a host `%` would abort the call.
pub fn dispatch_call(list: &Vec<LispVal>, env: &mut Env, gas: &mut u64) -> (r: Result<LispVal, String>)
    requires
        list@.len() > 0,
    ensures
        kept(*old(gas), *final(gas), old(env)@, final(env)@),
        pure_call(vals_view(list@), old(env)@, *old(gas) as nat) matches Some(PStep::Done(pr, pg, pe))
            ==> res_sv(r) == pr && *final(gas) == pg && final(env)@ == pe,
        storage_call_agrees(vals_view(list@), old(env)@, *old(gas) as nat, res_sv(r), *final(gas) as nat, final(env)@),
        (list@[0].sv() is List || list@[0].sv() is Lambda) && simple_args(vals_view(list@)) ==> final(env)@ == old(env)@,
    decreases *old(gas), 5nat,
{
    let ghost g0 = *gas;
    let ghost e0 = env@;
    let ghost lv = vals_view(list@);
    let ghost pa = pure_args(lv, 1, e0, g0 as nat, Seq::empty());
    proof { lemma_prefix_refl(e0); }
    let mut args: Vec<LispVal> = Vec::new();
    let mut i: usize = 1;
    assert(vals_view(args@) =~= Seq::<SVal>::empty());
    while i < list.len()
        invariant
            1 <= i <= list@.len(),
            kept(g0, *gas, e0, env@),
            g0 == *old(gas),
            e0 == old(env)@,
            lv == vals_view(list@),
            pa == pure_args(lv, 1, e0, g0 as nat, Seq::empty()),
            pa is Some ==> pure_args(lv, i as int, env@, *gas as nat, vals_view(args@)) == pa,
            simple_args(lv) ==> env@ == e0,
        decreases list.len() - i,
    {
        let ghost e1 = env@;
        let ghost acc = vals_view(args@);
        proof { assert(lv[i as int] == list@[i as int].sv()); }
        match lisp_eval(&list[i], env, gas) {
            Ok(v) => {
                let ghost vs = v.sv();
                args.push(v);
                proof {
                    assert(vals_view(args@) =~= acc.push(vs));
                }
            },
            Err(e) => { proof { lemma_prefix_trans(e0, e1, env@); } return Err(e); },
        }
        proof { lemma_prefix_trans(e0, e1, env@); }
        i += 1;
    }
    let ghost e2 = env@;
    proof {
        assert(lv[0] == list@[0].sv());
        if pa is Some {
            assert(pa == Some((Ok::<Seq<SVal>, Seq<char>>(vals_view(args@)), *gas as nat, e2)));
        }
    }
    let r = apply_call(&list[0], &args, env, gas);
    proof { lemma_prefix_trans(e0, e2, env@); }
    r
}

/// The names the evaluator treats as special forms (checked before calls).
pub open spec fn special_form(h: Seq<char>) -> bool {
    h == "quote"@ || h == "define"@ || h == "if"@ || h == "cond"@ || h == "let"@ || h == "lambda"@
        || h == "progn"@ || h == "begin"@ || h == "and"@ || h == "or"@ || h == "not"@ || h == "try"@
        || h == "match"@ || h == "loop"@ || h == "recur"@ || h == "near/ccall-result"@
        || h == "near/batch-result"@ || h == "near/ccall-count"@ || h == "near/block-height"@
        || h == "near/predecessor"@ || h == "near/signer"@ || h == "near/timestamp"@
        || h == "near/account-balance"@ || h == "near/attached-deposit"@
        || h == "near/account-locked-balance"@ || h == "near/log"@ || h == "require"@
}

/// No storage builtin is a special form.
pub proof fn lemma_storage_not_special(n: Seq<char>)
    requires
        storage_op(n),
    ensures
        !special_form(n),
{
    reveal_strlit("near/storage-write");
    reveal_strlit("near/storage-read");
    reveal_strlit("near/storage-remove");
    reveal_strlit("near/storage-has?");
    reveal_strlit("quote");
    reveal_strlit("define");
    reveal_strlit("if");
    reveal_strlit("cond");
    reveal_strlit("let");
    reveal_strlit("lambda");
    reveal_strlit("progn");
    reveal_strlit("begin");
    reveal_strlit("and");
    reveal_strlit("or");
    reveal_strlit("not");
    reveal_strlit("try");
    reveal_strlit("match");
    reveal_strlit("loop");
    reveal_strlit("recur");
    reveal_strlit("near/ccall-result");
    reveal_strlit("near/batch-result");
    reveal_strlit("near/ccall-count");
    reveal_strlit("near/block-height");
    reveal_strlit("near/predecessor");
    reveal_strlit("near/signer");
    reveal_strlit("near/timestamp");
    reveal_strlit("near/account-balance");
    reveal_strlit("near/attached-deposit");
    reveal_strlit("near/account-locked-balance");
    reveal_strlit("near/log");
    reveal_strlit("require");
    assert(n.len() >= 17 && n[5] == 's');
    assert("quote"@.len() == 5 && "define"@.len() == 6 && "if"@.len() == 2 && "cond"@.len() == 4);
    assert("let"@.len() == 3 && "lambda"@.len() == 6 && "progn"@.len() == 5 && "begin"@.len() == 5);
    assert("and"@.len() == 3 && "or"@.len() == 2 && "not"@.len() == 3 && "try"@.len() == 3);
    assert("match"@.len() == 5 && "loop"@.len() == 4 && "recur"@.len() == 5 && "require"@.len() == 7);
    assert("near/ccall-count"@.len() == 16 && "near/predecessor"@.len() == 16 && "near/signer"@.len() == 11);
    assert("near/timestamp"@.len() == 14 && "near/log"@.len() == 8);
    assert("near/ccall-result"@[5] == 'c' && "near/batch-result"@[5] == 'b' && "near/block-height"@[5] == 'b');
    assert("near/account-balance"@[5] == 'a' && "near/attached-deposit"@[5] == 'a');
    assert("near/account-locked-balance"@[5] == 'a');
}

/// An integer `mod` by zero is an error the program can catch, `div by
/// zero`, rather than an abort.
pub proof fn lemma_mod_by_zero(a: int)
    ensures
        pure_spec("mod"@, seq![SVal::Num(a), SVal::Num(0)]) == Some(Err::<SVal, Seq<char>>("div by zero"@)),
{
    let args = seq![SVal::Num(a), SVal::Num(0)];
    reveal_strlit("mod");
    reveal_strlit("+");
    reveal_strlit("-");
    reveal_strlit("*");
    reveal_strlit("/");
    assert("mod"@ != "+"@ && "mod"@ != "-"@ && "mod"@ != "*"@ && "mod"@ != "/"@);
    assert(args.drop_last() =~= seq![SVal::Num(a)]);
    assert(args.last() == SVal::Num(0));
    assert(arith_fold(ArithOp::Mod, seq![SVal::Num(a)]) == Ok::<int, ArithFail>(a));
    assert(arith_fold(ArithOp::Mod, args) == Err::<int, ArithFail>(ArithFail::ZeroDivisor));
    assert(arith_result(ArithOp::Mod, args) == Err::<SVal, Seq<char>>("div by zero"@));
    assert(crate::builtins::numeric_spec("mod"@, args) == Some(arith_result(ArithOp::Mod, args)));
}

/// A builtin's name is a value: where nothing is bound to it, the name
/// evaluates to itself and spends one unit of gas.
pub proof fn lemma_builtin_is_value(n: Seq<char>, env: Seq<(Seq<char>, SVal)>, gas: nat)
    requires
        builtin_name(n),
        lookup(env, n) is None,
        gas > 0,
    ensures
        pure_eval(SVal::Sym(n), env, gas) == Some((Ok::<SVal, Seq<char>>(SVal::Sym(n)), (gas - 1) as nat, env)),
{
    assert(pure_step(SVal::Sym(n), env, (gas - 1) as nat) == Some(PStep::Done(Ok(SVal::Sym(n)), (gas - 1) as nat, env)));
}

/// A builtin's name is served by the builtin itself: a call headed by it
/// never looks the name up among the bindings.
pub proof fn lemma_builtin_served(n: Seq<char>, vals: Seq<SVal>)
    requires
        builtin_name(n),
    ensures
        pure_spec(n, vals) is Some || effect_name(n) || higher_order_name(n),
{
}

/// A form whose bindings are all gone when it is done, and which adds none
/// before them: a `let` with a binding list, a `try` or `match` whose first
/// expression is a literal or a variable, and the call of an inline lambda
/// on literals and variables.
pub open spec fn scoped_form(e: SVal) -> bool {
    match e {
        SVal::List(l) => l.len() >= 2 && match l[0] {
            SVal::Sym(h) => (h == "let"@ && l[1] is List)
                || ((h == "try"@ || h == "match"@) && (atom(l[1]) || l[1] is Sym)),
            SVal::List(_) => simple_args(l),
            _ => false,
        },
        _ => false,
    }
}

/// Every argument of a call is a literal or a variable.
pub open spec fn simple_args(l: Seq<SVal>) -> bool {
    forall|j: int| 1 <= j < l.len() ==> atom(#[trigger] l[j]) || l[j] is Sym
}

/// A call whose head is the name of a storage builtin.
pub open spec fn is_storage_call(e: SVal) -> bool {
    match e {
        SVal::List(l) => l.len() > 0 && match l[0] {
            SVal::Sym(n) => storage_op(n),
            _ => false,
        },
        _ => false,
    }
}

/// The elements of a list (empty for anything else).
pub open spec fn list_items(e: SVal) -> Seq<SVal> {
    match e {
        SVal::List(l) => l,
        _ => Seq::empty(),
    }
}

/// What a call of a storage builtin does, when its arguments evaluate
/// (see `pure_args`) and no value-only builtin answers for them: with less
/// than `STORAGE_GAS_COST` gas left it fails with `out of gas`, else it
/// spends that much and does what `effect_ok` says. `g2` and `env2` are the
/// gas and bindings afterwards.
pub open spec fn storage_call_agrees(l: Seq<SVal>, env: Seq<(Seq<char>, SVal)>, g: nat, r: Result<SVal, Seq<char>>,
    g2: nat, env2: Seq<(Seq<char>, SVal)>) -> bool {
    l.len() > 0 ==> match l[0] {
        SVal::Sym(n) => storage_op(n) ==> match pure_args(l, 1, env, g, Seq::empty()) {
            Some((Ok(vals), g1, e1)) => pure_spec(n, vals) is None ==> env2 == e1 && if g1 < STORAGE_GAS_COST {
                r == Err::<SVal, Seq<char>>("out of gas"@) && g2 == g1
            } else {
                g2 == g1 - STORAGE_GAS_COST && effect_ok(n, vals, e1, r)
            },
            _ => true,
        },
        _ => true,
    }
}

/// One step of the semantics: a result, or the expression in tail position,
/// each with the gas and the bindings left.
pub enum PStep {
    Done(Result<SVal, Seq<char>>, nat, Seq<(Seq<char>, SVal)>),
    Tail(SVal, nat, Seq<(Seq<char>, SVal)>),
}

/// The semantics of the evaluator: literals, variables, `quote`, `define`,
/// `if`, `cond`, `let`, `lambda`, `not`, `progn`/`begin`, `and`, `or`,
/// `try`, `match`, `recur`, `loop`, `require` of a standard library
/// module, `near/log` and the
/// forms that read the results of cross-contract calls, calls of the value
/// and higher-order builtins and of the chain builtins whose answer depends
/// on their arguments alone, and calls of function values. Gives the
/// result, the gas left and the bindings after; every evaluation (and every
/// expression handed on in tail position) spends one unit of gas first, and
/// with none left fails with `out of gas`. `None` where the answer comes
/// from the chain (block data, accounts, storage, modules saved in
/// storage). The guards on the gas left never fail:
/// evaluation never adds gas.
pub open spec fn pure_eval(e: SVal, env: Seq<(Seq<char>, SVal)>, gas: nat)
    -> Option<(Result<SVal, Seq<char>>, nat, Seq<(Seq<char>, SVal)>)>
    decreases gas, 1nat, 0int,
{
    if gas == 0 {
        Some((Err("out of gas"@), 0, env))
    } else {
        match pure_step(e, env, (gas - 1) as nat) {
            None => None,
            Some(PStep::Done(r, g, env1)) => Some((r, g, env1)),
            Some(PStep::Tail(next, g, env1)) => if g < gas { pure_eval(next, env1, g) } else { None },
        }
    }
}

/// The mode of `progn`/`begin` (0), `and` (1) and `or` (2).
pub open spec fn seq_mode(h: Seq<char>) -> int {
    if h == "and"@ { 1 } else if h == "or"@ { 2 } else { 0 }
}

/// One step of `pure_eval`, after its unit of gas was spent.
pub open spec fn pure_step(e: SVal, env: Seq<(Seq<char>, SVal)>, g: nat) -> Option<PStep>
    decreases g, 5nat, 0int,
{
    match e {
        SVal::Nil | SVal::Bool(_) | SVal::Num(_) | SVal::Str(_) | SVal::Lambda { .. } | SVal::Dict(_) => Some(PStep::Done(Ok(e), g, env)),
        SVal::Recur(_) => Some(PStep::Done(Err("recur outside loop"@), g, env)),
        SVal::Sym(n) => Some(PStep::Done(match lookup(env, n) {
            Some(v) => Ok(v),
            None => if builtin_name(n) { Ok(e) } else { Err("undefined: "@ + n) },
        }, g, env)),
        SVal::List(l) => if l.len() == 0 {
            Some(PStep::Done(Ok(SVal::Nil), g, env))
        } else {
            match l[0] {
                SVal::Sym(h) => if h == "quote"@ {
                    Some(PStep::Done(Ok(if l.len() > 1 { l[1] } else { SVal::Nil }), g, env))
                } else if h == "define"@ {
                    pure_define(l, env, g)
                } else if h == "if"@ {
                    if l.len() < 2 {
                        Some(PStep::Done(Err("if: need cond"@), g, env))
                    } else {
                        match pure_eval(l[1], env, g) {
                            None => None,
                            Some((Err(e1), g1, env1)) => Some(PStep::Done(Err(e1), g1, env1)),
                            Some((Ok(c), g1, env1)) => if truthy(c) {
                                if l.len() < 3 {
                                    Some(PStep::Done(Err("if: need then"@), g1, env1))
                                } else {
                                    Some(PStep::Tail(l[2], g1, env1))
                                }
                            } else {
                                Some(PStep::Tail(if l.len() > 3 { l[3] } else { SVal::Nil }, g1, env1))
                            },
                        }
                    }
                } else if h == "cond"@ {
                    pure_cond(l, 1, env, g)
                } else if h == "let"@ {
                    pure_let_form(l, env, g)
                } else if h == "lambda"@ {
                    Some(PStep::Done(lambda_value(l, env), g, env))
                } else if h == "progn"@ || h == "begin"@ || h == "and"@ || h == "or"@ {
                    if l.len() == 1 {
                        Some(PStep::Done(Ok(if seq_mode(h) == 0 { SVal::Nil } else if seq_mode(h) == 1 { SVal::Bool(true) } else { SVal::Bool(false) }), g, env))
                    } else {
                        pure_seq(l, 1, env, g, seq_mode(h))
                    }
                } else if h == "not"@ {
                    if l.len() < 2 {
                        Some(PStep::Done(Err("not: need arg"@), g, env))
                    } else {
                        match pure_eval(l[1], env, g) {
                            None => None,
                            Some((Err(e1), g1, env1)) => Some(PStep::Done(Err(e1), g1, env1)),
                            Some((Ok(v), g1, env1)) => Some(PStep::Done(Ok(SVal::Bool(!truthy(v))), g1, env1)),
                        }
                    }
                } else if h == "try"@ {
                    pure_try(l, env, g)
                } else if h == "match"@ {
                    pure_match(l, env, g)
                } else if h == "loop"@ {
                    pure_loop(l, env, g)
                } else if h == "near/ccall-result"@ {
                    Some(PStep::Done(match lookup(env, "__ccall_result__"@) {
                        Some(v) => Ok(v),
                        None => Err("near/ccall-result: no pending result"@),
                    }, g, env))
                } else if h == "near/batch-result"@ {
                    Some(PStep::Done(match lookup(env, "__ccall_results__"@) {
                        Some(v) => Ok(v),
                        None => Err("near/batch-result: no results yet"@),
                    }, g, env))
                } else if h == "near/ccall-count"@ {
                    Some(PStep::Done(Ok(match lookup(env, "__ccall_results__"@) {
                        Some(SVal::List(vs)) => SVal::Num(vs.len() as i64 as int),
                        _ => SVal::Num(0),
                    }), g, env))
                } else if h == "near/log"@ {
                    if l.len() < 2 {
                        Some(PStep::Done(Err("near/log: need arg"@), g, env))
                    } else {
                        match pure_eval(l[1], env, g) {
                            None => None,
                            Some((Err(e1), g1, env1)) => Some(PStep::Done(Err(e1), g1, env1)),
                            Some((Ok(_), g1, env1)) => Some(PStep::Done(Ok(SVal::Nil), g1, env1)),
                        }
                    }
                } else if h == "require"@ {
                    pure_require(l, env, g)
                } else if h == "recur"@ {
                    match pure_args(l, 1, env, g, Seq::empty()) {
                        None => None,
                        Some((Err(e1), g1, env1)) => Some(PStep::Done(Err(e1), g1, env1)),
                        Some((Ok(vals), g1, env1)) => Some(PStep::Done(Ok(SVal::Recur(vals)), g1, env1)),
                    }
                } else if special_form(h) {
                    None
                } else {
                    pure_call(l, env, g)
                },
                _ => pure_call(l, env, g),
            }
        },
    }
}

/// `(define name expr)`: binds `name` to the value of `expr` (`nil` without
/// one); the form's value is `nil`.
pub open spec fn pure_define(l: Seq<SVal>, env: Seq<(Seq<char>, SVal)>, g: nat) -> Option<PStep>
    decreases g, 4nat, 0int,
{
    if l.len() < 2 || !(l[1] is Sym) {
        Some(PStep::Done(Err("define: need symbol"@), g, env))
    } else if l.len() > 2 {
        match pure_eval(l[2], env, g) {
            None => None,
            Some((Err(e1), g1, env1)) => Some(PStep::Done(Err(e1), g1, env1)),
            Some((Ok(v), g1, env1)) => Some(PStep::Done(Ok(SVal::Nil), g1, env1.push((l[1]->Sym_0, v)))),
        }
    } else {
        Some(PStep::Done(Ok(SVal::Nil), g, env.push((l[1]->Sym_0, SVal::Nil))))
    }
}

/// `(lambda params body)`: a closure over the current bindings.
pub open spec fn lambda_value(l: Seq<SVal>, env: Seq<(Seq<char>, SVal)>) -> Result<SVal, Seq<char>> {
    if l.len() < 2 {
        Err("lambda: need params"@)
    } else {
        match params_of(l[1]) {
            Err(m) => Err(m),
            Ok((p, rp)) => if l.len() < 3 {
                Err("lambda: need body"@)
            } else {
                Ok(SVal::Lambda { params: p, rest_param: rp, body: Box::new(l[2]), closed_env: env })
            },
        }
    }
}

/// `(let ((name expr) ...) body)` (see `pure_let`).
pub open spec fn pure_let_form(l: Seq<SVal>, env: Seq<(Seq<char>, SVal)>, g: nat) -> Option<PStep>
    decreases g, 4nat, 0int,
{
    if l.len() < 2 || !(l[1] is List) {
        Some(PStep::Done(Err("let: bindings must be list"@), g, env))
    } else {
        pure_let(l, l[1]->List_0, 0, env, env, g)
    }
}

/// A call: the arguments are evaluated left to right, then the head is
/// applied (see `pure_apply_head`); an argument's failure is the call's.
pub open spec fn pure_call(l: Seq<SVal>, env: Seq<(Seq<char>, SVal)>, g: nat) -> Option<PStep>
    decreases g, 4nat, 0int,
{
    match pure_args(l, 1, env, g, Seq::empty()) {
        None => None,
        Some((Err(e1), g1, env1)) => Some(PStep::Done(Err(e1), g1, env1)),
        Some((Ok(vals), g1, env1)) => if g1 <= g {
            match pure_apply_head(l[0], vals, env1, g1) {
                None => None,
                Some((r, g2, env2)) => Some(PStep::Done(r, g2, env2)),
            }
        } else {
            None
        },
    }
}

/// Applying the head of a call to evaluated arguments: a value builtin's
/// name; a chain builtin's whose answer depends on its arguments alone (see
/// `effect_value`); a higher-order builtin's name; a name bound to a function value
/// (see `pure_call_val`; not a chain builtin's); an unbound name, which
/// fails; or a lambda form written in place.
pub open spec fn pure_apply_head(head: SVal, vals: Seq<SVal>, env: Seq<(Seq<char>, SVal)>, g: nat)
    -> Option<(Result<SVal, Seq<char>>, nat, Seq<(Seq<char>, SVal)>)>
    decreases g, 3nat, 1int,
{
    match head {
        SVal::Sym(h) => match pure_spec(h, vals) {
            Some(r) => Some((r, g, env)),
            None => if storage_op(h) {
                None
            } else if effect_name(h) {
                match effect_value(h, vals) {
                    Some(r) => Some((r, g, env)),
                    None => None,
                }
            } else if higher_order_name(h) {
                pure_higher(h, vals, env, g)
            } else {
                match lookup(env, h) {
                    None => Some((Err("undefined: "@ + h), g, env)),
                    Some(f) => pure_call_val(f, vals, env, g),
                }
            },
        },
        SVal::List(ll) => if ll.len() < 3 {
            Some((Err("inline lambda too short"@), g, env))
        } else {
            match params_of(ll[1]) {
                Err(m) => Some((Err(m), g, env)),
                Ok((p, rp)) => pure_apply(p, rp, ll[2], Seq::empty(), vals, env, g),
            }
        },
        _ => None,
    }
}

/// The message of a higher-order builtin called with too few arguments.
pub open spec fn higher_need(name: Seq<char>) -> Seq<char> {
    if name == "reduce"@ {
        name + ": need (f init list)"@
    } else if name == "map"@ {
        name + ": need (f list)"@
    } else {
        name + ": need (pred list)"@
    }
}

/// What a higher-order builtin answers for `nil` in place of the list.
pub open spec fn higher_empty(name: Seq<char>, args: Seq<SVal>) -> SVal {
    if name == "map"@ || name == "filter"@ {
        SVal::List(Seq::empty())
    } else if name == "reduce"@ {
        args[1]
    } else if name == "find"@ {
        SVal::Nil
    } else if name == "some"@ {
        SVal::Bool(false)
    } else {
        SVal::Bool(true)
    }
}

/// What a higher-order builtin answers once the whole list was seen: the
/// accumulator of `reduce`, the list built by `map` or `filter`, `nil` for
/// `find`, false for `some`, true for `every`.
pub open spec fn higher_done(name: Seq<char>, acc: SVal, out: Seq<SVal>) -> SVal {
    if name == "reduce"@ {
        acc
    } else if name == "map"@ || name == "filter"@ {
        SVal::List(out)
    } else if name == "find"@ {
        SVal::Nil
    } else if name == "some"@ {
        SVal::Bool(false)
    } else {
        SVal::Bool(true)
    }
}

/// `map`, `filter`, `reduce`, `find`, `some` and `every`: the function is
/// the first argument (`reduce` takes the initial value second), the list
/// the next one; `nil` counts as the empty list.
pub open spec fn pure_higher(name: Seq<char>, args: Seq<SVal>, env: Seq<(Seq<char>, SVal)>, g: nat)
    -> Option<(Result<SVal, Seq<char>>, nat, Seq<(Seq<char>, SVal)>)>
    decreases g, 3nat, 0int,
{
    let li: int = if name == "reduce"@ { 2 } else { 1 };
    if args.len() <= li {
        Some((Err(higher_need(name)), g, env))
    } else {
        match args[li] {
            SVal::List(lst) => pure_higher_from(name, args[0], lst, 0,
                if name == "reduce"@ { args[1] } else { SVal::Nil }, Seq::empty(), env, g),
            SVal::Nil => Some((Ok(higher_empty(name, args)), g, env)),
            other => Some((Err(name + ": expected list, got "@ + display(other)), g, env)),
        }
    }
}

/// A higher-order builtin from element `i` of the list on, with `acc` the
/// accumulator of `reduce` and `out` the list built so far: the function is
/// called on each element (on the accumulator and the element for
/// `reduce`); `find`, `some` and `every` stop at the first element that
/// decides them; the first failure is the answer.
pub open spec fn pure_higher_from(name: Seq<char>, f: SVal, lst: Seq<SVal>, i: int, acc: SVal, out: Seq<SVal>,
    env: Seq<(Seq<char>, SVal)>, g: nat) -> Option<(Result<SVal, Seq<char>>, nat, Seq<(Seq<char>, SVal)>)>
    decreases g, 2nat, lst.len() - i + 2,
{
    if i < 0 || i >= lst.len() {
        Some((Ok(higher_done(name, acc, out)), g, env))
    } else {
        let one = if name == "reduce"@ { seq![acc, lst[i]] } else { seq![lst[i]] };
        match pure_call_val(f, one, env, g) {
            None => None,
            Some((Err(e), g1, env1)) => Some((Err(e), g1, env1)),
            Some((Ok(v), g1, env1)) => if g1 > g {
                None
            } else if name == "reduce"@ {
                pure_higher_from(name, f, lst, i + 1, v, out, env1, g1)
            } else if name == "map"@ {
                pure_higher_from(name, f, lst, i + 1, acc, out.push(v), env1, g1)
            } else if name == "filter"@ {
                pure_higher_from(name, f, lst, i + 1, acc, if truthy(v) { out.push(lst[i]) } else { out }, env1, g1)
            } else if name == "find"@ {
                if truthy(v) { Some((Ok(lst[i]), g1, env1)) } else { pure_higher_from(name, f, lst, i + 1, acc, out, env1, g1) }
            } else if name == "some"@ {
                if truthy(v) { Some((Ok(SVal::Bool(true)), g1, env1)) } else { pure_higher_from(name, f, lst, i + 1, acc, out, env1, g1) }
            } else {
                if !truthy(v) { Some((Ok(SVal::Bool(false)), g1, env1)) } else { pure_higher_from(name, f, lst, i + 1, acc, out, env1, g1) }
            },
        }
    }
}

/// Calling a function value on evaluated arguments: a lambda; a lambda form
/// written as a list; or a builtin's name, which spends a unit of gas and is
/// then called as the form `(name args...)`.
pub open spec fn pure_call_val(f: SVal, vals: Seq<SVal>, env: Seq<(Seq<char>, SVal)>, g: nat)
    -> Option<(Result<SVal, Seq<char>>, nat, Seq<(Seq<char>, SVal)>)>
    decreases g, 2nat, 1int,
{
    match f {
        SVal::Lambda { params, rest_param, body, closed_env } => pure_apply(params, rest_param, *body, closed_env, vals, env, g),
        SVal::List(ll) => if ll.len() >= 3 {
            match params_of(ll[1]) {
                Err(m) => Some((Err(m), g, env)),
                Ok((p, rp)) => if g == 0 {
                    Some((Err("out of gas"@), g, env))
                } else {
                    pure_apply(p, rp, ll[2], Seq::empty(), vals, env, g)
                },
            }
        } else {
            Some((Err("not callable: "@ + display(f)), g, env))
        },
        SVal::Sym(_) => if g == 0 {
            Some((Err("out of gas"@), g, env))
        } else {
            match pure_call(seq![f] + vals, env, (g - 1) as nat) {
                Some(PStep::Done(r, g1, env1)) => Some((r, g1, env1)),
                _ => None,
            }
        },
        _ => Some((Err("not callable: "@ + display(f)), g, env)),
    }
}

/// The bindings of a lambda's parameters: each to its argument, `nil` when
/// missing; then the rest parameter, if any, to the extra arguments.
pub open spec fn param_bindings(params: Seq<Seq<char>>, rest_param: Option<Seq<char>>, vals: Seq<SVal>) -> Seq<(Seq<char>, SVal)> {
    let fixed = Seq::new(params.len(), |j: int| (params[j], if j < vals.len() { vals[j] } else { SVal::Nil }));
    match rest_param {
        Some(rn) => fixed.push((rn, SVal::List(if vals.len() > params.len() { vals.skip(params.len() as int) } else { Seq::empty() }))),
        None => fixed,
    }
}

/// Applying a lambda: its body is evaluated with the closure's bindings and
/// the parameters' on top of the caller's; afterwards the caller's bindings
/// are as they were.
pub open spec fn pure_apply(params: Seq<Seq<char>>, rest_param: Option<Seq<char>>, body: SVal, closed: Seq<(Seq<char>, SVal)>,
    vals: Seq<SVal>, env: Seq<(Seq<char>, SVal)>, g: nat) -> Option<(Result<SVal, Seq<char>>, nat, Seq<(Seq<char>, SVal)>)>
    decreases g, 2nat, 0int,
{
    match pure_eval(body, env + closed + param_bindings(params, rest_param, vals), g) {
        None => None,
        Some((r, g1, _)) => Some((r, g1, env)),
    }
}

/// The arguments of a call from position `i` on, evaluated left to right
/// after `acc`; the first failure stops them.
pub open spec fn pure_args(l: Seq<SVal>, i: int, env: Seq<(Seq<char>, SVal)>, g: nat, acc: Seq<SVal>)
    -> Option<(Result<Seq<SVal>, Seq<char>>, nat, Seq<(Seq<char>, SVal)>)>
    decreases g, 2nat, l.len() - i,
{
    if i < 1 || i >= l.len() {
        Some((Ok(acc), g, env))
    } else {
        match pure_eval(l[i], env, g) {
            None => None,
            Some((Err(e), g1, env1)) => Some((Err(e), g1, env1)),
            Some((Ok(v), g1, env1)) => if g1 <= g { pure_args(l, i + 1, env1, g1, acc.push(v)) } else { None },
        }
    }
}

/// `progn`, `and` (mode 1) and `or` (mode 2) from position `i` on: the
/// expressions before the last are evaluated in turn (`and` stops at the
/// first false value, `or` at the first true one), the last is handed on.
pub open spec fn pure_seq(l: Seq<SVal>, i: int, env: Seq<(Seq<char>, SVal)>, g: nat, mode: int) -> Option<PStep>
    decreases g, 2nat, l.len() - i,
{
    if i < 1 || i + 1 >= l.len() {
        Some(PStep::Tail(l[l.len() - 1], g, env))
    } else {
        match pure_eval(l[i], env, g) {
            None => None,
            Some((Err(e), g1, env1)) => Some(PStep::Done(Err(e), g1, env1)),
            Some((Ok(v), g1, env1)) => if (mode == 1 && !truthy(v)) || (mode == 2 && truthy(v)) {
                Some(PStep::Done(Ok(v), g1, env1))
            } else if g1 <= g {
                pure_seq(l, i + 1, env1, g1, mode)
            } else {
                None
            },
        }
    }
}

/// `cond` from clause `i` on: the first clause whose test holds (or an
/// `else` clause) hands its expression on, or the test's value when it has
/// none; clauses that are not lists are skipped; with none left, `nil`.
pub open spec fn pure_cond(l: Seq<SVal>, i: int, env: Seq<(Seq<char>, SVal)>, g: nat) -> Option<PStep>
    decreases g, 2nat, l.len() - i,
{
    if i < 1 || i >= l.len() {
        Some(PStep::Done(Ok(SVal::Nil), g, env))
    } else {
        match l[i] {
            SVal::List(parts) => if parts.len() == 0 {
                pure_cond(l, i + 1, env, g)
            } else if parts[0] == SVal::Sym("else"@) {
                if parts.len() > 1 { Some(PStep::Tail(parts[1], g, env)) } else { Some(PStep::Done(Ok(SVal::Nil), g, env)) }
            } else {
                match pure_eval(parts[0], env, g) {
                    None => None,
                    Some((Err(e), g1, env1)) => Some(PStep::Done(Err(e), g1, env1)),
                    Some((Ok(t), g1, env1)) => if truthy(t) {
                        Some(PStep::Tail(if parts.len() > 1 { parts[1] } else { t }, g1, env1))
                    } else if g1 <= g {
                        pure_cond(l, i + 1, env1, g1)
                    } else {
                        None
                    },
                }
            },
            _ => pure_cond(l, i + 1, env, g),
        }
    }
}

/// `let` from binding `i` on, with `env` the bindings so far and `outer`
/// those before the `let`: each well-formed `(name expr)` binding is
/// evaluated and bound in turn (others are skipped), then the body; after
/// the body, and after a failing binding, the bindings are `outer` again.
pub open spec fn pure_let(l: Seq<SVal>, bs: Seq<SVal>, i: int, env: Seq<(Seq<char>, SVal)>, outer: Seq<(Seq<char>, SVal)>, g: nat)
    -> Option<PStep>
    decreases g, 2nat, bs.len() - i,
{
    if i < 0 || i >= bs.len() {
        if l.len() > 2 {
            match pure_eval(l[2], env, g) {
                None => None,
                Some((r, g1, _)) => Some(PStep::Done(r, g1, outer)),
            }
        } else {
            Some(PStep::Done(Ok(SVal::Nil), g, outer))
        }
    } else {
        match bs[i] {
            SVal::List(pair) => if pair.len() == 2 && pair[0] is Sym {
                match pure_eval(pair[1], env, g) {
                    None => None,
                    Some((Err(e), g1, _)) => Some(PStep::Done(Err(e), g1, outer)),
                    Some((Ok(v), g1, env1)) => if g1 <= g {
                        pure_let(l, bs, i + 1, env1.push((pair[0]->Sym_0, v)), outer, g1)
                    } else {
                        None
                    },
                }
            } else {
                pure_let(l, bs, i + 1, env, outer, g)
            },
            _ => pure_let(l, bs, i + 1, env, outer, g),
        }
    }
}

/// Expressions evaluated in turn from position `i` on, with `last` the value
/// so far: the last value, or the first failure.
pub open spec fn pure_block(vs: Seq<SVal>, i: int, env: Seq<(Seq<char>, SVal)>, g: nat, last: SVal)
    -> Option<(Result<SVal, Seq<char>>, nat, Seq<(Seq<char>, SVal)>)>
    decreases g, 2nat, vs.len() - i,
{
    if i < 0 || i >= vs.len() {
        Some((Ok(last), g, env))
    } else {
        match pure_eval(vs[i], env, g) {
            None => None,
            Some((Err(e), g1, env1)) => Some((Err(e), g1, env1)),
            Some((Ok(v), g1, env1)) => if g1 <= g { pure_block(vs, i + 1, env1, g1, v) } else { None },
        }
    }
}

/// `(try expr (catch name body...))`: the value of `expr`; when it fails,
/// the body evaluated with `name` bound to the error message (the binding
/// is gone afterwards, whether the body succeeds or fails).
pub open spec fn pure_try(l: Seq<SVal>, env: Seq<(Seq<char>, SVal)>, g: nat) -> Option<PStep>
    decreases g, 4nat, 0int,
{
    if l.len() < 2 {
        Some(PStep::Done(Err("try: need expression"@), g, env))
    } else {
        match pure_eval(l[1], env, g) {
            None => None,
            Some((Ok(v), g1, env1)) => Some(PStep::Done(Ok(v), g1, env1)),
            Some((Err(m), g1, env1)) => if l.len() < 3 {
                Some(PStep::Done(Err("try: need catch clause"@), g1, env1))
            } else {
                match l[2] {
                    SVal::List(c) => if c.len() == 0 || c[0] != SVal::Sym("catch"@) {
                        Some(PStep::Done(Err("try: second arg must be (catch var body...)"@), g1, env1))
                    } else if c.len() < 2 || !(c[1] is Sym) {
                        Some(PStep::Done(Err("try: catch needs a variable name"@), g1, env1))
                    } else if g1 <= g {
                        match pure_block(c, 2, env1.push((c[1]->Sym_0, SVal::Str(m))), g1, SVal::Nil) {
                            None => None,
                            Some((Err(e), g2, _)) => Some(PStep::Done(Err(e), g2, env1)),
                            Some((Ok(r), g2, _)) => Some(PStep::Done(Ok(r), g2, env1)),
                        }
                    } else {
                        None
                    },
                    _ => Some(PStep::Done(Err("try: catch clause must be a list"@), g1, env1)),
                }
            },
        }
    }
}

/// The semantics of `match`: the body of the first clause whose pattern
/// matches the value (see `match_pat`), with the pattern's bindings on top
/// (gone afterwards); `nil` when none matches.
pub open spec fn pure_match(l: Seq<SVal>, env: Seq<(Seq<char>, SVal)>, g: nat) -> Option<PStep>
    decreases g, 4nat, 0int,
{
    if l.len() < 2 {
        Some(PStep::Done(Err("match: need expr"@), g, env))
    } else {
        match pure_eval(l[1], env, g) {
            None => None,
            Some((Err(e), g1, env1)) => Some(PStep::Done(Err(e), g1, env1)),
            Some((Ok(v), g1, env1)) => if g1 <= g { pure_match_from(l, 2, v, env1, g1) } else { None },
        }
    }
}

/// The clauses of a `match` from position `i` on (see `pure_match`).
pub open spec fn pure_match_from(l: Seq<SVal>, i: int, v: SVal, env: Seq<(Seq<char>, SVal)>, g: nat) -> Option<PStep>
    decreases g, 2nat, l.len() - i,
{
    if i < 2 || i >= l.len() {
        Some(PStep::Done(Ok(SVal::Nil), g, env))
    } else {
        match l[i] {
            SVal::List(parts) => if parts.len() >= 2 {
                match match_pat(parts[0], v) {
                    Some(b) => match pure_eval(parts[1], env + b, g) {
                        None => None,
                        Some((r, g2, _)) => Some(PStep::Done(r, g2, env)),
                    },
                    None => pure_match_from(l, i + 1, v, env, g),
                }
            } else {
                pure_match_from(l, i + 1, v, env, g)
            },
            _ => pure_match_from(l, i + 1, v, env, g),
        }
    }
}

/// A `loop`'s bindings are `((name init) ...)` when every one is a list.
pub open spec fn pair_style(bs: Seq<SVal>) -> bool {
    forall|q: int| 0 <= q < bs.len() ==> (#[trigger] bs[q]) is List
}

/// `((name init) ...)` bindings from position `i` on: each well-formed pair
/// has its initial value evaluated in turn, the others are skipped; the
/// names and values so far are `ns` and `vs`.
pub open spec fn pure_loop_pairs(bs: Seq<SVal>, i: int, env: Seq<(Seq<char>, SVal)>, g: nat, ns: Seq<Seq<char>>, vs: Seq<SVal>)
    -> Option<(Result<(Seq<Seq<char>>, Seq<SVal>), Seq<char>>, nat, Seq<(Seq<char>, SVal)>)>
    decreases g, 2nat, bs.len() - i,
{
    if i < 0 || i >= bs.len() {
        Some((Ok((ns, vs)), g, env))
    } else {
        match bs[i] {
            SVal::List(pair) => if pair.len() == 2 && pair[0] is Sym {
                match pure_eval(pair[1], env, g) {
                    None => None,
                    Some((Err(e), g1, env1)) => Some((Err(e), g1, env1)),
                    Some((Ok(v), g1, env1)) => if g1 <= g {
                        pure_loop_pairs(bs, i + 1, env1, g1, ns.push(pair[0]->Sym_0), vs.push(v))
                    } else {
                        None
                    },
                }
            } else {
                pure_loop_pairs(bs, i + 1, env, g, ns, vs)
            },
            _ => pure_loop_pairs(bs, i + 1, env, g, ns, vs),
        }
    }
}

/// `(name init name init ...)` bindings from position `i` on.
pub open spec fn pure_loop_flat(bs: Seq<SVal>, i: int, env: Seq<(Seq<char>, SVal)>, g: nat, ns: Seq<Seq<char>>, vs: Seq<SVal>)
    -> Option<(Result<(Seq<Seq<char>>, Seq<SVal>), Seq<char>>, nat, Seq<(Seq<char>, SVal)>)>
    decreases g, 2nat, bs.len() - i,
{
    if i < 0 || i + 1 >= bs.len() {
        Some((Ok((ns, vs)), g, env))
    } else {
        match bs[i] {
            SVal::Sym(n) => match pure_eval(bs[i + 1], env, g) {
                None => None,
                Some((Err(e), g1, env1)) => Some((Err(e), g1, env1)),
                Some((Ok(v), g1, env1)) => if g1 <= g {
                    pure_loop_flat(bs, i + 2, env1, g1, ns.push(n), vs.push(v))
                } else {
                    None
                },
            },
            other => Some((Err("loop: binding name must be sym, got "@ + display(other)), g, env)),
        }
    }
}

/// The bindings of a loop's names to their values.
pub open spec fn loop_binds(ns: Seq<Seq<char>>, vs: Seq<SVal>) -> Seq<(Seq<char>, SVal)> {
    Seq::new(ns.len(), |k: int| (ns[k], vs[k]))
}

/// A loop's body evaluated with its names bound to `vs` on top of `env`,
/// again for each `recur` (which must give one value per name); any other
/// value ends the loop. The bindings are gone after each round.
pub open spec fn pure_loop_iter(ns: Seq<Seq<char>>, vs: Seq<SVal>, body: SVal, env: Seq<(Seq<char>, SVal)>, g: nat)
    -> Option<(Result<SVal, Seq<char>>, nat, Seq<(Seq<char>, SVal)>)>
    decreases g, 2nat, 0int,
{
    match pure_eval(body, env + loop_binds(ns, vs), g) {
        None => None,
        Some((Ok(SVal::Recur(nv)), g1, _)) => if nv.len() != ns.len() {
            Some((Err("recur: expected "@ + nat_to_decimal(ns.len()) + " args, got "@ + nat_to_decimal(nv.len())), g1, env))
        } else if g1 < g {
            pure_loop_iter(ns, nv, body, env, g1)
        } else {
            None
        },
        Some((r, g1, _)) => Some((r, g1, env)),
    }
}

/// The message for a malformed `(loop for ...)`.
pub open spec fn loop_for_usage() -> Seq<char> {
    "loop for: expected (loop for VAR in LIST collect|sum|count EXPR)"@
}

/// The three ways `(loop for ...)` combines the values of its body.
pub open spec fn loop_for_mode(m: SVal) -> bool {
    m == SVal::Sym("collect"@) || m == SVal::Sym("sum"@) || m == SVal::Sym("count"@)
}

/// The sum of the numbers `vals[i..]` added to `acc`, each partial sum
/// within `i64`; an error for a value that is not a number.
pub open spec fn loop_for_sum(vals: Seq<SVal>, i: int, acc: int) -> Result<SVal, Seq<char>>
    decreases vals.len() - i,
{
    if i < 0 || i >= vals.len() {
        Ok(SVal::Num(acc))
    } else {
        match vals[i] {
            SVal::Num(n) => if i64::MIN <= acc + n <= i64::MAX {
                loop_for_sum(vals, i + 1, acc + n)
            } else {
                Err("integer overflow"@)
            },
            _ => Err("loop for: sum needs numbers"@),
        }
    }
}

/// How many of `vals[..k]` are true.
pub open spec fn loop_for_count(vals: Seq<SVal>, k: int) -> int
    decreases k,
{
    if k <= 0 || k > vals.len() {
        0
    } else {
        loop_for_count(vals, k - 1) + if truthy(vals[k - 1]) { 1int } else { 0int }
    }
}

/// What `(loop for ...)` answers for the values of its body: the list of
/// them (`collect`), their sum (`sum`) or how many are true (`count`);
/// a sum or count outside `i64` is an overflow.
pub open spec fn loop_for_result(mode: SVal, vals: Seq<SVal>) -> Result<SVal, Seq<char>> {
    if mode == SVal::Sym("collect"@) {
        Ok(SVal::List(vals))
    } else if mode == SVal::Sym("sum"@) {
        loop_for_sum(vals, 0, 0)
    } else if loop_for_count(vals, vals.len() as int) <= i64::MAX {
        Ok(SVal::Num(loop_for_count(vals, vals.len() as int)))
    } else {
        Err("integer overflow"@)
    }
}

/// The body evaluated once per item from position `i` on, each time with
/// the loop variable bound to the item on top of `outer` (the binding is
/// gone afterwards); `acc` holds the values so far. The first failure is
/// the answer.
pub open spec fn pure_for_items(var: Seq<char>, body: SVal, items: Seq<SVal>, i: int, outer: Seq<(Seq<char>, SVal)>,
    g: nat, acc: Seq<SVal>) -> Option<(Result<Seq<SVal>, Seq<char>>, nat)>
    decreases g, 2nat, items.len() - i,
{
    if i < 0 || i >= items.len() {
        Some((Ok(acc), g))
    } else {
        match pure_eval(body, outer.push((var, items[i])), g) {
            None => None,
            Some((Err(e), g1, _)) => Some((Err(e), g1)),
            Some((Ok(v), g1, _)) => if g1 <= g {
                pure_for_items(var, body, items, i + 1, outer, g1, acc.push(v))
            } else {
                None
            },
        }
    }
}

/// `(loop for VAR in LIST MODE EXPR)`: `LIST` is evaluated (`nil` counts as
/// the empty list), then `EXPR` once per item with `VAR` bound to it, and
/// the values are combined as `MODE` says (see `loop_for_result`). The
/// bindings afterwards are those after `LIST`.
pub open spec fn pure_loop_for(l: Seq<SVal>, env: Seq<(Seq<char>, SVal)>, g: nat) -> Option<PStep>
    decreases g, 3nat, 0int,
{
    if l.len() != 7 || !(l[2] is Sym) || l[3] != SVal::Sym("in"@) || !loop_for_mode(l[5]) {
        Some(PStep::Done(Err(loop_for_usage()), g, env))
    } else {
        match pure_eval(l[4], env, g) {
            None => None,
            Some((Err(e), g1, env1)) => Some(PStep::Done(Err(e), g1, env1)),
            Some((Ok(v), g1, env1)) => if g1 > g {
                None
            } else if v is List || v is Nil {
                let items = match v { SVal::List(xs) => xs, _ => Seq::empty() };
                match pure_for_items(l[2]->Sym_0, l[6], items, 0, env1, g1, Seq::empty()) {
                    None => None,
                    Some((Err(e), g2)) => Some(PStep::Done(Err(e), g2, env1)),
                    Some((Ok(vals), g2)) => Some(PStep::Done(loop_for_result(l[5], vals), g2, env1)),
                }
            } else {
                Some(PStep::Done(Err("loop for: expected a list"@), g1, env1))
            },
        }
    }
}

/// `(loop bindings body)`: the bindings are evaluated in order, then the
/// body as `pure_loop_iter` says.
pub open spec fn pure_loop(l: Seq<SVal>, env: Seq<(Seq<char>, SVal)>, g: nat) -> Option<PStep>
    decreases g, 4nat, 0int,
{
    if l.len() >= 2 && l[1] == SVal::Sym("for"@) {
        pure_loop_for(l, env, g)
    } else if l.len() < 2 || !(l[1] is List) {
        Some(PStep::Done(Err("loop: bindings must be list"@), g, env))
    } else if l.len() < 3 {
        Some(PStep::Done(Err("loop: need body"@), g, env))
    } else {
        let bs = l[1]->List_0;
        let pb = if pair_style(bs) {
            pure_loop_pairs(bs, 0, env, g, Seq::empty(), Seq::empty())
        } else if bs.len() % 2 != 0 {
            Some((Err("loop: flat bindings need even count"@), g, env))
        } else {
            pure_loop_flat(bs, 0, env, g, Seq::empty(), Seq::empty())
        };
        match pb {
            None => None,
            Some((Err(e), g1, env1)) => Some(PStep::Done(Err(e), g1, env1)),
            Some((Ok((ns, vs)), g1, env1)) => if g1 > g {
                None
            } else {
                match pure_loop_iter(ns, vs, l[2], env1, g1) {
                    None => None,
                    Some((r, g2, env2)) => Some(PStep::Done(r, g2, env2)),
                }
            },
        }
    }
}

/// The name under which `require` records that a module was loaded.
pub open spec fn module_marker(name: Seq<char>, prefix: Option<Seq<char>>) -> Seq<char> {
    "__stdlib_"@ + name + "__"@ + match prefix { Some(p) => p, None => Seq::empty() }
}

/// A module's bindings renamed `prefix/name`.
pub open spec fn prefixed(defs: Seq<(Seq<char>, SVal)>, p: Seq<char>) -> Seq<(Seq<char>, SVal)> {
    Seq::new(defs.len(), |i: int| (p + "/"@ + defs[i].0, defs[i].1))
}

/// Loading a module's text: read it, then evaluate its expressions in turn
/// on top of the bindings; with a prefix, in an empty environment whose
/// bindings are then added as `prefix/name`.
pub open spec fn pure_module(code: Seq<char>, prefix: Option<Seq<char>>, env: Seq<(Seq<char>, SVal)>, g: nat)
    -> Option<(Result<SVal, Seq<char>>, nat, Seq<(Seq<char>, SVal)>)>
    decreases g, 3nat, 0int,
{
    match parse_program(code) {
        Err(e) => Some((Err(e), g, env)),
        Ok(vs) => match prefix {
            None => pure_block(vs, 0, env, g, SVal::Nil),
            Some(p) => match pure_block(vs, 0, Seq::empty(), g, SVal::Nil) {
                None => None,
                Some((Err(e), g1, _)) => Some((Err(e), g1, env)),
                Some((Ok(v), g1, menv)) => Some((Ok(v), g1, env + prefixed(menv, p))),
            },
        },
    }
}

/// `(require "module" "prefix"?)`: a standard library module is loaded once
/// per name and prefix (see `pure_module`), and the marker
/// `module_marker` records it; a second `require` does nothing. Modules
/// saved in storage are outside the semantics (`None`).
pub open spec fn pure_require(l: Seq<SVal>, env: Seq<(Seq<char>, SVal)>, g: nat) -> Option<PStep>
    decreases g, 4nat, 0int,
{
    if l.len() < 2 || !(l[1] is Str) {
        Some(PStep::Done(Err("require: need string module name"@), g, env))
    } else if l.len() > 2 && !(l[2] is Str) {
        Some(PStep::Done(Err("require: prefix must be string"@), g, env))
    } else {
        let name = l[1]->Str_0;
        let prefix = if l.len() > 2 { Some(l[2]->Str_0) } else { None };
        let marker = module_marker(name, prefix);
        if lookup(env, marker) is Some {
            Some(PStep::Done(Ok(SVal::Nil), g, env))
        } else {
            match stdlib_code(name) {
                None => None,
                Some(code) => match pure_module(code@, prefix, env, g) {
                    None => None,
                    Some((Err(e), g1, env1)) => Some(PStep::Done(Err(e), g1, env1)),
                    Some((Ok(_), g1, env1)) => Some(PStep::Done(Ok(SVal::Nil), g1, env1.push((marker, SVal::Bool(true))))),
                },
            }
        }
    }
}

/// Evaluates an expression. Each step (the expression itself, and each
/// expression a tail position hands on) spends one unit of gas first;
/// with no gas left evaluation fails with `out of gas`.
pub fn lisp_eval(expr: &LispVal, env: &mut Env, gas: &mut u64) -> (r: Result<LispVal, String>)
    ensures
        kept(*old(gas), *final(gas), old(env)@, final(env)@),
        *old(gas) > 0 ==> *final(gas) < *old(gas),
        *old(gas) == 0 ==> (r matches Err(e) && e@ == "out of gas"@) && final(env)@ == old(env)@,
        atom(expr.sv()) && *old(gas) > 0 ==> (r matches Ok(v) && v.sv() == expr.sv()) && final(env)@ == old(env)@
            && *final(gas) == *old(gas) - 1,
        match expr.sv() {
            SVal::Sym(n) => *old(gas) > 0 ==> final(env)@ == old(env)@ && *final(gas) == *old(gas) - 1
                && match lookup(old(env)@, n) {
                    Some(v) => r matches Ok(x) && x.sv() == v,
                    None => if builtin_name(n) { r matches Ok(x) && x.sv() == expr.sv() } else { r matches Err(e) && e@ == "undefined: "@ + n },
                },
            _ => true,
        },
        pure_eval(expr.sv(), old(env)@, *old(gas) as nat) matches Some((pr, pg, pe))
            ==> res_sv(r) == pr && *final(gas) == pg && final(env)@ == pe,
        is_storage_call(expr.sv()) && *old(gas) > 0 ==> storage_call_agrees(list_items(expr.sv()), old(env)@,
            (*old(gas) - 1) as nat, res_sv(r), *final(gas) as nat, final(env)@),
        scoped_form(expr.sv()) ==> final(env)@ == old(env)@,
    decreases *old(gas), 0nat,
{
    let ghost g0 = *gas;
    let ghost e0 = env@;
    let ghost pe = pure_eval(expr.sv(), e0, g0 as nat);
    proof { lemma_prefix_refl(e0); }
    let mut current: LispVal = expr.deep_clone();
    let mut first = true;
    loop
        invariant
            kept(g0, *gas, e0, env@),
            g0 == *old(gas),
            e0 == old(env)@,
            first ==> *gas == g0 && env@ == e0 && current.sv() == expr.sv(),
            !first ==> *gas < g0 && !atom(expr.sv()) && !(expr.sv() is Sym) && !is_storage_call(expr.sv())
                && !scoped_form(expr.sv()),
            pe == pure_eval(expr.sv(), e0, g0 as nat),
            pe is Some ==> pure_eval(current.sv(), env@, *gas as nat) == pe,
        decreases *gas,
    {
        let ghost gb = *gas;
        match check_gas(gas) {
            Ok(()) => {},
            Err(e) => { return Err(e); },
        }
        let ghost was_first = first;
        first = false;
        let ghost e1 = env@;
        let step = eval_step(&current, env, gas);
        proof { lemma_prefix_trans(e0, e1, env@); }
        match step {
            Step::Done(r) => { return r; },
            Step::Tail(next) => { current = next; },
        }
    }
}

/// Expressions evaluated one after another in the semantics, from position
/// `i` on with `last` the value so far: the last value and the bindings
/// after, or the first failure; `None` when one of them is outside the
/// core.
pub open spec fn pure_run(vs: Seq<SVal>, i: int, env: Seq<(Seq<char>, SVal)>, gas: nat, last: SVal)
    -> Option<(Result<SVal, Seq<char>>, Seq<(Seq<char>, SVal)>)>
    decreases vs.len() - i,
{
    if i < 0 || i >= vs.len() {
        Some((Ok(last), env))
    } else {
        match pure_eval(vs[i], env, gas) {
            None => None,
            Some((Err(e), _, env1)) => Some((Err(e), env1)),
            Some((Ok(v), g, env1)) => pure_run(vs, i + 1, env1, g, v),
        }
    }
}

/// A step of the evaluator is the step of the semantics.
pub open spec fn step_agrees(s: Step, p: PStep, gas: u64, env: Seq<(Seq<char>, SVal)>) -> bool {
    match p {
        PStep::Done(r, g, e) => s matches Step::Done(x) && res_sv(x) == r && gas == g && env == e,
        PStep::Tail(n, g, e) => s matches Step::Tail(t) && t.sv() == n && gas == g && env == e,
    }
}

/// Values that evaluate to themselves.
pub open spec fn atom(v: SVal) -> bool {
    v is Nil || v is Bool || v is Num || v is Str || v is Lambda || v is Dict
}

/// What one evaluation step yields: a result, or the expression in tail
/// position to evaluate next.
pub enum Step {
    Done(Result<LispVal, String>),
    Tail(LispVal),
}

fn done_err(msg: &str) -> (s: Step)
    ensures
        s matches Step::Done(Err(e)) && e@ == msg@,
{
    Step::Done(Err(chars_to_string(&str_to_chars(msg))))
}

fn sym_named(v: &LispVal, name: &str) -> (r: bool)
    ensures
        r == (v.sv() == SVal::Sym(name@)),
{
    match v {
        LispVal::Sym(s) => str_eq(s.as_str(), name),
        _ => false,
    }
}

/// One step of evaluation, after its gas was spent.
fn eval_step(cur: &LispVal, env: &mut Env, gas: &mut u64) -> (s: Step)
    ensures
        kept(*old(gas), *final(gas), old(env)@, final(env)@),
        atom(cur.sv()) ==> (s matches Step::Done(Ok(v)) && v.sv() == cur.sv()) && final(env)@ == old(env)@
            && *final(gas) == *old(gas),
        match cur.sv() {
            SVal::Sym(n) => final(env)@ == old(env)@ && *final(gas) == *old(gas)
                && match lookup(old(env)@, n) {
                    Some(v) => s matches Step::Done(Ok(x)) && x.sv() == v,
                    None => if builtin_name(n) { s matches Step::Done(Ok(x)) && x.sv() == cur.sv() }
                        else { s matches Step::Done(Err(e)) && e@ == "undefined: "@ + n },
                },
            _ => true,
        },
        pure_step(cur.sv(), old(env)@, *old(gas) as nat) matches Some(p)
            ==> step_agrees(s, p, *final(gas), final(env)@),
        is_storage_call(cur.sv()) ==> (s matches Step::Done(x) && storage_call_agrees(list_items(cur.sv()), old(env)@,
            *old(gas) as nat, res_sv(x), *final(gas) as nat, final(env)@)),
        scoped_form(cur.sv()) ==> (s is Done && final(env)@ == old(env)@),
    decreases *old(gas), 10nat,
{
    proof { lemma_prefix_refl(env@); }
    match cur {
        LispVal::Nil | LispVal::Bool(_) | LispVal::Num(_) | LispVal::Str(_) | LispVal::Lambda { .. } | LispVal::Dict(_) => {
            Step::Done(Ok(cur.deep_clone()))
        },
        LispVal::Recur(_) => done_err("recur outside loop"),
        LispVal::Sym(name) => {
            match env.get(name.as_str()) {
                Some(v) => { return Step::Done(Ok(v.deep_clone())); },
                None => {},
            }
            if is_builtin_name(name.as_str()) {
                return Step::Done(Ok(cur.deep_clone()));
            }
            Step::Done(Err(name_msg("undefined: ", name.as_str())))
        },
        LispVal::List(list) => {
            if list.len() == 0 {
                return Step::Done(Ok(LispVal::Nil));
            }
            match &list[0] {
                LispVal::Sym(head) => {
                    proof { assert(vals_view(list@)[0] == list@[0].sv()); }
                    eval_form(head.as_str(), list, env, gas)
                },
                _ => {
                    proof { assert(vals_view(list@)[0] == list@[0].sv()); }
                    Step::Done(dispatch_call(list, env, gas))
                },
            }
        },
    }
}

// ---------------------------------------------------------------------------
// Special forms
// ---------------------------------------------------------------------------

/// Evaluates a list headed by a symbol: a special form, or a call.
fn eval_form(head: &str, list: &Vec<LispVal>, env: &mut Env, gas: &mut u64) -> (s: Step)
    requires
        list@.len() > 0,
        vals_view(list@)[0] == SVal::Sym(head@),
    ensures
        kept(*old(gas), *final(gas), old(env)@, final(env)@),
        pure_step(SVal::List(vals_view(list@)), old(env)@, *old(gas) as nat) matches Some(p)
            ==> step_agrees(s, p, *final(gas), final(env)@),
        storage_op(head@) ==> (s matches Step::Done(x) && storage_call_agrees(vals_view(list@), old(env)@,
            *old(gas) as nat, res_sv(x), *final(gas) as nat, final(env)@)),
        scoped_form(SVal::List(vals_view(list@))) ==> (s is Done && final(env)@ == old(env)@),
    decreases *old(gas), 9nat,
{
    proof {
        if storage_op(head@) { lemma_storage_not_special(head@); }
        lemma_prefix_refl(env@);
        assert(forall|k: int| 0 <= k < list@.len() ==> #[trigger] vals_view(list@)[k] == list@[k].sv());
        reveal_strlit("quote");
        reveal_strlit("define");
        reveal_strlit("if");
        reveal_strlit("cond");
        reveal_strlit("let");
        reveal_strlit("lambda");
        reveal_strlit("progn");
        reveal_strlit("begin");
        reveal_strlit("and");
        reveal_strlit("or");
        reveal_strlit("not");
        reveal_strlit("try");
        reveal_strlit("match");
        reveal_strlit("loop");
        reveal_strlit("recur");
        reveal_strlit("near/ccall-result");
        reveal_strlit("near/batch-result");
        reveal_strlit("near/ccall-count");
        reveal_strlit("near/block-height");
        reveal_strlit("near/predecessor");
        reveal_strlit("near/signer");
        reveal_strlit("near/timestamp");
        reveal_strlit("near/account-balance");
        reveal_strlit("near/attached-deposit");
        reveal_strlit("near/account-locked-balance");
        reveal_strlit("near/log");
        reveal_strlit("require");
        assert("quote"@[0] == 'q');
        assert("define"@[0] == 'd');
        assert("if"@[0] == 'i');
        assert("cond"@[0] == 'c');
        assert("let"@[0] == 'l');
        assert("lambda"@[0] == 'l');
        assert("progn"@[0] == 'p');
        assert("begin"@[0] == 'b');
        assert("and"@[0] == 'a');
        assert("or"@[0] == 'o');
        assert("not"@[0] == 'n');
        assert("try"@[0] == 't');
        assert("match"@[0] == 'm');
        assert("loop"@[0] == 'l');
        assert("recur"@[0] == 'r');
        assert("near/ccall-result"@[0] == 'n');
        assert("near/batch-result"@[0] == 'n');
        assert("near/ccall-count"@[0] == 'n');
        assert("near/block-height"@[0] == 'n');
        assert("near/predecessor"@[0] == 'n');
        assert("near/signer"@[0] == 'n');
        assert("near/timestamp"@[0] == 'n');
        assert("near/account-balance"@[0] == 'n');
        assert("near/attached-deposit"@[0] == 'n');
        assert("near/account-locked-balance"@[0] == 'n');
        assert("near/log"@[0] == 'n');
        assert("require"@[0] == 'r');
    }
    if str_eq(head, "quote") {
        let v = if list.len() > 1 { list[1].deep_clone() } else { LispVal::Nil };
        proof { if list.len() > 1 { assert(v.sv() == vals_view(list@)[1]); } }
        return Step::Done(Ok(v));
    } else if str_eq(head, "define") {
        proof { assert(pure_step(SVal::List(vals_view(list@)), env@, *gas as nat) == pure_define(vals_view(list@), env@, *gas as nat)); }
        return Step::Done(eval_define(list, env, gas));
    } else if str_eq(head, "if") {
        if list.len() < 2 {
            return done_err("if: need cond");
        }
        let c = match lisp_eval(&list[1], env, gas) {
            Ok(c) => c,
            Err(e) => { return Step::Done(Err(e)); },
        };
        if is_truthy(&c) {
            if list.len() < 3 {
                return done_err("if: need then");
            }
            let t = list[2].deep_clone();
            proof { assert(t.sv() == vals_view(list@)[2]); }
            return Step::Tail(t);
        } else {
            let t = if list.len() > 3 { list[3].deep_clone() } else { LispVal::Nil };
            proof { if list.len() > 3 { assert(t.sv() == vals_view(list@)[3]); } }
            return Step::Tail(t);
        }
    } else if str_eq(head, "cond") {
        proof { assert(pure_step(SVal::List(vals_view(list@)), env@, *gas as nat) == pure_cond(vals_view(list@), 1, env@, *gas as nat)); }
        return eval_cond(list, env, gas);
    } else if str_eq(head, "let") {
        proof { assert(pure_step(SVal::List(vals_view(list@)), env@, *gas as nat) == pure_let_form(vals_view(list@), env@, *gas as nat)); }
        return Step::Done(eval_let(list, env, gas));
    } else if str_eq(head, "lambda") {
        proof { assert(pure_step(SVal::List(vals_view(list@)), env@, *gas as nat) == Some(PStep::Done(lambda_value(vals_view(list@), env@), *gas as nat, env@))); }
        return Step::Done(eval_lambda(list, env));
    } else if str_eq(head, "progn") || str_eq(head, "begin") || str_eq(head, "and") || str_eq(head, "or") {
        let mode: u8 = if str_eq(head, "and") { 1 } else if str_eq(head, "or") { 2 } else { 0 };
        if list.len() == 1 {
            return Step::Done(Ok(if mode == 0 { LispVal::Nil } else if mode == 1 { LispVal::Bool(true) } else { LispVal::Bool(false) }));
        }
        let ghost g0 = *gas;
        let ghost e0 = env@;
        let ghost lv = vals_view(list@);
        let ghost md: int = mode as int;
        let ghost ps = pure_seq(lv, 1, e0, g0 as nat, md);
        assert(pure_step(SVal::List(lv), e0, g0 as nat) == ps);
        let mut i: usize = 1;
        while i + 1 < list.len()
            invariant
                1 <= i < list@.len(),
                !storage_op(head@),
                !scoped_form(SVal::List(vals_view(list@))),
                kept(g0, *gas, e0, env@),
                g0 == *old(gas),
                e0 == old(env)@,
                lv == vals_view(list@),
                md == mode as int,
                ps == pure_seq(lv, 1, e0, g0 as nat, md),
                pure_step(SVal::List(lv), e0, g0 as nat) == ps,
                ps is Some ==> pure_seq(lv, i as int, env@, *gas as nat, md) == ps,
            decreases list.len() - i,
        {
            let ghost e1 = env@;
            proof { assert(lv[i as int] == list@[i as int].sv()); }
            let v = match lisp_eval(&list[i], env, gas) {
                Ok(v) => v,
                Err(e) => { proof { lemma_prefix_trans(e0, e1, env@); } return Step::Done(Err(e)); },
            };
            proof { lemma_prefix_trans(e0, e1, env@); }
            if (mode == 1 && !is_truthy(&v)) || (mode == 2 && is_truthy(&v)) {
                return Step::Done(Ok(v));
            }
            i += 1;
        }
        proof {
            assert(lv[list.len() - 1] == list@[list.len() - 1].sv());
            assert(ps is Some ==> ps == Some(PStep::Tail(lv[list.len() - 1], *gas as nat, env@)));
        }
        return Step::Tail(list[list.len() - 1].deep_clone());
    } else if str_eq(head, "not") {
        if list.len() < 2 {
            return done_err("not: need arg");
        }
        match lisp_eval(&list[1], env, gas) {
            Ok(v) => { return Step::Done(Ok(LispVal::Bool(!is_truthy(&v)))); },
            Err(e) => { return Step::Done(Err(e)); },
        }
    } else {
        eval_form_rest(head, list, env, gas)
    }
}

/// The special forms from `try` on, and calls.
#[verifier::rlimit(40)]
fn eval_form_rest(head: &str, list: &Vec<LispVal>, env: &mut Env, gas: &mut u64) -> (s: Step)
    requires
        list@.len() > 0,
        vals_view(list@)[0] == SVal::Sym(head@),
        head@ != "quote"@ && head@ != "define"@ && head@ != "if"@ && head@ != "cond"@ && head@ != "let"@
            && head@ != "lambda"@ && head@ != "progn"@ && head@ != "begin"@ && head@ != "and"@ && head@ != "or"@
            && head@ != "not"@,
    ensures
        kept(*old(gas), *final(gas), old(env)@, final(env)@),
        pure_step(SVal::List(vals_view(list@)), old(env)@, *old(gas) as nat) matches Some(p)
            ==> step_agrees(s, p, *final(gas), final(env)@),
        storage_op(head@) ==> (s matches Step::Done(x) && storage_call_agrees(vals_view(list@), old(env)@,
            *old(gas) as nat, res_sv(x), *final(gas) as nat, final(env)@)),
        scoped_form(SVal::List(vals_view(list@))) ==> (s is Done && final(env)@ == old(env)@),
    decreases *old(gas), 8nat,
{
    proof {
        if storage_op(head@) { lemma_storage_not_special(head@); }
        lemma_prefix_refl(env@);
        assert(forall|k: int| 0 <= k < list@.len() ==> #[trigger] vals_view(list@)[k] == list@[k].sv());
        reveal_strlit("quote");
        reveal_strlit("define");
        reveal_strlit("if");
        reveal_strlit("cond");
        reveal_strlit("let");
        reveal_strlit("lambda");
        reveal_strlit("progn");
        reveal_strlit("begin");
        reveal_strlit("and");
        reveal_strlit("or");
        reveal_strlit("not");
        reveal_strlit("try");
        reveal_strlit("match");
        reveal_strlit("loop");
        reveal_strlit("recur");
        reveal_strlit("near/ccall-result");
        reveal_strlit("near/batch-result");
        reveal_strlit("near/ccall-count");
        reveal_strlit("near/block-height");
        reveal_strlit("near/predecessor");
        reveal_strlit("near/signer");
        reveal_strlit("near/timestamp");
        reveal_strlit("near/account-balance");
        reveal_strlit("near/attached-deposit");
        reveal_strlit("near/account-locked-balance");
        reveal_strlit("near/log");
        reveal_strlit("require");
        assert("quote"@[0] == 'q');
        assert("define"@[0] == 'd');
        assert("if"@[0] == 'i');
        assert("cond"@[0] == 'c');
        assert("let"@[0] == 'l');
        assert("lambda"@[0] == 'l');
        assert("progn"@[0] == 'p');
        assert("begin"@[0] == 'b');
        assert("and"@[0] == 'a');
        assert("or"@[0] == 'o');
        assert("not"@[0] == 'n');
        assert("try"@[0] == 't');
        assert("match"@[0] == 'm');
        assert("loop"@[0] == 'l');
        assert("recur"@[0] == 'r');
        assert("near/ccall-result"@[0] == 'n');
        assert("near/batch-result"@[0] == 'n');
        assert("near/ccall-count"@[0] == 'n');
        assert("near/block-height"@[0] == 'n');
        assert("near/predecessor"@[0] == 'n');
        assert("near/signer"@[0] == 'n');
        assert("near/timestamp"@[0] == 'n');
        assert("near/account-balance"@[0] == 'n');
        assert("near/attached-deposit"@[0] == 'n');
        assert("near/account-locked-balance"@[0] == 'n');
        assert("near/log"@[0] == 'n');
        assert("require"@[0] == 'r');
    }
    if str_eq(head, "try") {
        proof { assert(pure_step(SVal::List(vals_view(list@)), env@, *gas as nat) == pure_try(vals_view(list@), env@, *gas as nat)); }
        Step::Done(eval_try(list, env, gas))
    } else if str_eq(head, "match") {
        proof { assert(pure_step(SVal::List(vals_view(list@)), env@, *gas as nat) == pure_match(vals_view(list@), env@, *gas as nat)); }
        Step::Done(eval_match(list, env, gas))
    } else if str_eq(head, "loop") {
        proof { assert(pure_step(SVal::List(vals_view(list@)), env@, *gas as nat) == pure_loop(vals_view(list@), env@, *gas as nat)); }
        Step::Done(eval_loop(list, env, gas))
    } else if str_eq(head, "recur") {
        let ghost g0 = *gas;
        let ghost e0 = env@;
        let ghost lv = vals_view(list@);
        let ghost pa = pure_args(lv, 1, e0, g0 as nat, Seq::empty());
        proof {
            assert(pure_step(SVal::List(lv), e0, g0 as nat) == match pa {
                None => None,
                Some((Err(e1), g1, env1)) => Some(PStep::Done(Err(e1), g1, env1)),
                Some((Ok(vals), g1, env1)) => Some(PStep::Done(Ok(SVal::Recur(vals)), g1, env1)),
            });
        }
        let mut vals: Vec<LispVal> = Vec::new();
        assert(vals_view(vals@) =~= Seq::<SVal>::empty());
        let mut i: usize = 1;
        while i < list.len()
            invariant
                1 <= i <= list@.len(),
                kept(g0, *gas, e0, env@),
                g0 == *old(gas),
                e0 == old(env)@,
                lv == vals_view(list@),
                pa == pure_args(lv, 1, e0, g0 as nat, Seq::empty()),
                pa is Some ==> pure_args(lv, i as int, env@, *gas as nat, vals_view(vals@)) == pa,
                pure_step(SVal::List(lv), e0, g0 as nat) == match pa {
                    None => None,
                    Some((Err(e1), g1, env1)) => Some(PStep::Done(Err(e1), g1, env1)),
                    Some((Ok(vals), g1, env1)) => Some(PStep::Done(Ok(SVal::Recur(vals)), g1, env1)),
                },
                !scoped_form(SVal::List(lv)),
            decreases list.len() - i,
        {
            let ghost e1 = env@;
            let ghost acc = vals_view(vals@);
            proof { assert(lv[i as int] == list@[i as int].sv()); }
            match lisp_eval(&list[i], env, gas) {
                Ok(v) => {
                    let ghost vs = v.sv();
                    vals.push(v);
                    proof { assert(vals_view(vals@) =~= acc.push(vs)); }
                },
                Err(e) => { proof { lemma_prefix_trans(e0, e1, env@); } return Step::Done(Err(e)); },
            }
            proof { lemma_prefix_trans(e0, e1, env@); }
            i += 1;
        }
        Step::Done(Ok(LispVal::Recur(vals)))
    } else if str_eq(head, "near/ccall-result") {
        match env.get("__ccall_result__") {
            Some(v) => Step::Done(Ok(v.deep_clone())),
            None => done_err("near/ccall-result: no pending result"),
        }
    } else if str_eq(head, "near/batch-result") {
        match env.get("__ccall_results__") {
            Some(v) => Step::Done(Ok(v.deep_clone())),
            None => done_err("near/batch-result: no results yet"),
        }
    } else if str_eq(head, "near/ccall-count") {
        match env.get("__ccall_results__") {
            Some(LispVal::List(vals)) => Step::Done(Ok(LispVal::Num(vals.len() as i64))),
            _ => Step::Done(Ok(LispVal::Num(0))),
        }
    } else if str_eq(head, "near/block-height") {
        proof { assert(pure_step(SVal::List(vals_view(list@)), env@, *gas as nat) is None); }
        Step::Done(Ok(LispVal::Num(near::block_height() as i64)))
    } else if str_eq(head, "near/predecessor") {
        proof { assert(pure_step(SVal::List(vals_view(list@)), env@, *gas as nat) is None); }
        Step::Done(Ok(LispVal::Str(near::predecessor_account_id())))
    } else if str_eq(head, "near/signer") {
        proof { assert(pure_step(SVal::List(vals_view(list@)), env@, *gas as nat) is None); }
        Step::Done(Ok(LispVal::Str(near::signer_account_id())))
    } else if str_eq(head, "near/timestamp") {
        proof { assert(pure_step(SVal::List(vals_view(list@)), env@, *gas as nat) is None); }
        Step::Done(Ok(LispVal::Num(near::block_timestamp() as i64)))
    } else if str_eq(head, "near/account-balance") {
        proof { assert(pure_step(SVal::List(vals_view(list@)), env@, *gas as nat) is None); }
        Step::Done(Ok(LispVal::Str(u128_to_string(near::account_balance()))))
    } else if str_eq(head, "near/attached-deposit") {
        proof { assert(pure_step(SVal::List(vals_view(list@)), env@, *gas as nat) is None); }
        Step::Done(Ok(LispVal::Str(u128_to_string(near::attached_deposit()))))
    } else if str_eq(head, "near/account-locked-balance") {
        proof { assert(pure_step(SVal::List(vals_view(list@)), env@, *gas as nat) is None); }
        Step::Done(Ok(LispVal::Str(u128_to_string(near::account_locked_balance()))))
    } else if str_eq(head, "near/log") {
        if list.len() < 2 {
            return done_err("near/log: need arg");
        }
        match lisp_eval(&list[1], env, gas) {
            Ok(v) => {
                let message = v.to_lisp_string();
                env.log_line(message.as_str());
                Step::Done(Ok(LispVal::Nil))
            },
            Err(e) => Step::Done(Err(e)),
        }
    } else if str_eq(head, "require") {
        proof { assert(pure_step(SVal::List(vals_view(list@)), env@, *gas as nat) == pure_require(vals_view(list@), env@, *gas as nat)); }
        Step::Done(eval_require(list, env, gas))
    } else {
        proof { assert(pure_step(SVal::List(vals_view(list@)), env@, *gas as nat) == pure_call(vals_view(list@), env@, *gas as nat)); }
        let r = dispatch_call(list, env, gas);
        return Step::Done(r);
    }
}

/// `(define name expr)`: binds `name` to the value of `expr` (or `nil`).
fn eval_define(list: &Vec<LispVal>, env: &mut Env, gas: &mut u64) -> (r: Result<LispVal, String>)
    ensures
        kept(*old(gas), *final(gas), old(env)@, final(env)@),
        pure_define(vals_view(list@), old(env)@, *old(gas) as nat) matches Some(PStep::Done(pr, pg, pe))
            ==> res_sv(r) == pr && *final(gas) == pg && final(env)@ == pe,
    decreases *old(gas), 7nat,
{
    proof {
        lemma_prefix_refl(env@);
        assert(forall|k: int| 0 <= k < list@.len() ==> #[trigger] vals_view(list@)[k] == list@[k].sv());
    }
    if list.len() < 2 {
        return Err(String::from_str("define: need symbol"));
    }
    let var = match &list[1] {
        LispVal::Sym(s) => s.clone(),
        _ => { return Err(String::from_str("define: need symbol")); },
    };
    let val = if list.len() > 2 {
        match lisp_eval(&list[2], env, gas) {
            Ok(v) => v,
            Err(e) => { return Err(e); },
        }
    } else {
        LispVal::Nil
    };
    let ghost before = env@;
    push_binding(env, var, val);
    proof { lemma_prefix_trans(old(env)@, before, env@); }
    Ok(LispVal::Nil)
}

/// `(cond (test expr) ... (else expr))`: the first clause whose test holds
/// hands its expression on (the test's value when it has none).
fn eval_cond(list: &Vec<LispVal>, env: &mut Env, gas: &mut u64) -> (s: Step)
    requires
        list@.len() > 0,
    ensures
        kept(*old(gas), *final(gas), old(env)@, final(env)@),
        pure_cond(vals_view(list@), 1, old(env)@, *old(gas) as nat) matches Some(p)
            ==> step_agrees(s, p, *final(gas), final(env)@),
    decreases *old(gas), 7nat,
{
    let ghost g0 = *gas;
    let ghost e0 = env@;
    let ghost lv = vals_view(list@);
    let ghost pc = pure_cond(lv, 1, e0, g0 as nat);
    proof { lemma_prefix_refl(e0); reveal_strlit("else"); }
    let mut i: usize = 1;
    while i < list.len()
        invariant
            1 <= i <= list@.len(),
            kept(g0, *gas, e0, env@),
            g0 == *old(gas),
            e0 == old(env)@,
            lv == vals_view(list@),
            pc == pure_cond(lv, 1, e0, g0 as nat),
            pc is Some ==> pure_cond(lv, i as int, env@, *gas as nat) == pc,
        decreases list.len() - i,
    {
        proof { assert(lv[i as int] == list@[i as int].sv()); }
        match &list[i] {
            LispVal::List(parts) => {
                proof { assert(forall|k: int| 0 <= k < parts@.len() ==> #[trigger] vals_view(parts@)[k] == parts@[k].sv()); }
                if parts.len() > 0 {
                    if sym_named(&parts[0], "else") {
                        if parts.len() > 1 {
                            return Step::Tail(parts[1].deep_clone());
                        }
                        return Step::Done(Ok(LispVal::Nil));
                    }
                    let ghost e1 = env@;
                    let test = match lisp_eval(&parts[0], env, gas) {
                        Ok(t) => t,
                        Err(e) => { proof { lemma_prefix_trans(e0, e1, env@); } return Step::Done(Err(e)); },
                    };
                    proof { lemma_prefix_trans(e0, e1, env@); }
                    if is_truthy(&test) {
                        return Step::Tail(if parts.len() > 1 { parts[1].deep_clone() } else { test });
                    }
                }
            },
            _ => {},
        }
        i += 1;
    }
    Step::Done(Ok(LispVal::Nil))
}

/// `(let ((name expr) ...) body)`: evaluates the bindings in order, each
/// seeing the ones before; the body sees them all; afterwards they are gone.
fn eval_let(list: &Vec<LispVal>, env: &mut Env, gas: &mut u64) -> (r: Result<LispVal, String>)
    ensures
        kept(*old(gas), *final(gas), old(env)@, final(env)@),
        list@.len() > 1 && list@[1] is List ==> final(env)@ == old(env)@,
        pure_let_form(vals_view(list@), old(env)@, *old(gas) as nat) matches Some(p)
            ==> step_agrees(Step::Done(r), p, *final(gas), final(env)@),
    decreases *old(gas), 7nat,
{
    proof {
        lemma_prefix_refl(env@);
        assert(forall|k: int| 0 <= k < list@.len() ==> #[trigger] vals_view(list@)[k] == list@[k].sv());
    }
    let bindings = if list.len() > 1 {
        match &list[1] {
            LispVal::List(b) => b,
            _ => { return Err(String::from_str("let: bindings must be list")); },
        }
    } else {
        return Err(String::from_str("let: bindings must be list"));
    };
    let ghost g0 = *gas;
    let ghost e0 = env@;
    let ghost lv = vals_view(list@);
    let ghost bs = vals_view(bindings@);
    let ghost pl = pure_let(lv, bs, 0, e0, e0, g0 as nat);
    assert(lv[1] == SVal::List(bs));
    assert(pure_let_form(lv, e0, g0 as nat) == pl);
    let base = env.len();
    let mut i: usize = 0;
    while i < bindings.len()
        invariant
            i <= bindings@.len(),
            kept(g0, *gas, e0, env@),
            g0 == *old(gas),
            e0 == old(env)@,
            base == e0.len(),
            lv == vals_view(list@),
            bs == vals_view(bindings@),
            pl == pure_let(lv, bs, 0, e0, e0, g0 as nat),
            pure_let_form(lv, e0, g0 as nat) == pl,
            pl is Some ==> pure_let(lv, bs, i as int, env@, e0, *gas as nat) == pl,
        decreases bindings.len() - i,
    {
        proof { assert(bs[i as int] == bindings@[i as int].sv()); }
        match &bindings[i] {
            LispVal::List(pair) => {
                proof { assert(forall|k: int| 0 <= k < pair@.len() ==> #[trigger] vals_view(pair@)[k] == pair@[k].sv()); }
                if pair.len() == 2 {
                    match &pair[0] {
                        LispVal::Sym(name) => {
                            let ghost e1 = env@;
                            let val = match lisp_eval(&pair[1], env, gas) {
                                Ok(v) => v,
                                Err(e) => {
                                    proof { lemma_prefix_trans(e0, e1, env@); }
                                    restore(env, base, Ghost(e0));
                                    proof { lemma_prefix_refl(env@); }
                                    return Err(e);
                                },
                            };
                            proof { lemma_prefix_trans(e0, e1, env@); }
                            let ghost e2 = env@;
                            push_binding(env, name.clone(), val);
                            proof { lemma_prefix_trans(e0, e2, env@); }
                        },
                        _ => {},
                    }
                }
            },
            _ => {},
        }
        i += 1;
    }
    let ghost e3 = env@;
    proof { lemma_prefix_refl(e3); }
    let result = if list.len() > 2 { lisp_eval(&list[2], env, gas) } else { Ok(LispVal::Nil) };
    proof { lemma_prefix_trans(e0, e3, env@); }
    restore(env, base, Ghost(e0));
    proof { lemma_prefix_refl(env@); }
    result
}

/// `(lambda params body)`: a closure over a copy of the current bindings.
fn eval_lambda(list: &Vec<LispVal>, env: &Env) -> (r: Result<LispVal, String>)
    ensures
        res_sv(r) == lambda_value(vals_view(list@), env@),
        list@.len() >= 3 ==> match params_of(list@[1].sv()) {
            Ok((p, rp)) => r matches Ok(v) && v.sv() == (SVal::Lambda {
                params: p, rest_param: rp, body: Box::new(list@[2].sv()), closed_env: env@ }),
            Err(m) => r matches Err(e) && e@ == m,
        },
{
    if list.len() < 2 {
        return Err(String::from_str("lambda: need params"));
    }
    let (params, rest_param) = match parse_params(&list[1]) {
        Ok(p) => p,
        Err(e) => { return Err(e); },
    };
    if list.len() < 3 {
        return Err(String::from_str("lambda: need body"));
    }
    let closed = env.deep_clone().into_bindings();
    let v = LispVal::Lambda {
        params,
        rest_param,
        body: Box::new(list[2].deep_clone()),
        closed_env: Box::new(closed),
    };
    Ok(v)
}

/// `(try expr (catch var body ...))`: the value of `expr`, or, when it
/// fails, the value of the last body expression with `var` bound to the
/// error message (`nil` without a body).
fn eval_try(list: &Vec<LispVal>, env: &mut Env, gas: &mut u64) -> (r: Result<LispVal, String>)
    ensures
        kept(*old(gas), *final(gas), old(env)@, final(env)@),
        pure_try(vals_view(list@), old(env)@, *old(gas) as nat) matches Some(p)
            ==> step_agrees(Step::Done(r), p, *final(gas), final(env)@),
        list@.len() > 1 && (atom(list@[1].sv()) || list@[1].sv() is Sym) ==> final(env)@ == old(env)@,
    decreases *old(gas), 7nat,
{
    proof {
        lemma_prefix_refl(env@);
        assert(forall|k: int| 0 <= k < list@.len() ==> #[trigger] vals_view(list@)[k] == list@[k].sv());
    }
    let ghost lv = vals_view(list@);
    let ghost g0 = *gas;
    if list.len() < 2 {
        return Err(String::from_str("try: need expression"));
    }
    let ghost e0 = env@;
    let msg = match lisp_eval(&list[1], env, gas) {
        Ok(v) => { return Ok(v); },
        Err(m) => m,
    };
    let ghost e1 = env@;
    let ghost g1 = *gas;
    if list.len() < 3 {
        return Err(String::from_str("try: need catch clause"));
    }
    let clause = match &list[2] {
        LispVal::List(c) => c,
        _ => { return Err(String::from_str("try: catch clause must be a list")); },
    };
    let ghost cv = vals_view(clause@);
    proof {
        assert(lv[2] == SVal::List(cv));
        assert(forall|k: int| 0 <= k < clause@.len() ==> #[trigger] cv[k] == clause@[k].sv());
    }
    if clause.len() == 0 || !sym_named(&clause[0], "catch") {
        return Err(String::from_str("try: second arg must be (catch var body...)"));
    }
    let var = if clause.len() > 1 {
        match &clause[1] {
            LispVal::Sym(s) => s.clone(),
            _ => { return Err(String::from_str("try: catch needs a variable name")); },
        }
    } else {
        return Err(String::from_str("try: catch needs a variable name"));
    };
    let base = env.len();
    let ghost mv = msg@;
    push_binding(env, var, LispVal::Str(msg));
    proof { lemma_prefix_trans(e0, e1, env@); }
    let ghost e2 = env@;
    proof { lemma_prefix_refl(e2); }
    let ghost g2 = *gas;
    let ghost pb = pure_block(cv, 2, e2, g2 as nat, SVal::Nil);
    proof {
        assert(e2 == e1.push((cv[1]->Sym_0, SVal::Str(mv))));
        if pure_try(lv, e0, g0 as nat) is Some {
            assert(pure_eval(lv[1], e0, g0 as nat) == Some((Err::<SVal, Seq<char>>(mv), g1 as nat, e1)));
            assert(pb is Some);
        }
    }
    let ghost pt = pure_try(lv, e0, g0 as nat);
    assert(pt is Some ==> pt == match pb {
        Some((Err(e), g3, _)) => Some(PStep::Done(Err(e), g3, e1)),
        Some((Ok(v), g3, _)) => Some(PStep::Done(Ok(v), g3, e1)),
        None => None,
    });
    let mut r = LispVal::Nil;
    let mut i: usize = 2;
    while i < clause.len()
        invariant
            2 <= i <= clause@.len(),
            kept(g2, *gas, e2, env@),
            g2 == g1,
            g1 <= g0,
            g0 == *old(gas),
            env_prefix(e0, e2),
            e0 == old(env)@,
            e1 == e2.drop_last(),
            e2.len() == base + 1,
            env_prefix(e0, e1),
            cv == vals_view(clause@),
            pb == pure_block(cv, 2, e2, g2 as nat, SVal::Nil),
            pb is Some ==> pure_block(cv, i as int, env@, *gas as nat, r.sv()) == pb,
            pt == pure_try(vals_view(list@), old(env)@, *old(gas) as nat),
            list@.len() > 1 && (atom(list@[1].sv()) || list@[1].sv() is Sym) ==> e1 == e0,
            pt is Some ==> pb is Some && pt == match pb {
                Some((Err(e), g3, _)) => Some(PStep::Done(Err(e), g3, e1)),
                Some((Ok(v), g3, _)) => Some(PStep::Done(Ok(v), g3, e1)),
                None => None,
            },
        decreases clause.len() - i,
    {
        let ghost e3 = env@;
        proof { assert(cv[i as int] == clause@[i as int].sv()); }
        r = match lisp_eval(&clause[i], env, gas) {
            Ok(v) => v,
            Err(e) => {
                proof {
                    lemma_prefix_trans(e2, e3, env@);
                    lemma_prefix_trans(e0, e2, env@);
                    if pb is Some {
                        assert(pb == Some((Err::<SVal, Seq<char>>(e@), *gas as nat, env@)));
                    }
                    assert(env_prefix(e2, env@));
                    assert(env@.take(base as int) =~= env@.take(e2.len() as int).take(base as int));
                    assert(e2.take(base as int) =~= e1);
                    assert(env_prefix(e1, env@));
                }
                restore(env, base, Ghost(e1));
                return Err(e);
            },
        };
        proof { lemma_prefix_trans(e2, e3, env@); }
        i += 1;
    }
    proof {
        assert(e1.len() == base);
        assert(env@.take(base as int) =~= e2.take(e2.len() as int).take(base as int));
        assert(env_prefix(e1, env@));
    }
    restore(env, base, Ghost(e1));
    Ok(r)
}

/// `(match expr (pattern body) ...)`: the body of the first clause whose
/// pattern matches (see `match_pattern`), with the pattern's bindings;
/// `nil` when none matches.
fn eval_match(list: &Vec<LispVal>, env: &mut Env, gas: &mut u64) -> (r: Result<LispVal, String>)
    ensures
        kept(*old(gas), *final(gas), old(env)@, final(env)@),
        pure_match(vals_view(list@), old(env)@, *old(gas) as nat) matches Some(p)
            ==> step_agrees(Step::Done(r), p, *final(gas), final(env)@),
        list@.len() > 1 && (atom(list@[1].sv()) || list@[1].sv() is Sym) ==> final(env)@ == old(env)@,
    decreases *old(gas), 7nat,
{
    proof {
        lemma_prefix_refl(env@);
        assert(forall|k: int| 0 <= k < list@.len() ==> #[trigger] vals_view(list@)[k] == list@[k].sv());
    }
    let ghost lv = vals_view(list@);
    let ghost g0 = *gas;
    if list.len() < 2 {
        return Err(String::from_str("match: need expr"));
    }
    let ghost e0 = env@;
    let val = match lisp_eval(&list[1], env, gas) {
        Ok(v) => v,
        Err(e) => { return Err(e); },
    };
    let ghost e1 = env@;
    let ghost g1 = *gas;
    let ghost pm = pure_match(lv, e0, g0 as nat);
    proof {
        if pm is Some {
            assert(pure_eval(lv[1], e0, g0 as nat) == Some((Ok::<SVal, Seq<char>>(val.sv()), g1 as nat, e1)));
        }
    }
    let mut i: usize = 2;
    while i < list.len()
        invariant
            2 <= i <= list@.len(),
            env@ == e1,
            *gas == g1,
            g1 <= *old(gas),
            g0 == *old(gas),
            e0 == old(env)@,
            env_prefix(old(env)@, e1),
            lv == vals_view(list@),
            pm == pure_match(lv, e0, g0 as nat),
            pm is Some ==> pure_match_from(lv, i as int, val.sv(), e1, g1 as nat) == pm,
            list@.len() > 1 && (atom(list@[1].sv()) || list@[1].sv() is Sym) ==> e1 == e0,
        decreases list.len() - i,
    {
        proof { assert(lv[i as int] == list@[i as int].sv()); }
        match &list[i] {
            LispVal::List(parts) => {
                proof { assert(forall|k: int| 0 <= k < parts@.len() ==> #[trigger] vals_view(parts@)[k] == parts@[k].sv()); }
                if parts.len() >= 2 {
                    match match_pattern(&parts[0], &val) {
                        Some(bindings) => {
                            let ghost bv = binds_view(bindings@);
                            let base = env.len();
                            proof { lemma_prefix_refl(e1); }
                            let mut k: usize = 0;
                            while k < bindings.len()
                                invariant
                                    k <= bindings@.len(),
                                    env_prefix(e1, env@),
                                    e1.len() == base,
                                    bv == binds_view(bindings@),
                                    env@ == e1 + bv.take(k as int),
                                decreases bindings.len() - k,
                            {
                                let ghost b = env@;
                                proof { assert(bv[k as int] == (bindings@[k as int].0@, bindings@[k as int].1.sv())); }
                                push_binding(env, bindings[k].0.clone(), bindings[k].1.deep_clone());
                                proof {
                                    lemma_prefix_trans(e1, b, env@);
                                    assert(bv.take(k + 1) =~= bv.take(k as int).push(bv[k as int]));
                                }
                                k += 1;
                            }
                            proof { assert(bv.take(bv.len() as int) =~= bv); }
                            let ghost e2 = env@;
                            let result = lisp_eval(&parts[1], env, gas);
                            proof { lemma_prefix_trans(e1, e2, env@); }
                            restore(env, base, Ghost(e1));
                            return result;
                        },
                        None => {},
                    }
                }
            },
            _ => {},
        }
        i += 1;
    }
    Ok(LispVal::Nil)
}

/// The sum of a list of numbers (see `loop_for_sum`).
fn sum_values(vals: &Vec<LispVal>) -> (r: Result<LispVal, String>)
    ensures
        res_sv(r) == loop_for_sum(vals_view(vals@), 0, 0),
{
    let ghost vv = vals_view(vals@);
    let mut acc: i64 = 0;
    let mut i: usize = 0;
    while i < vals.len()
        invariant
            i <= vals@.len(),
            vv == vals_view(vals@),
            loop_for_sum(vv, 0, 0) == loop_for_sum(vv, i as int, acc as int),
        decreases vals.len() - i,
    {
        proof { assert(vv[i as int] == vals@[i as int].sv()); }
        match &vals[i] {
            LispVal::Num(n) => {
                match acc.checked_add(*n) {
                    Some(x) => { acc = x; },
                    None => { return Err(String::from_str("integer overflow")); },
                }
            },
            _ => { return Err(String::from_str("loop for: sum needs numbers")); },
        }
        i += 1;
    }
    Ok(LispVal::Num(acc))
}

/// How many of a list's values are true; `None` past `i64::MAX`.
fn count_truthy(vals: &Vec<LispVal>) -> (r: Option<i64>)
    ensures
        match r {
            Some(n) => n == loop_for_count(vals_view(vals@), vals@.len() as int),
            None => loop_for_count(vals_view(vals@), vals@.len() as int) > i64::MAX,
        },
{
    let ghost vv = vals_view(vals@);
    let mut n: i64 = 0;
    let mut i: usize = 0;
    while i < vals.len()
        invariant
            i <= vals@.len(),
            vv == vals_view(vals@),
            n == loop_for_count(vv, i as int),
            0 <= n,
        decreases vals.len() - i,
    {
        proof { assert(vv[i as int] == vals@[i as int].sv()); }
        if is_truthy(&vals[i]) {
            match n.checked_add(1) {
                Some(x) => { n = x; },
                None => {
                    proof { lemma_count_grows(vv, i as int + 1, vv.len() as int); }
                    return None;
                },
            }
        }
        i += 1;
    }
    Some(n)
}

/// Counting over a longer prefix gives at least as many.
proof fn lemma_count_grows(vals: Seq<SVal>, j: int, k: int)
    requires
        0 <= j <= k <= vals.len(),
    ensures
        loop_for_count(vals, j) <= loop_for_count(vals, k),
    decreases k - j,
{
    if j < k {
        lemma_count_grows(vals, j, k - 1);
    }
}

/// `(loop for VAR in LIST collect|sum|count EXPR)` (see `pure_loop_for`).
fn eval_loop_for(list: &Vec<LispVal>, env: &mut Env, gas: &mut u64) -> (r: Result<LispVal, String>)
    ensures
        kept(*old(gas), *final(gas), old(env)@, final(env)@),
        pure_loop_for(vals_view(list@), old(env)@, *old(gas) as nat) matches Some(p)
            ==> step_agrees(Step::Done(r), p, *final(gas), final(env)@),
    decreases *old(gas), 6nat,
{
    proof {
        lemma_prefix_refl(env@);
        assert(forall|k: int| 0 <= k < list@.len() ==> #[trigger] vals_view(list@)[k] == list@[k].sv());
    }
    let ghost lv = vals_view(list@);
    let ghost g0 = *gas;
    let ghost e0 = env@;
    if list.len() != 7 {
        return Err(String::from_str("loop for: expected (loop for VAR in LIST collect|sum|count EXPR)"));
    }
    let var = match &list[2] {
        LispVal::Sym(v) => v,
        _ => { return Err(String::from_str("loop for: expected (loop for VAR in LIST collect|sum|count EXPR)")); },
    };
    if !sym_named(&list[3], "in") {
        return Err(String::from_str("loop for: expected (loop for VAR in LIST collect|sum|count EXPR)"));
    }
    let collect = sym_named(&list[5], "collect");
    let sum = sym_named(&list[5], "sum");
    let count = sym_named(&list[5], "count");
    if !collect && !sum && !count {
        return Err(String::from_str("loop for: expected (loop for VAR in LIST collect|sum|count EXPR)"));
    }
    let seq_val = match lisp_eval(&list[4], env, gas) {
        Ok(v) => v,
        Err(e) => { return Err(e); },
    };
    let ghost e1 = env@;
    let ghost g1 = *gas;
    let items: Vec<LispVal> = match seq_val {
        LispVal::List(xs) => xs,
        LispVal::Nil => Vec::new(),
        _ => { return Err(String::from_str("loop for: expected a list")); },
    };
    let ghost iv = vals_view(items@);
    let ghost pf = pure_for_items(var@, lv[6], iv, 0, e1, g1 as nat, Seq::empty());
    proof {
        assert(lv[2] == SVal::Sym(var@));
        assert(pure_loop_for(lv, e0, g0 as nat) is Some ==> pure_loop_for(lv, e0, g0 as nat) == match pf {
            None => None,
            Some((Err(e), g2)) => Some(PStep::Done(Err(e), g2, e1)),
            Some((Ok(vals), g2)) => Some(PStep::Done(loop_for_result(lv[5], vals), g2, e1)),
        });
    }
    let base = env.len();
    let mut acc: Vec<LispVal> = Vec::new();
    proof { assert(vals_view(acc@) =~= Seq::<SVal>::empty()); }
    let mut i: usize = 0;
    while i < items.len()
        invariant
            i <= items@.len(),
            list@.len() == 7,
            env@ == e1,
            base == e1.len(),
            kept(g0, *gas, e0, e1),
            *gas <= g1,
            g1 <= g0,
            g0 == *old(gas),
            e0 == old(env)@,
            iv == vals_view(items@),
            lv == vals_view(list@),
            lv[6] == list@[6].sv(),
            pf == pure_for_items(var@, lv[6], iv, 0, e1, g1 as nat, Seq::empty()),
            pf is Some ==> pure_for_items(var@, lv[6], iv, i as int, e1, *gas as nat, vals_view(acc@)) == pf,
            pure_loop_for(lv, e0, g0 as nat) is Some ==> pure_loop_for(lv, e0, g0 as nat) == match pf {
                None => None,
                Some((Err(e), g2)) => Some(PStep::Done(Err(e), g2, e1)),
                Some((Ok(vals), g2)) => Some(PStep::Done(loop_for_result(lv[5], vals), g2, e1)),
            },
        decreases items.len() - i,
    {
        proof { assert(iv[i as int] == items@[i as int].sv()); }
        push_binding(env, var.clone(), items[i].deep_clone());
        let ghost e2 = env@;
        let ghost gb = *gas;
        let res = lisp_eval(&list[6], env, gas);
        proof {
            lemma_prefix_trans(e1, e2, env@);
        }
        restore(env, base, Ghost(e1));
        match res {
            Ok(v) => {
                let ghost a0 = vals_view(acc@);
                let ghost vs = v.sv();
                acc.push(v);
                proof { assert(vals_view(acc@) =~= a0.push(vs)); }
            },
            Err(e) => {
                proof {
                    if pf is Some {
                        assert(e2 == e1.push((var@, iv[i as int])));
                        assert(pure_for_items(var@, lv[6], iv, i as int, e1, gb as nat, vals_view(acc@))
                            == Some((Err::<Seq<SVal>, Seq<char>>(e@), *gas as nat)));
                    }
                }
                return Err(e);
            },
        }
        i += 1;
    }
    if collect {
        Ok(LispVal::List(acc))
    } else if sum {
        sum_values(&acc)
    } else {
        match count_truthy(&acc) {
            Some(n) => Ok(LispVal::Num(n)),
            None => Err(String::from_str("integer overflow")),
        }
    }
}

/// `(loop bindings body)` with `recur` in tail position: bindings are
/// `((name init) ...)` or `(name init name init ...)`. The body is
/// evaluated with the bindings in scope, again for each `recur`, each
/// evaluation step spending gas as any other does.
#[verifier::rlimit(40)]
fn eval_loop(list: &Vec<LispVal>, env: &mut Env, gas: &mut u64) -> (r: Result<LispVal, String>)
    ensures
        kept(*old(gas), *final(gas), old(env)@, final(env)@),
        pure_loop(vals_view(list@), old(env)@, *old(gas) as nat) matches Some(p)
            ==> step_agrees(Step::Done(r), p, *final(gas), final(env)@),
    decreases *old(gas), 7nat,
{
    proof {
        lemma_prefix_refl(env@);
        assert(forall|k: int| 0 <= k < list@.len() ==> #[trigger] vals_view(list@)[k] == list@[k].sv());
    }
    let ghost lv = vals_view(list@);
    if list.len() >= 2 && sym_named(&list[1], "for") {
        return eval_loop_for(list, env, gas);
    }
    assert(!(lv.len() >= 2 && lv[1] == SVal::Sym("for"@)));
    let bindings = if list.len() > 1 {
        match &list[1] {
            LispVal::List(b) => b,
            _ => { return Err(String::from_str("loop: bindings must be list")); },
        }
    } else {
        return Err(String::from_str("loop: bindings must be list"));
    };
    if list.len() < 3 {
        return Err(String::from_str("loop: need body"));
    }
    let body = &list[2];
    let ghost g0 = *gas;
    let ghost e0 = env@;
    let ghost bs = vals_view(bindings@);
    proof {
        assert(lv[1] == SVal::List(bs));
        assert(forall|k: int| 0 <= k < bindings@.len() ==> #[trigger] bs[k] == bindings@[k].sv());
    }
    let mut names: Vec<String> = Vec::new();
    let mut vals: Vec<LispVal> = Vec::new();
    let mut all_pairs = true;
    let mut q: usize = 0;
    while q < bindings.len()
        invariant
            q <= bindings@.len(),
            bs == vals_view(bindings@),
            all_pairs == (forall|j: int| 0 <= j < q ==> (#[trigger] bs[j]) is List),
        decreases bindings.len() - q,
    {
        proof { assert(bs[q as int] == bindings@[q as int].sv()); }
        if !matches!(&bindings[q], LispVal::List(_)) {
            all_pairs = false;
        }
        q += 1;
    }
    assert(all_pairs == pair_style(bs));
    let ghost pb = if pair_style(bs) {
        pure_loop_pairs(bs, 0, e0, g0 as nat, Seq::empty(), Seq::empty())
    } else if bs.len() % 2 != 0 {
        Some((Err::<(Seq<Seq<char>>, Seq<SVal>), Seq<char>>("loop: flat bindings need even count"@), g0 as nat, e0))
    } else {
        pure_loop_flat(bs, 0, e0, g0 as nat, Seq::empty(), Seq::empty())
    };
    proof {
        assert(strings_view(names@) =~= Seq::<Seq<char>>::empty());
        assert(vals_view(vals@) =~= Seq::<SVal>::empty());
        assert(pb matches Some((Err(e), g1, env1)) ==> pure_loop(lv, e0, g0 as nat) == Some(PStep::Done(Err(e), g1, env1)));
        assert(pure_loop(lv, e0, g0 as nat) is Some ==> pb is Some);
    }
    if all_pairs {
        let mut i: usize = 0;
        while i < bindings.len()
            invariant
                i <= bindings@.len(),
                kept(g0, *gas, e0, env@),
                g0 == *old(gas),
                e0 == old(env)@,
                names@.len() == vals@.len(),
                bs == vals_view(bindings@),
                pb == pure_loop_pairs(bs, 0, e0, g0 as nat, Seq::empty(), Seq::empty()),
                lv == vals_view(list@),
                pb matches Some((Err(e), g1, env1)) ==> pure_loop(lv, e0, g0 as nat) == Some(PStep::Done(Err(e), g1, env1)),
                pure_loop(lv, e0, g0 as nat) is Some ==> pb is Some,
                pb is Some ==> pure_loop_pairs(bs, i as int, env@, *gas as nat, strings_view(names@), vals_view(vals@)) == pb,
            decreases bindings.len() - i,
        {
            proof { assert(bs[i as int] == bindings@[i as int].sv()); }
            if let LispVal::List(pair) = &bindings[i] {
                proof { assert(forall|k: int| 0 <= k < pair@.len() ==> #[trigger] vals_view(pair@)[k] == pair@[k].sv()); }
                if pair.len() == 2 {
                    if let LispVal::Sym(name) = &pair[0] {
                        let ghost e1 = env@;
                        let v = match lisp_eval(&pair[1], env, gas) {
                            Ok(v) => v,
                            Err(e) => { proof { lemma_prefix_trans(e0, e1, env@); } return Err(e); },
                        };
                        proof { lemma_prefix_trans(e0, e1, env@); }
                        let ghost n0 = strings_view(names@);
                        let ghost v0 = vals_view(vals@);
                        let ghost vs = v.sv();
                        names.push(name.clone());
                        vals.push(v);
                        proof {
                            assert(strings_view(names@) =~= n0.push(name@));
                            assert(vals_view(vals@) =~= v0.push(vs));
                        }
                    }
                }
            }
            i += 1;
        }
    } else {
        if bindings.len() % 2 != 0 {
            return Err(String::from_str("loop: flat bindings need even count"));
        }
        let mut i: usize = 0;
        while i < bindings.len()
            invariant
                kept(g0, *gas, e0, env@),
                g0 == *old(gas),
                e0 == old(env)@,
                names@.len() == vals@.len(),
                bindings@.len() % 2 == 0,
                i % 2 == 0,
                i <= bindings@.len(),
                bs == vals_view(bindings@),
                pb == pure_loop_flat(bs, 0, e0, g0 as nat, Seq::empty(), Seq::empty()),
                lv == vals_view(list@),
                pb matches Some((Err(e), g1, env1)) ==> pure_loop(lv, e0, g0 as nat) == Some(PStep::Done(Err(e), g1, env1)),
                pure_loop(lv, e0, g0 as nat) is Some ==> pb is Some,
                pb is Some ==> pure_loop_flat(bs, i as int, env@, *gas as nat, strings_view(names@), vals_view(vals@)) == pb,
            decreases bindings.len() - i,
        {
            proof {
                assert(bs[i as int] == bindings@[i as int].sv());
                assert(bs[i + 1] == bindings@[i + 1].sv());
            }
            match &bindings[i] {
                LispVal::Sym(name) => {
                    let ghost e1 = env@;
                    let v = match lisp_eval(&bindings[i + 1], env, gas) {
                        Ok(v) => v,
                        Err(e) => { proof { lemma_prefix_trans(e0, e1, env@); } return Err(e); },
                    };
                    proof { lemma_prefix_trans(e0, e1, env@); }
                    let ghost n0 = strings_view(names@);
                    let ghost v0 = vals_view(vals@);
                    let ghost vs = v.sv();
                    names.push(name.clone());
                    vals.push(v);
                    proof {
                        assert(strings_view(names@) =~= n0.push(name@));
                        assert(vals_view(vals@) =~= v0.push(vs));
                    }
                },
                other => {
                    let mut out: Vec<char> = Vec::new();
                    push_str(&mut out, "loop: binding name must be sym, got ");
                    display_into(other, &mut out);
                    return Err(chars_to_string(&out));
                },
            }
            i += 2;
        }
    }
    let ghost ns = strings_view(names@);
    let ghost e1 = env@;
    let ghost g1 = *gas;
    proof {
        assert(pb is Some ==> pb == Some((Ok::<(Seq<Seq<char>>, Seq<SVal>), Seq<char>>((ns, vals_view(vals@))), g1 as nat, e1)));
    }
    let ghost pi = pure_loop_iter(ns, vals_view(vals@), body.sv(), e1, g1 as nat);
    proof {
        assert(pure_loop(lv, e0, g0 as nat) is Some ==> pb is Some);
        assert(pure_loop(lv, e0, g0 as nat) is Some ==> pure_loop(lv, e0, g0 as nat) == match pi {
            None => None,
            Some((r, g2, env2)) => Some(PStep::Done(r, g2, env2)),
        });
    }
    let base = env.len();
    loop
        invariant
            kept(g0, *gas, e0, env@),
            g0 == *old(gas),
            e0 == old(env)@,
            env@ == e1,
            base == e1.len(),
            env_prefix(e0, e1),
            names@.len() == vals@.len(),
            ns == strings_view(names@),
            pi is Some ==> pure_loop_iter(ns, vals_view(vals@), body.sv(), e1, *gas as nat) == pi,
            pure_loop(vals_view(list@), old(env)@, *old(gas) as nat) is Some ==> pure_loop(vals_view(list@), old(env)@, *old(gas) as nat) == match pi {
                None => None,
                Some((r, g2, env2)) => Some(PStep::Done(r, g2, env2)),
            },
        decreases *gas,
    {
        proof { lemma_prefix_refl(e1); }
        let ghost vv = vals_view(vals@);
        let ghost lb = loop_binds(ns, vv);
        let mut k: usize = 0;
        proof { assert(lb.take(0) =~= Seq::<(Seq<char>, SVal)>::empty()); assert(e1 + lb.take(0) =~= e1); }
        while k < names.len()
            invariant
                k <= names@.len(),
                env_prefix(e1, env@),
                names@.len() == vals@.len(),
                ns == strings_view(names@),
                vv == vals_view(vals@),
                lb == loop_binds(ns, vv),
                env@ == e1 + lb.take(k as int),
            decreases names.len() - k,
        {
            let ghost b = env@;
            proof {
                assert(ns[k as int] == names@[k as int]@);
                assert(vv[k as int] == vals@[k as int].sv());
                assert(lb[k as int] == (names@[k as int]@, vals@[k as int].sv()));
            }
            push_binding(env, names[k].clone(), vals[k].deep_clone());
            proof {
                lemma_prefix_trans(e1, b, env@);
                assert(lb.take(k + 1) =~= lb.take(k as int).push(lb[k as int]));
            }
            k += 1;
        }
        proof { assert(lb.take(lb.len() as int) =~= lb); }
        let ghost e2 = env@;
        let ghost gb = *gas;
        let result = lisp_eval(body, env, gas);
        proof { lemma_prefix_trans(e1, e2, env@); }
        restore(env, base, Ghost(e1));
        match result {
            Ok(LispVal::Recur(new_vals)) => {
                if new_vals.len() != names.len() {
                    let mut out: Vec<char> = Vec::new();
                    push_str(&mut out, "recur: expected ");
                    push_all(&mut out, &nat_digits(names.len() as u64));
                    push_str(&mut out, " args, got ");
                    push_all(&mut out, &nat_digits(new_vals.len() as u64));
                    return Err(chars_to_string(&out));
                }
                vals = new_vals;
            },
            Ok(other) => { return Ok(other); },
            Err(e) => { return Err(e); },
        }
    }
}

/// Evaluates every expression of a program text into `env`, in order.
fn eval_module(code: &str, env: &mut Env, gas: &mut u64) -> (r: Result<(), String>)
    ensures
        kept(*old(gas), *final(gas), old(env)@, final(env)@),
        match parse_program(code@) {
            Err(e) => (r matches Err(x) && x@ == e) && *final(gas) == *old(gas) && final(env)@ == old(env)@,
            Ok(vs) => pure_block(vs, 0, old(env)@, *old(gas) as nat, SVal::Nil) matches Some((pr, pg, pe))
                ==> *final(gas) == pg && final(env)@ == pe && match pr {
                    Ok(_) => r is Ok,
                    Err(e) => r matches Err(x) && x@ == e,
                },
        },
    decreases *old(gas), 5nat,
{
    proof { lemma_prefix_refl(env@); }
    let exprs = match parse_all(code) {
        Ok(x) => x,
        Err(e) => { return Err(e); },
    };
    let ghost vs = vals_view(exprs@);
    let ghost g0 = *gas;
    let ghost e0 = env@;
    let ghost pb = pure_block(vs, 0, e0, g0 as nat, SVal::Nil);
    let ghost mut last: SVal = SVal::Nil;
    let mut i: usize = 0;
    while i < exprs.len()
        invariant
            i <= exprs@.len(),
            kept(g0, *gas, e0, env@),
            g0 == *old(gas),
            e0 == old(env)@,
            vs == vals_view(exprs@),
            parse_program(code@) == Ok::<Seq<SVal>, Seq<char>>(vs),
            pb == pure_block(vs, 0, e0, g0 as nat, SVal::Nil),
            pb is Some ==> pure_block(vs, i as int, env@, *gas as nat, last) == pb,
        decreases exprs.len() - i,
    {
        let ghost e1 = env@;
        proof { assert(vs[i as int] == exprs@[i as int].sv()); }
        match lisp_eval(&exprs[i], env, gas) {
            Ok(v) => { proof { last = v.sv(); } },
            Err(e) => { proof { lemma_prefix_trans(e0, e1, env@); } return Err(e); },
        }
        proof { lemma_prefix_trans(e0, e1, env@); }
        i += 1;
    }
    Ok(())
}

/// Loads a module's code: into the current bindings, or, with a prefix,
/// into a fresh environment whose bindings are then added as `prefix/name`.
fn load_module(code: &str, prefix: &Option<String>, env: &mut Env, gas: &mut u64) -> (r: Result<(), String>)
    ensures
        kept(*old(gas), *final(gas), old(env)@, final(env)@),
        pure_module(code@, match prefix { Some(p) => Some(p@), None => None }, old(env)@, *old(gas) as nat)
            matches Some((pr, pg, pe)) ==> *final(gas) == pg && final(env)@ == pe && match pr {
                Ok(_) => r is Ok,
                Err(e) => r matches Err(x) && x@ == e,
            },
    decreases *old(gas), 6nat,
{
    proof { lemma_prefix_refl(env@); }
    match prefix {
        Some(p) => {
            let mut module_env = Env::new();
            module_env.share_log_budget(env);
            let loaded = eval_module(code, &mut module_env, gas);
            env.share_log_budget(&module_env);
            match loaded {
                Ok(()) => {},
                Err(e) => { return Err(e); },
            }
            let ghost menv = module_env@;
            let defs = module_env.into_bindings();
            let ghost e0 = env@;
            let ghost pd = prefixed(menv, p@);
            proof { assert(e0 + pd.take(0) =~= e0); }
            let mut i: usize = 0;
            while i < defs.len()
                invariant
                    i <= defs@.len(),
                    env_prefix(e0, env@),
                    e0 == old(env)@,
                    binds_view(defs@) == menv,
                    pd == prefixed(menv, p@),
                    env@ == e0 + pd.take(i as int),
                decreases defs.len() - i,
            {
                let mut name: Vec<char> = Vec::new();
                push_str(&mut name, p.as_str());
                push_str(&mut name, "/");
                push_str(&mut name, defs[i].0.as_str());
                let ghost b = env@;
                proof { assert(menv[i as int] == (defs@[i as int].0@, defs@[i as int].1.sv())); }
                push_binding(env, chars_to_string(&name), defs[i].1.deep_clone());
                proof {
                    lemma_prefix_trans(e0, b, env@);
                    assert(pd.take(i + 1) =~= pd.take(i as int).push(pd[i as int]));
                }
                i += 1;
            }
            proof { assert(pd.take(pd.len() as int) =~= pd); }
            Ok(())
        },
        None => eval_module(code, env, gas),
    }
}

/// `(require "module" "prefix"?)`: loads a standard library module, or a
/// module saved in storage under `module:<name>`, once per name and prefix.
fn eval_require(list: &Vec<LispVal>, env: &mut Env, gas: &mut u64) -> (r: Result<LispVal, String>)
    ensures
        kept(*old(gas), *final(gas), old(env)@, final(env)@),
        pure_require(vals_view(list@), old(env)@, *old(gas) as nat) matches Some(p)
            ==> step_agrees(Step::Done(r), p, *final(gas), final(env)@),
    decreases *old(gas), 7nat,
{
    proof {
        lemma_prefix_refl(env@);
        assert(forall|k: int| 0 <= k < list@.len() ==> #[trigger] vals_view(list@)[k] == list@[k].sv());
    }
    let ghost lv = vals_view(list@);
    let module_name = if list.len() > 1 {
        match &list[1] {
            LispVal::Str(s) => s,
            _ => { return Err(String::from_str("require: need string module name")); },
        }
    } else {
        return Err(String::from_str("require: need string module name"));
    };
    let prefix: Option<String> = if list.len() > 2 {
        match &list[2] {
            LispVal::Str(s) => Some(s.clone()),
            _ => { return Err(String::from_str("require: prefix must be string")); },
        }
    } else {
        None
    };
    let mut marker: Vec<char> = Vec::new();
    push_str(&mut marker, "__stdlib_");
    push_str(&mut marker, module_name.as_str());
    push_str(&mut marker, "__");
    match &prefix {
        Some(p) => { push_str(&mut marker, p.as_str()); },
        None => {},
    }
    let marker = chars_to_string(&marker);
    let ghost pv: Option<Seq<char>> = match &prefix { Some(p) => Some(p@), None => None };
    proof {
        assert(marker@ =~= module_marker(module_name@, pv));
        assert(lv[1] == SVal::Str(module_name@));
        if list.len() > 2 {
            assert(pv == Some(lv[2]->Str_0));
        }
    }
    if env.contains(marker.as_str()) {
        return Ok(LispVal::Nil);
    }
    let ghost e0 = env@;
    match get_stdlib_code(module_name.as_str()) {
        Some(code) => {
            match load_module(code, &prefix, env, gas) {
                Ok(()) => {},
                Err(e) => { return Err(e); },
            }
        },
        None => {
            let mut key: Vec<char> = Vec::new();
            push_str(&mut key, "module:");
            push_str(&mut key, module_name.as_str());
            let key = chars_to_string(&key);
            if crate::text::str_bytes(key.as_str()).len() > near::MAX_STORAGE_KEY_BYTES {
                return Err(String::from_str("require: module name too long"));
            }
            match near::storage_read(key.as_str()) {
                Some(bytes) => {
                    let code = match near::utf8_decode(bytes) {
                        Some(c) => c,
                        None => { return Err(String::from_str("require: module has invalid utf8")); },
                    };
                    match load_module(code.as_str(), &prefix, env, gas) {
                        Ok(()) => {},
                        Err(e) => { return Err(e); },
                    }
                },
                None => {
                    let mut out: Vec<char> = Vec::new();
                    push_str(&mut out, "require: unknown module '");
                    push_str(&mut out, module_name.as_str());
                    push_str(&mut out, "'");
                    return Err(chars_to_string(&out));
                },
            }
        },
    }
    let ghost e1 = env@;
    push_binding(env, marker, LispVal::Bool(true));
    proof { lemma_prefix_trans(e0, e1, env@); }
    Ok(LispVal::Nil)
}


/// A name read after `(define name v)` gives `v`, and no other name's value
/// changes.
pub proof fn lemma_define_then_read(name: Seq<char>, v: SVal, other: Seq<char>, env: Seq<(Seq<char>, SVal)>, gas: nat)
    requires
        atom(v),
        gas >= 2,
    ensures
        pure_eval(SVal::List(seq![SVal::Sym("define"@), SVal::Sym(name), v]), env, gas)
            == Some((Ok::<SVal, Seq<char>>(SVal::Nil), (gas - 2) as nat, env.push((name, v)))),
        lookup(env.push((name, v)), name) == Some(v),
        other != name ==> lookup(env.push((name, v)), other) == lookup(env, other),
{
    reveal_strlit("define");
    reveal_strlit("quote");
    assert("define"@[0] == 'd' && "quote"@[0] == 'q');
    let l = seq![SVal::Sym("define"@), SVal::Sym(name), v];
    let g = (gas - 1) as nat;
    let g1 = (g - 1) as nat;
    assert(l[0] == SVal::Sym("define"@) && l[1] == SVal::Sym(name) && l[2] == v);
    assert(pure_step(v, env, g1) == Some(PStep::Done(Ok(v), g1, env)));
    assert(pure_eval(v, env, g) == Some((Ok::<SVal, Seq<char>>(v), g1, env)));
    assert(pure_step(SVal::List(l), env, g) == pure_define(l, env, g));
    lemma_lookup_push(env, name, v, other);
}

/// A failure inside `try` is caught: `(try x (catch e e))` gives the message
/// of the failure of `x` as a string, with the bindings as `x` left them.
pub proof fn lemma_try_catches(x: SVal, name: Seq<char>, env: Seq<(Seq<char>, SVal)>, gas: nat)
    requires
        gas >= 1,
        pure_eval(x, env, (gas - 1) as nat) matches Some((Err(_), g1, _)) && 1 <= g1 <= gas - 1,
    ensures
        pure_eval(x, env, (gas - 1) as nat) matches Some((Err(m), g1, env1))
            && pure_eval(SVal::List(seq![SVal::Sym("try"@), x, SVal::List(seq![SVal::Sym("catch"@), SVal::Sym(name), SVal::Sym(name)])]), env, gas)
                == Some((Ok::<SVal, Seq<char>>(SVal::Str(m)), (g1 - 1) as nat, env1)),
{
    reveal_names_try();
    let c = seq![SVal::Sym("catch"@), SVal::Sym(name), SVal::Sym(name)];
    let l = seq![SVal::Sym("try"@), x, SVal::List(c)];
    assert(l[0] == SVal::Sym("try"@) && l[1] == x && l[2] == SVal::List(c));
    assert(c[0] == SVal::Sym("catch"@) && c[1] == SVal::Sym(name) && c[2] == SVal::Sym(name));
    let g = (gas - 1) as nat;
    let (m, g1, env1) = match pure_eval(x, env, g) { Some((Err(m), g1, env1)) => (m, g1, env1), _ => arbitrary() };
    let env2 = env1.push((name, SVal::Str(m)));
    let g2 = (g1 - 1) as nat;
    lemma_lookup_push(env1, name, SVal::Str(m), name);
    assert(pure_step(SVal::Sym(name), env2, g2) == Some(PStep::Done(Ok(SVal::Str(m)), g2, env2)));
    assert(pure_eval(SVal::Sym(name), env2, g1) == Some((Ok::<SVal, Seq<char>>(SVal::Str(m)), g2, env2)));
    assert(pure_block(c, 3, env2, g2, SVal::Str(m)) == Some((Ok::<SVal, Seq<char>>(SVal::Str(m)), g2, env2)));
    assert(pure_block(c, 2, env2, g1, SVal::Nil) == Some((Ok::<SVal, Seq<char>>(SVal::Str(m)), g2, env2)));
    assert(pure_step(SVal::List(l), env, g) == pure_try(l, env, g));
    assert(pure_try(l, env, g) == Some(PStep::Done(Ok(SVal::Str(m)), g2, env1)));
}

/// The special-form names that `try` is told apart from.
proof fn reveal_names_try()
    ensures
        "try"@ != "quote"@ && "try"@ != "define"@ && "try"@ != "if"@ && "try"@ != "cond"@ && "try"@ != "let"@
            && "try"@ != "lambda"@ && "try"@ != "progn"@ && "try"@ != "begin"@ && "try"@ != "and"@ && "try"@ != "or"@
            && "try"@ != "not"@,
{
    reveal_strlit("try");
    reveal_strlit("quote");
    reveal_strlit("define");
    reveal_strlit("if");
    reveal_strlit("cond");
    reveal_strlit("let");
    reveal_strlit("lambda");
    reveal_strlit("progn");
    reveal_strlit("begin");
    reveal_strlit("and");
    reveal_strlit("or");
    reveal_strlit("not");
    assert("try"@[0] == 't' && "quote"@[0] == 'q' && "define"@[0] == 'd' && "if"@[0] == 'i' && "cond"@[0] == 'c');
    assert("let"@[0] == 'l' && "lambda"@[0] == 'l' && "progn"@[0] == 'p' && "begin"@[0] == 'b' && "and"@[0] == 'a');
    assert("or"@[0] == 'o' && "not"@[0] == 'n');
}

/// Calling a lambda leaves the caller's bindings as they were, whatever its
/// body defines.
pub proof fn lemma_call_keeps_bindings(f: SVal, vals: Seq<SVal>, env: Seq<(Seq<char>, SVal)>, g: nat)
    requires
        f is Lambda,
    ensures
        pure_call_val(f, vals, env, g) matches Some((_, _, e1)) ==> e1 == env,
{
}

/// The bindings a `let` makes are gone after it: whether the `let` succeeds
/// or fails, the bindings are those before it.
pub proof fn lemma_let_scoped(bs: Seq<SVal>, body: SVal, env: Seq<(Seq<char>, SVal)>, gas: nat)
    ensures
        pure_eval(SVal::List(seq![SVal::Sym("let"@), SVal::List(bs), body]), env, gas) matches Some((_, _, e1))
            ==> e1 == env,
{
    reveal_strlit("let");
    reveal_strlit("quote");
    reveal_strlit("define");
    reveal_strlit("if");
    reveal_strlit("cond");
    assert("let"@[0] == 'l' && "quote"@[0] == 'q' && "define"@[0] == 'd' && "if"@[0] == 'i' && "cond"@[0] == 'c');
    let l = seq![SVal::Sym("let"@), SVal::List(bs), body];
    assert(l[0] == SVal::Sym("let"@) && l[1] == SVal::List(bs));
    if gas > 0 {
        let g = (gas - 1) as nat;
        assert(pure_step(SVal::List(l), env, g) == pure_let_form(l, env, g));
        lemma_let_outer(l, bs, 0, env, env, g);
    }
}

/// `pure_let` ends with the bindings `outer`.
proof fn lemma_let_outer(l: Seq<SVal>, bs: Seq<SVal>, i: int, env: Seq<(Seq<char>, SVal)>, outer: Seq<(Seq<char>, SVal)>, g: nat)
    ensures
        pure_let(l, bs, i, env, outer, g) matches Some(PStep::Done(_, _, e1)) ==> e1 == outer,
        !(pure_let(l, bs, i, env, outer, g) matches Some(PStep::Tail(_, _, _))),
    decreases bs.len() - i,
{
    if 0 <= i < bs.len() {
        match bs[i] {
            SVal::List(pair) => if pair.len() == 2 && pair[0] is Sym {
                match pure_eval(pair[1], env, g) {
                    Some((Ok(v), g1, env1)) => if g1 <= g {
                        lemma_let_outer(l, bs, i + 1, env1.push((pair[0]->Sym_0, v)), outer, g1);
                    },
                    _ => {},
                }
            } else {
                lemma_let_outer(l, bs, i + 1, env, outer, g);
            },
            _ => { lemma_let_outer(l, bs, i + 1, env, outer, g); },
        }
    }
}

/// A module is loaded once per name and prefix: after a `require` succeeds,
/// the same `require` again does nothing and answers `nil`.
pub proof fn lemma_require_once(l: Seq<SVal>, env: Seq<(Seq<char>, SVal)>, g: nat, g2: nat)
    ensures
        pure_require(l, env, g) matches Some(PStep::Done(Ok(_), _, env1))
            ==> pure_require(l, env1, g2) == Some(PStep::Done(Ok(SVal::Nil), g2, env1)),
{
    if l.len() >= 2 && l[1] is Str && !(l.len() > 2 && !(l[2] is Str)) {
        let name = l[1]->Str_0;
        let prefix = if l.len() > 2 { Some(l[2]->Str_0) } else { None };
        let marker = module_marker(name, prefix);
        if lookup(env, marker) is None {
            match stdlib_code(name) {
                Some(code) => match pure_module(code@, prefix, env, g) {
                    Some((Ok(_), g1, env1)) => {
                        lemma_lookup_push(env1, marker, SVal::Bool(true), marker);
                    },
                    _ => {},
                },
                None => {},
            }
        }
    }
}

/// `(op a b)`: a call of `op` on two values written in place.
pub open spec fn call2(op: Seq<char>, a: SVal, b: SVal) -> SVal {
    SVal::List(seq![SVal::Sym(op), a, b])
}

/// The value of a call of a value builtin on two literals: the call and each
/// argument take a unit of gas, and the bindings stay as they were.
proof fn lemma_call2_literals(op: Seq<char>, a: SVal, b: SVal, env: Seq<(Seq<char>, SVal)>, gas: nat)
    requires
        atom(a),
        atom(b),
        !special_form(op),
        pure_spec(op, seq![a, b]) is Some,
    ensures
        pure_eval(call2(op, a, b), env, gas) == (if gas < 3 {
            Some((Err::<SVal, Seq<char>>("out of gas"@), 0nat, env))
        } else {
            Some((pure_spec(op, seq![a, b])->0, (gas - 3) as nat, env))
        }),
{
    let l = seq![SVal::Sym(op), a, b];
    let e = Seq::<SVal>::empty();
    assert(e.push(a) =~= seq![a]);
    assert(seq![a].push(b) =~= seq![a, b]);
    assert(l[0] == SVal::Sym(op) && l[1] == a && l[2] == b);
    if gas >= 1 {
        let g = (gas - 1) as nat;
        if g == 0 {
            assert(pure_args(l, 1, env, 0, e) == Some((Err::<Seq<SVal>, Seq<char>>("out of gas"@), 0nat, env)));
        } else {
            let g1 = (g - 1) as nat;
            assert(pure_step(a, env, g1) == Some(PStep::Done(Ok(a), g1, env)));
            assert(pure_eval(a, env, g) == Some((Ok::<SVal, Seq<char>>(a), g1, env)));
            if g1 == 0 {
                assert(pure_args(l, 2, env, 0, seq![a]) == Some((Err::<Seq<SVal>, Seq<char>>("out of gas"@), 0nat, env)));
                assert(pure_args(l, 1, env, g, e) == Some((Err::<Seq<SVal>, Seq<char>>("out of gas"@), 0nat, env)));
            } else {
                let g2 = (g1 - 1) as nat;
                assert(pure_step(b, env, g2) == Some(PStep::Done(Ok(b), g2, env)));
                assert(pure_eval(b, env, g1) == Some((Ok::<SVal, Seq<char>>(b), g2, env)));
                assert(pure_args(l, 3, env, g2, seq![a, b]) == Some((Ok::<Seq<SVal>, Seq<char>>(seq![a, b]), g2, env)));
                assert(pure_args(l, 2, env, g1, seq![a]) == Some((Ok::<Seq<SVal>, Seq<char>>(seq![a, b]), g2, env)));
                assert(pure_args(l, 1, env, g, e) == Some((Ok::<Seq<SVal>, Seq<char>>(seq![a, b]), g2, env)));
                assert(pure_apply_head(SVal::Sym(op), seq![a, b], env, g2) == Some((pure_spec(op, seq![a, b])->0, g2, env)));
            }
        }
        assert(pure_step(SVal::List(l), env, g) == pure_call(l, env, g));
    }
}

/// Addition and multiplication of two numbers do not depend on the order of
/// the arguments: `(+ a b)` and `(+ b a)` evaluate alike, and so do
/// `(* a b)` and `(* b a)`, whatever the bindings and the gas.
pub proof fn lemma_eval_add_mul_commute(a: int, b: int, env: Seq<(Seq<char>, SVal)>, gas: nat)
    ensures
        pure_eval(call2("+"@, SVal::Num(a), SVal::Num(b)), env, gas) == pure_eval(call2("+"@, SVal::Num(b), SVal::Num(a)), env, gas),
        pure_eval(call2("*"@, SVal::Num(a), SVal::Num(b)), env, gas) == pure_eval(call2("*"@, SVal::Num(b), SVal::Num(a)), env, gas),
{
    reveal_spec_names();
    lemma_arith_commutes(a, b);
    lemma_call2_literals("+"@, SVal::Num(a), SVal::Num(b), env, gas);
    lemma_call2_literals("+"@, SVal::Num(b), SVal::Num(a), env, gas);
    lemma_call2_literals("*"@, SVal::Num(a), SVal::Num(b), env, gas);
    lemma_call2_literals("*"@, SVal::Num(b), SVal::Num(a), env, gas);
}

/// Zero is the identity of `+` and one that of `*`: `(+ a 0)` and `(* a 1)`
/// evaluate to `a`.
pub proof fn lemma_eval_identity(a: int, env: Seq<(Seq<char>, SVal)>, gas: nat)
    requires
        i64::MIN <= a <= i64::MAX,
        gas >= 3,
    ensures
        pure_eval(call2("+"@, SVal::Num(a), SVal::Num(0)), env, gas) == Some((Ok::<SVal, Seq<char>>(SVal::Num(a)), (gas - 3) as nat, env)),
        pure_eval(call2("*"@, SVal::Num(a), SVal::Num(1)), env, gas) == Some((Ok::<SVal, Seq<char>>(SVal::Num(a)), (gas - 3) as nat, env)),
{
    reveal_spec_names();
    lemma_arith_identity(a);
    lemma_call2_literals("+"@, SVal::Num(a), SVal::Num(0), env, gas);
    lemma_call2_literals("*"@, SVal::Num(a), SVal::Num(1), env, gas);
}

/// `(not (not b))` is `b` for a boolean `b`.
pub proof fn lemma_eval_not_not(b: bool, env: Seq<(Seq<char>, SVal)>, gas: nat)
    requires
        gas >= 3,
    ensures
        pure_eval(SVal::List(seq![SVal::Sym("not"@), SVal::List(seq![SVal::Sym("not"@), SVal::Bool(b)])]), env, gas)
            == Some((Ok::<SVal, Seq<char>>(SVal::Bool(b)), (gas - 3) as nat, env)),
{
    reveal_spec_names();
    let inner = seq![SVal::Sym("not"@), SVal::Bool(b)];
    let outer = seq![SVal::Sym("not"@), SVal::List(inner)];
    let g = (gas - 1) as nat;
    let g1 = (g - 1) as nat;
    let g2 = (g1 - 1) as nat;
    assert(inner[0] == SVal::Sym("not"@) && inner[1] == SVal::Bool(b));
    assert(outer[0] == SVal::Sym("not"@) && outer[1] == SVal::List(inner));
    assert(pure_step(SVal::Bool(b), env, g2) == Some(PStep::Done(Ok(SVal::Bool(b)), g2, env)));
    assert(pure_eval(SVal::Bool(b), env, g1) == Some((Ok::<SVal, Seq<char>>(SVal::Bool(b)), g2, env)));
    assert(pure_step(SVal::List(inner), env, g1) == Some(PStep::Done(Ok(SVal::Bool(!b)), g2, env)));
    assert(pure_eval(SVal::List(inner), env, g) == Some((Ok::<SVal, Seq<char>>(SVal::Bool(!b)), g2, env)));
    assert(pure_step(SVal::List(outer), env, g) == Some(PStep::Done(Ok(SVal::Bool(b)), g2, env)));
}

/// The value of `(and x y)` or `(or x y)` on two booleans.
proof fn lemma_and_or_literals(h: Seq<char>, x: bool, y: bool, env: Seq<(Seq<char>, SVal)>, gas: nat)
    requires
        h == "and"@ || h == "or"@,
        gas >= 3,
    ensures
        pure_eval(SVal::List(seq![SVal::Sym(h), SVal::Bool(x), SVal::Bool(y)]), env, gas) matches Some((r, _, _))
            && r == Ok::<SVal, Seq<char>>(SVal::Bool(if h == "and"@ { x && y } else { x || y })),
{
    reveal_spec_names();
    let l = seq![SVal::Sym(h), SVal::Bool(x), SVal::Bool(y)];
    let mode: int = if h == "and"@ { 1 } else { 2 };
    let g = (gas - 1) as nat;
    let g1 = (g - 1) as nat;
    assert(l[0] == SVal::Sym(h) && l[1] == SVal::Bool(x) && l[2] == SVal::Bool(y));
    assert(seq_mode(h) == mode);
    assert(pure_step(SVal::Bool(x), env, g1) == Some(PStep::Done(Ok(SVal::Bool(x)), g1, env)));
    assert(pure_eval(SVal::Bool(x), env, g) == Some((Ok::<SVal, Seq<char>>(SVal::Bool(x)), g1, env)));
    assert(pure_seq(l, 2, env, g1, mode) == Some(PStep::Tail(SVal::Bool(y), g1, env)));
    assert(pure_step(SVal::List(l), env, g) == pure_seq(l, 1, env, g, mode));
    if g1 >= 1 {
        let g2 = (g1 - 1) as nat;
        assert(pure_step(SVal::Bool(y), env, g2) == Some(PStep::Done(Ok(SVal::Bool(y)), g2, env)));
        assert(pure_eval(SVal::Bool(y), env, g1) == Some((Ok::<SVal, Seq<char>>(SVal::Bool(y)), g2, env)));
    }
}

/// `and` and `or` on two booleans do not depend on their order: `(and x y)`
/// and `(and y x)` give the same value, and so do `(or x y)` and `(or y x)`.
pub proof fn lemma_eval_and_or_commute(x: bool, y: bool, env: Seq<(Seq<char>, SVal)>, gas: nat)
    requires
        gas >= 3,
    ensures
        pure_eval(SVal::List(seq![SVal::Sym("and"@), SVal::Bool(x), SVal::Bool(y)]), env, gas) matches Some((r1, _, _))
            && pure_eval(SVal::List(seq![SVal::Sym("and"@), SVal::Bool(y), SVal::Bool(x)]), env, gas) matches Some((r2, _, _))
            && r1 == r2,
        pure_eval(SVal::List(seq![SVal::Sym("or"@), SVal::Bool(x), SVal::Bool(y)]), env, gas) matches Some((r1, _, _))
            && pure_eval(SVal::List(seq![SVal::Sym("or"@), SVal::Bool(y), SVal::Bool(x)]), env, gas) matches Some((r2, _, _))
            && r1 == r2,
{
    reveal_spec_names();
    lemma_and_or_literals("and"@, x, y, env, gas);
    lemma_and_or_literals("and"@, y, x, env, gas);
    lemma_and_or_literals("or"@, x, y, env, gas);
    lemma_and_or_literals("or"@, y, x, env, gas);
}

/// The names of the special forms, `+` and `*` told apart.
proof fn reveal_spec_names()
    ensures
        !special_form("+"@) && !special_form("*"@),
        "+"@ != "*"@ && "-"@ != "*"@,
        "not"@ != "quote"@ && "not"@ != "define"@ && "not"@ != "if"@ && "not"@ != "cond"@ && "not"@ != "let"@
            && "not"@ != "lambda"@ && "not"@ != "progn"@ && "not"@ != "begin"@ && "not"@ != "and"@ && "not"@ != "or"@,
        "and"@ != "quote"@ && "and"@ != "define"@ && "and"@ != "if"@ && "and"@ != "cond"@ && "and"@ != "let"@
            && "and"@ != "lambda"@ && "and"@ != "or"@,
        "or"@ != "quote"@ && "or"@ != "define"@ && "or"@ != "if"@ && "or"@ != "cond"@ && "or"@ != "let"@
            && "or"@ != "lambda"@ && "or"@ != "and"@,
{
    reveal_strlit("+");
    reveal_strlit("-");
    reveal_strlit("*");
    reveal_strlit("quote");
    reveal_strlit("define");
    reveal_strlit("if");
    reveal_strlit("cond");
    reveal_strlit("let");
    reveal_strlit("lambda");
    reveal_strlit("progn");
    reveal_strlit("begin");
    reveal_strlit("and");
    reveal_strlit("or");
    reveal_strlit("not");
    reveal_strlit("try");
    reveal_strlit("match");
    reveal_strlit("loop");
    reveal_strlit("recur");
    reveal_strlit("near/ccall-result");
    reveal_strlit("near/batch-result");
    reveal_strlit("near/ccall-count");
    reveal_strlit("near/block-height");
    reveal_strlit("near/predecessor");
    reveal_strlit("near/signer");
    reveal_strlit("near/timestamp");
    reveal_strlit("near/account-balance");
    reveal_strlit("near/attached-deposit");
    reveal_strlit("near/account-locked-balance");
    reveal_strlit("near/log");
    reveal_strlit("require");
    assert("+"@.len() == 1 && "*"@.len() == 1 && "+"@[0] == '+' && "*"@[0] == '*' && "-"@[0] == '-');
    assert("not"@[0] == 'n' && "and"@[0] == 'a' && "or"@[0] == 'o' && "if"@[0] == 'i');
    assert("quote"@[0] == 'q' && "progn"@[0] == 'p' && "begin"@[0] == 'b' && "define"@[0] == 'd');
    assert("cond"@[0] == 'c' && "let"@[0] == 'l' && "lambda"@[0] == 'l' && "let"@.len() == 3 && "lambda"@.len() == 6);
}

} // verus!
