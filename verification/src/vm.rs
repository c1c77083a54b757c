//! Running whole programs, and the cross-contract-call protocol: calls are
//! found at the top level (nested ones are lifted there first), batched,
//! and handed back to the caller together with everything needed to resume.
use vstd::prelude::*;
use crate::text::{str_eq, chars_to_string, str_to_chars, text_to_u64, text_to_u128, parse_u64, parse_u128,
    nat_to_decimal, nat_digits, seq_ends_with, str_bytes};
use crate::types::{LispVal, SVal, Env, lemma_sv_unfold, vals_view, binds_view, clone_vals};
use crate::display::{display, push_str, push_all};
use crate::helpers::{as_str, str_of, expected_msg};
use crate::eval::{lisp_eval, kept, env_prefix, atom, lemma_prefix_refl, lemma_prefix_trans, pure_run, pure_eval, pure_block};
use crate::parser::{parse_all, parse_program};

verus! {

broadcast use lemma_sv_unfold;

/// Where a finished computation's result is sent.
pub struct CallbackInfo {
    pub account: String,
    pub method: String,
}

/// A cross-contract call the runtime has to make before evaluation can go on.
pub struct CcallYield {
    pub account: String,
    pub method: String,
    pub args_bytes: Vec<u8>,
    /// Deposit in yoctoNEAR (0 for view calls).
    pub deposit: u128,
    /// Gas in TGas.
    pub gas_tgas: u64,
}

/// A cross-contract call found in a top-level expression.
pub struct CcallInfo {
    /// The variable `(define var (near/ccall ...))` binds, if any.
    pub pending_var: Option<String>,
    pub account: String,
    pub method: String,
    pub args_bytes: Vec<u8>,
    pub deposit: u128,
    pub gas_tgas: u64,
    /// Whether a failed call gives `nil` rather than failing the program.
    pub null_safe: bool,
}

/// Everything needed to resume evaluation after a batch of calls.
pub struct VmState {
    /// Top-level expressions still to evaluate.
    pub remaining: Vec<LispVal>,
    pub env: Env,
    pub gas: u64,
    /// For each pending call, the variable its result is bound to.
    pub pending_vars: Vec<Option<String>>,
    /// For each pending call, whether it is null-safe.
    pub null_safe_flags: Vec<bool>,
    /// Where to send the final result, if anywhere.
    pub callback: Option<CallbackInfo>,
}

/// How a program run ended: with a result, or waiting for calls.
pub enum RunResult {
    Done(String),
    Yield { yields: Vec<CcallYield>, state: VmState },
}

/// The two kinds of cross-contract call.
#[derive(Clone, Copy, PartialEq, Eq, Structural)]
pub enum CcallMode {
    View,
    Call,
}

/// The call kind a function name stands for.
pub open spec fn ccall_mode(name: Seq<char>) -> Option<CcallMode> {
    if name == "near/ccall"@ || name == "near/ccall-view"@ || name == "near/ccall-view*"@ {
        Some(CcallMode::View)
    } else if name == "near/ccall-call"@ || name == "near/ccall-call*"@ {
        Some(CcallMode::Call)
    } else {
        None
    }
}

/// The call kind a function name stands for, if it is a call.
pub fn classify_ccall(name: &str) -> (r: Option<CcallMode>)
    ensures
        r == ccall_mode(name@),
{
    if str_eq(name, "near/ccall") || str_eq(name, "near/ccall-view") || str_eq(name, "near/ccall-view*") {
        Some(CcallMode::View)
    } else if str_eq(name, "near/ccall-call") || str_eq(name, "near/ccall-call*") {
        Some(CcallMode::Call)
    } else {
        None
    }
}

/// Whether a call's name marks it null-safe (a trailing `*`).
pub fn is_null_safe_ccall(name: &str) -> (r: bool)
    ensures
        r == seq_ends_with(name@, seq!['*']),
{
    let cs = str_to_chars(name);
    let r = cs.len() > 0 && cs[cs.len() - 1] == '*';
    proof {
        if cs@.len() > 0 {
            assert(cs@.skip(cs@.len() - 1) =~= seq![cs@[cs@.len() - 1]]);
            assert(cs@.skip(cs@.len() - 1)[0] == cs@[cs@.len() - 1]);
            assert(seq!['*'][0] == '*');
        }
    }
    r
}

/// What a call's literal arguments say: the account, the method, the
/// deposit and the gas (args 1, 2 and 4, 5; arg 3 is evaluated).
pub open spec fn ccall_terms(mode: CcallMode, inner: Seq<SVal>) -> Result<(Seq<char>, Seq<char>, int, int), Seq<char>> {
    match (str_of(inner[1]), str_of(inner[2])) {
        (None, _) => Err(expected_msg("string"@, inner[1])),
        (_, None) => Err(expected_msg("string"@, inner[2])),
        (Some(account), Some(method)) => match mode {
            CcallMode::View => if inner.len() > 4 {
                match str_of(inner[4]) {
                    None => Err(expected_msg("string"@, inner[4])),
                    Some(g) => match text_to_u64(g) {
                        Some(t) => Ok((account, method, 0, t as int)),
                        None => Err("near/ccall: invalid gas (must be number in Tgas)"@),
                    },
                }
            } else {
                Ok((account, method, 0, 10))
            },
            CcallMode::Call => if inner.len() <= 4 {
                Err("near/ccall-call: need deposit (yoctonear string)"@)
            } else {
                match str_of(inner[4]) {
                    None => Err(expected_msg("string"@, inner[4])),
                    Some(d) => match text_to_u128(d) {
                        None => Err("near/ccall-call: invalid deposit"@),
                        Some(dep) => if inner.len() <= 5 {
                            Err("near/ccall-call: need gas (tgas)"@)
                        } else {
                            match str_of(inner[5]) {
                                None => Err(expected_msg("string"@, inner[5])),
                                Some(g) => match text_to_u64(g) {
                                    Some(t) => Ok((account, method, dep as int, t as int)),
                                    None => Err("near/ccall-call: invalid gas"@),
                                },
                            }
                        },
                    },
                }
            },
        },
    }
}

/// The text a call sends for its argument value: a string's own
/// characters, any other value's printed form.
pub open spec fn arg_text(v: SVal) -> Seq<char> {
    match v {
        SVal::Str(s) => s,
        _ => display(v),
    }
}

/// Reads a call from `inner` = `(near/ccall... account method args ...)`:
/// `None` when it is not one. The argument expression (default `"{}"`) is
/// evaluated; its bytes are a string's own, or the printed form. A failure
/// other than one the literal terms explain (see `ccall_terms`) is the
/// argument's own: it comes only where the argument does not evaluate to a
/// value.
pub fn extract_ccall_info(inner: &Vec<LispVal>, env: &mut Env, gas: &mut u64, pending_var: Option<String>)
    -> (r: Result<Option<CcallInfo>, String>)
    ensures
        kept(*old(gas), *final(gas), old(env)@, final(env)@),
        (r matches Ok(None)) ==> *final(gas) == *old(gas) && final(env)@ == old(env)@,
        inner@.len() <= 3 ==> *final(gas) == *old(gas) && final(env)@ == old(env)@,
        inner@.len() < 3 ==> r matches Ok(None),
        inner@.len() >= 3 ==> match vals_view(inner@)[0] {
            SVal::Sym(f) => match ccall_mode(f) {
                None => r matches Ok(None),
                Some(mode) => match (str_of(vals_view(inner@)[1]), str_of(vals_view(inner@)[2])) {
                    (None, _) => r matches Err(x) && x@ == expected_msg("string"@, vals_view(inner@)[1]),
                    (_, None) => r matches Err(x) && x@ == expected_msg("string"@, vals_view(inner@)[2]),
                    _ => match ccall_terms(mode, vals_view(inner@)) {
                        Err(e) => r matches Err(x) && (x@ == e || (inner@.len() > 3
                            && !(pure_eval(vals_view(inner@)[3], old(env)@, *old(gas) as nat) matches Some((Ok(_), _, _))))),
                        Ok((account, method, dep, t)) => (inner@.len() > 3 && r is Err
                            && !(pure_eval(vals_view(inner@)[3], old(env)@, *old(gas) as nat) matches Some((Ok(_), _, _))))
                            || (r matches Ok(Some(info))
                            && info.account@ == account && info.method@ == method && info.deposit == dep
                            && info.gas_tgas == t && info.null_safe == seq_ends_with(f, seq!['*'])
                            && (match pending_var { Some(v) => info.pending_var matches Some(w) && w@ == v@, None => info.pending_var is None })
                            && (inner@.len() == 3 ==> info.args_bytes@ == vstd::utf8::encode_utf8("{}"@))
                            && (inner@.len() > 3 ==> (pure_eval(vals_view(inner@)[3], old(env)@, *old(gas) as nat)
                                matches Some((Ok(av), _, _)) ==> info.args_bytes@ == vstd::utf8::encode_utf8(arg_text(av))))),
                    },
                },
            },
            _ => r matches Ok(None),
        },
        inner@.len() > 3 && is_call_head(vals_view(inner@)[0]) && str_of(vals_view(inner@)[1]) is Some
            && str_of(vals_view(inner@)[2]) is Some ==> (pure_eval(vals_view(inner@)[3], old(env)@, *old(gas) as nat)
                matches Some((ar, ag, ae)) ==> *final(gas) == ag && final(env)@ == ae && match ar {
                    Err(e) => r matches Err(x) && x@ == e,
                    Ok(av) => (r matches Ok(Some(info)) ==> info.args_bytes@ == vstd::utf8::encode_utf8(arg_text(av)))
                        && match ccall_terms(ccall_mode(vals_view(inner@)[0]->Sym_0)->0, vals_view(inner@)) {
                            Err(e) => r matches Err(x) && x@ == e,
                            Ok(_) => r is Ok,
                        },
                }),
{
    proof { lemma_prefix_refl(env@); }
    if inner.len() < 3 {
        return Ok(None);
    }
    let ghost iv = vals_view(inner@);
    proof {
        assert(iv[0] == inner@[0].sv());
        assert(iv[1] == inner@[1].sv());
        assert(iv[2] == inner@[2].sv());
    }
    let func = match &inner[0] {
        LispVal::Sym(f) => f,
        _ => { return Ok(None); },
    };
    let mode = match classify_ccall(func.as_str()) {
        Some(m) => m,
        None => { return Ok(None); },
    };
    let account = match as_str(&inner[1]) { Ok(s) => s, Err(e) => { return Err(e); } };
    let method = match as_str(&inner[2]) { Ok(s) => s, Err(e) => { return Err(e); } };
    let args_bytes: Vec<u8> = if inner.len() > 3 {
        match lisp_eval(&inner[3], env, gas) {
            Ok(LispVal::Str(s)) => str_bytes(s.as_str()),
            Ok(other) => str_bytes(other.to_lisp_string().as_str()),
            Err(e) => { return Err(e); },
        }
    } else {
        str_bytes("{}")
    };
    let (deposit, gas_tgas): (u128, u64) = match mode {
        CcallMode::View => {
            if inner.len() > 4 {
                proof { assert(iv[4] == inner@[4].sv()); }
                let g = match as_str(&inner[4]) { Ok(s) => s, Err(e) => { return Err(e); } };
                match parse_u64(g.as_str()) {
                    Some(t) => (0, t),
                    None => { return Err(String::from_str("near/ccall: invalid gas (must be number in Tgas)")); },
                }
            } else {
                (0, 10)
            }
        },
        CcallMode::Call => {
            if inner.len() <= 4 {
                return Err(String::from_str("near/ccall-call: need deposit (yoctonear string)"));
            }
            proof { assert(iv[4] == inner@[4].sv()); }
            let d = match as_str(&inner[4]) { Ok(s) => s, Err(e) => { return Err(e); } };
            let dep = match parse_u128(d.as_str()) {
                Some(x) => x,
                None => { return Err(String::from_str("near/ccall-call: invalid deposit")); },
            };
            if inner.len() <= 5 {
                return Err(String::from_str("near/ccall-call: need gas (tgas)"));
            }
            proof { assert(iv[5] == inner@[5].sv()); }
            let g = match as_str(&inner[5]) { Ok(s) => s, Err(e) => { return Err(e); } };
            match parse_u64(g.as_str()) {
                Some(t) => (dep, t),
                None => { return Err(String::from_str("near/ccall-call: invalid gas")); },
            }
        },
    };
    Ok(Some(CcallInfo {
        pending_var,
        account,
        method,
        args_bytes,
        deposit,
        gas_tgas,
        null_safe: is_null_safe_ccall(func.as_str()),
    }))
}

/// A list headed by a call name: `(near/ccall ...)` and its kin.
pub open spec fn is_call_head(v: SVal) -> bool {
    v matches SVal::Sym(f) && ccall_mode(f) is Some
}

/// A top-level call: `(define var (near/ccall ...))` or `(near/ccall ...)`,
/// with at least three elements in the call.
pub open spec fn is_ccall_form(e: SVal) -> bool {
    match e {
        SVal::List(l) => l.len() >= 3 && (is_call_head(l[0]) || (l.len() == 3 && l[0] == SVal::Sym("define"@)
            && l[1] is Sym && (l[2] matches SVal::List(inner) && inner.len() >= 3 && is_call_head(inner[0])))),
        _ => false,
    }
}

/// The parts of a top-level call form: the variable a `define` binds, and
/// the call list itself.
pub open spec fn call_parts(e: SVal) -> (Option<Seq<char>>, Seq<SVal>) {
    match e {
        SVal::List(l) => if is_call_head(l[0]) {
            (None, l)
        } else {
            match (l[1], l[2]) {
                (SVal::Sym(v), SVal::List(inner)) => (Some(v), inner),
                _ => (None, l),
            }
        },
        _ => (None, Seq::empty()),
    }
}

/// The account, method, deposit and gas a call form names.
pub open spec fn call_terms_of(e: SVal) -> Result<(Seq<char>, Seq<char>, int, int), Seq<char>> {
    let inner = call_parts(e).1;
    match inner[0] {
        SVal::Sym(f) => match ccall_mode(f) {
            Some(m) => ccall_terms(m, inner),
            None => Err(Seq::empty()),
        },
        _ => Err(Seq::empty()),
    }
}

/// Whether a call form is null-safe (its name ends in `*`).
pub open spec fn call_null_safe(e: SVal) -> bool {
    call_parts(e).1[0] matches SVal::Sym(f) && seq_ends_with(f, seq!['*'])
}

/// The view of an optional name.
pub open spec fn opt_name(o: Option<String>) -> Option<Seq<char>> {
    match o {
        Some(s) => Some(s@),
        None => None,
    }
}

/// `info` is what the call form `e` says: variable, account, method,
/// deposit, gas and null-safety.
pub open spec fn describes(e: SVal, info: CcallInfo) -> bool {
    &&& call_parts(e).0 == opt_name(info.pending_var)
    &&& call_terms_of(e) == Ok::<(Seq<char>, Seq<char>, int, int), Seq<char>>((info.account@, info.method@, info.deposit as int, info.gas_tgas as int))
    &&& info.null_safe == call_null_safe(e)
    &&& call_parts(e).1.len() == 3 ==> info.args_bytes@ == vstd::utf8::encode_utf8("{}"@)
}

/// Finds a top-level call in `expr` (see `is_ccall_form`) and reads it (see
/// `extract_ccall_info`); anything else is `None`, with nothing evaluated.
pub fn check_ccall(expr: &LispVal, env: &mut Env, gas: &mut u64) -> (r: Result<Option<CcallInfo>, String>)
    ensures
        kept(*old(gas), *final(gas), old(env)@, final(env)@),
        r matches Ok(Some(info)) ==> is_ccall_form(expr.sv()) && describes(expr.sv(), info),
        r is Err ==> is_ccall_form(expr.sv()),
        !is_ccall_form(expr.sv()) ==> ((r matches Ok(None)) && *final(gas) == *old(gas) && final(env)@ == old(env)@),
        is_ccall_form(expr.sv()) ==> !(r matches Ok(None)),
        is_ccall_form(expr.sv()) && call_parts(expr.sv()).1.len() == 3 && call_terms_of(expr.sv()) is Ok
            ==> r is Ok && *final(gas) == *old(gas) && final(env)@ == old(env)@,
        is_ccall_form(expr.sv()) && call_parts(expr.sv()).1.len() > 3 && str_of(call_parts(expr.sv()).1[1]) is Some
            && str_of(call_parts(expr.sv()).1[2]) is Some
            ==> (pure_eval(call_parts(expr.sv()).1[3], old(env)@, *old(gas) as nat) matches Some((ar, ag, ae))
                ==> *final(gas) == ag && final(env)@ == ae && match ar {
                    Err(e) => r matches Err(x) && x@ == e,
                    Ok(av) => (r matches Ok(Some(info)) ==> info.args_bytes@ == vstd::utf8::encode_utf8(arg_text(av)))
                        && (call_terms_of(expr.sv()) is Ok ==> r is Ok)
                        && (call_terms_of(expr.sv()) matches Err(e) ==> r matches Err(x) && x@ == e),
                }),
{
    proof { lemma_prefix_refl(env@); }
    let list = match expr {
        LispVal::List(l) => l,
        _ => { return Ok(None); },
    };
    if list.len() < 3 {
        return Ok(None);
    }
    let ghost lv = vals_view(list@);
    proof {
        assert(lv[0] == list@[0].sv());
        assert(lv[1] == list@[1].sv());
        assert(lv[2] == list@[2].sv());
        reveal_strlit("define");
    }
    if list.len() == 3 {
        let is_define = match &list[0] { LispVal::Sym(d) => str_eq(d.as_str(), "define"), _ => false };
        if is_define {
            match (&list[1], &list[2]) {
                (LispVal::Sym(var), LispVal::List(inner)) => {
                    if inner.len() >= 3 {
                        proof { assert(vals_view(inner@)[0] == inner@[0].sv()); }
                        match extract_ccall_info(inner, env, gas, Some(var.clone())) {
                            Ok(Some(info)) => {
                                proof {
                                    reveal_strlit("near/ccall");
                                    reveal_strlit("near/ccall-view");
                                    reveal_strlit("near/ccall-view*");
                                    reveal_strlit("near/ccall-call");
                                    reveal_strlit("near/ccall-call*");
                                    assert(lv[0] == SVal::Sym("define"@));
                                    assert("define"@.len() == 6);
                                    assert(ccall_mode("define"@) is None);
                                    assert(!is_call_head(lv[0]));
                                }
                                return Ok(Some(info));
                            },
                            Ok(None) => {},
                            Err(e) => { return Err(e); },
                        }
                        proof { lemma_prefix_refl(env@); }
                    }
                },
                _ => {},
            }
        }
    }
    extract_ccall_info(list, env, gas, None)
}

/// The name of the `n`-th lifted call's variable.
pub open spec fn tmp_name(n: nat) -> Seq<char> {
    "__ccall_tmp_"@ + nat_to_decimal(n) + "__"@
}

/// Lifts the calls nested in `e`: each call becomes a fresh variable
/// (numbered from `c`) and is listed with it; a `define` whose value is a
/// call is left for `check_ccall`. Returns the rewritten expression, the
/// next number, and the lifted calls in order.
pub open spec fn lift(e: SVal, c: nat) -> (SVal, nat, Seq<(Seq<char>, SVal)>)
    decreases e, 1nat,
{
    match e {
        SVal::List(l) => if l.len() == 0 {
            (e, c, Seq::empty())
        } else if is_call_head(l[0]) {
            if c < usize::MAX { (SVal::Sym(tmp_name(c)), c + 1, seq![(tmp_name(c), e)]) } else { (e, c, Seq::empty()) }
        } else if l[0] == SVal::Sym("define"@) && l.len() == 3 && (l[2] matches SVal::List(b) && b.len() > 0 && is_call_head(b[0])) {
            (e, c, Seq::empty())
        } else {
            let (items, c2, lifted) = lift_items(l, c);
            (SVal::List(items), c2, lifted)
        },
        _ => (e, c, Seq::empty()),
    }
}

/// `lift` over the elements of a list, left to right.
pub open spec fn lift_items(l: Seq<SVal>, c: nat) -> (Seq<SVal>, nat, Seq<(Seq<char>, SVal)>)
    decreases l, 0nat,
{
    if l.len() == 0 {
        (Seq::empty(), c, Seq::empty())
    } else {
        let (items, c1, ls1) = lift_items(l.drop_last(), c);
        let (x, c2, ls2) = lift(l.last(), c1);
        (items.push(x), c2, ls1 + ls2)
    }
}

fn tmp_name_exec(n: usize) -> (s: String)
    ensures
        s@ == tmp_name(n as nat),
{
    let mut out: Vec<char> = Vec::new();
    push_str(&mut out, "__ccall_tmp_");
    push_all(&mut out, &nat_digits(n as u64));
    push_str(&mut out, "__");
    chars_to_string(&out)
}

fn call_head(v: &LispVal) -> (r: bool)
    ensures
        r == is_call_head(v.sv()),
{
    match v {
        LispVal::Sym(f) => classify_ccall(f.as_str()).is_some(),
        _ => false,
    }
}

/// Lifts the calls nested in an expression (see `lift`), appending them to
/// `lifts` and numbering them from `counter`.
pub fn lift_nested_ccalls(expr: LispVal, counter: &mut usize, lifts: &mut Vec<(String, LispVal)>) -> (r: LispVal)
    ensures
        (r.sv(), *final(counter) as nat, binds_view(final(lifts)@))
            == ({
                let (x, c, ls) = lift(expr.sv(), *old(counter) as nat);
                (x, c, binds_view(old(lifts)@) + ls)
            }),
    decreases expr.sv(), 1nat,
{
    let ghost ev = expr.sv();
    let ghost c0 = *counter as nat;
    let ghost l0 = binds_view(lifts@);
    match &expr {
        LispVal::List(list) => {
            let ghost lv = vals_view(list@);
            if list.len() == 0 {
                assert(binds_view(lifts@) =~= l0 + Seq::<(Seq<char>, SVal)>::empty());
                return expr;
            }
            proof { assert(lv[0] == list@[0].sv()); reveal_strlit("define"); }
            if call_head(&list[0]) {
                if *counter == usize::MAX {
                    assert(binds_view(lifts@) =~= l0 + Seq::<(Seq<char>, SVal)>::empty());
                    return expr;
                }
                let name = tmp_name_exec(*counter);
                *counter = *counter + 1;
                let ghost before = lifts@;
                lifts.push((name.clone(), expr.deep_clone()));
                assert(binds_view(lifts@) =~= l0 + seq![(tmp_name(c0), ev)]);
                return LispVal::Sym(name);
            }
            let is_define = match &list[0] { LispVal::Sym(d) => str_eq(d.as_str(), "define"), _ => false };
            if is_define && list.len() == 3 {
                proof { assert(lv[2] == list@[2].sv()); }
                if let LispVal::List(body) = &list[2] {
                    if body.len() > 0 {
                        proof { assert(vals_view(body@)[0] == body@[0].sv()); }
                        if call_head(&body[0]) {
                            assert(binds_view(lifts@) =~= l0 + Seq::<(Seq<char>, SVal)>::empty());
                            return expr;
                        }
                    }
                }
            }
            let mut items: Vec<LispVal> = Vec::new();
            let mut i: usize = 0;
            assert(lv.take(0) =~= Seq::<SVal>::empty());
            assert(binds_view(lifts@) =~= l0 + Seq::<(Seq<char>, SVal)>::empty());
            assert(vals_view(items@) =~= Seq::<SVal>::empty());
            while i < list.len()
                invariant
                    i <= list@.len(),
                    lv == vals_view(list@),
                    ev == SVal::List(lv),
                    ev == expr.sv(),
                    ({
                        let (its, c, ls) = lift_items(lv.take(i as int), c0);
                        vals_view(items@) == its && *counter as nat == c && binds_view(lifts@) == l0 + ls
                    }),
                decreases list.len() - i,
            {
                proof {
                    assert(lv.take(i + 1).drop_last() =~= lv.take(i as int));
                    assert(lv.take(i + 1).last() == list@[i as int].sv());
                    assert(ev->List_0 == lv);
                    assert(decreases_to!(ev => ev->List_0));
                    assert(decreases_to!(lv => lv[i as int]));
                }
                let ghost l1 = binds_view(lifts@);
                let ghost its0 = vals_view(items@);
                let x = lift_nested_ccalls(list[i].deep_clone(), counter, lifts);
                let ghost xv = x.sv();
                items.push(x);
                proof {
                    assert(vals_view(items@) =~= its0.push(xv));
                    let (a, b, c) = lift_items(lv.take(i as int), c0);
                    let (y, d, e) = lift(lv[i as int], b);
                    assert(binds_view(lifts@) =~= l0 + (c + e));
                }
                i += 1;
            }
            assert(lv.take(i as int) =~= lv);
            LispVal::List(items)
        },
        _ => {
            assert(binds_view(lifts@) =~= l0 + Seq::<(Seq<char>, SVal)>::empty());
            expr
        },
    }
}

/// `(define name call)`.
pub open spec fn define_of(p: (Seq<char>, SVal)) -> SVal {
    SVal::List(seq![SVal::Sym("define"@), SVal::Sym(p.0), p.1])
}

/// The `define`s that bind lifted calls to their variables, in order.
pub open spec fn defines_of(ls: Seq<(Seq<char>, SVal)>) -> Seq<SVal> {
    Seq::new(ls.len(), |i: int| define_of(ls[i]))
}

/// A call written directly at the top level: it stays where it is, for
/// `check_ccall` to find.
pub open spec fn top_level_call(e: SVal) -> bool {
    e matches SVal::List(l) && l.len() > 0 && is_call_head(l[0])
}

/// A program with every nested call lifted: each expression is preceded by
/// the `define`s of the calls lifted out of it; the numbering runs on from
/// one expression to the next, starting at `c`. A call written directly at
/// the top level is left as it is.
pub open spec fn lift_all(es: Seq<SVal>, c: nat) -> (Seq<SVal>, nat)
    decreases es.len(),
{
    if es.len() == 0 {
        (Seq::empty(), c)
    } else {
        let (out, c1) = lift_all(es.drop_last(), c);
        if top_level_call(es.last()) {
            (out.push(es.last()), c1)
        } else {
            let (x, c2, ls) = lift(es.last(), c1);
            (out + defines_of(ls) + seq![x], c2)
        }
    }
}

fn define_call(name: &String, call: &LispVal) -> (r: LispVal)
    ensures
        r.sv() == define_of((name@, call.sv())),
{
    let mut items: Vec<LispVal> = Vec::new();
    items.push(LispVal::Sym(String::from_str("define")));
    items.push(LispVal::Sym(name.clone()));
    items.push(call.deep_clone());
    proof {
        reveal_strlit("define");
        assert(vals_view(items@) =~= seq![SVal::Sym("define"@), SVal::Sym(name@), call.sv()]);
    }
    LispVal::List(items)
}

/// Lifts the calls nested anywhere in a program to the top level (see
/// `lift_all`), numbering them from 0.
pub fn lift_all_ccalls(exprs: Vec<LispVal>) -> (r: Vec<LispVal>)
    ensures
        vals_view(r@) == lift_all(vals_view(exprs@), 0).0,
{
    let ghost ev = vals_view(exprs@);
    let mut counter: usize = 0;
    let mut result: Vec<LispVal> = Vec::new();
    let mut i: usize = 0;
    assert(ev.take(0) =~= Seq::<SVal>::empty());
    assert(vals_view(result@) =~= Seq::<SVal>::empty());
    while i < exprs.len()
        invariant
            i <= exprs@.len(),
            ev == vals_view(exprs@),
            ({
                let (out, c) = lift_all(ev.take(i as int), 0);
                vals_view(result@) == out && counter as nat == c
            }),
        decreases exprs.len() - i,
    {
        proof {
            assert(ev.take(i + 1).drop_last() =~= ev.take(i as int));
            assert(ev.take(i + 1).last() == exprs@[i as int].sv());
        }
        let ghost base = vals_view(result@);
        let is_top_call = match &exprs[i] {
            LispVal::List(l) => {
                if l.len() > 0 {
                    proof { assert(vals_view(l@)[0] == l@[0].sv()); }
                    call_head(&l[0])
                } else {
                    false
                }
            },
            _ => false,
        };
        if is_top_call {
            result.push(exprs[i].deep_clone());
            proof {
                assert(vals_view(result@) =~= base.push(exprs@[i as int].sv()));
            }
            i += 1;
            continue;
        }
        let mut lifts: Vec<(String, LispVal)> = Vec::new();
        assert(binds_view(lifts@) =~= Seq::<(Seq<char>, SVal)>::empty());
        let rewritten = lift_nested_ccalls(exprs[i].deep_clone(), &mut counter, &mut lifts);
        let ghost ls = binds_view(lifts@);
        assert(Seq::<(Seq<char>, SVal)>::empty() + ls =~= ls);
        let mut j: usize = 0;
        assert(defines_of(ls.take(0)) =~= Seq::<SVal>::empty());
        assert(base + Seq::<SVal>::empty() =~= base);
        while j < lifts.len()
            invariant
                j <= lifts@.len(),
                ls == binds_view(lifts@),
                vals_view(result@) == base + defines_of(ls.take(j as int)),
            decreases lifts.len() - j,
        {
            let d = define_call(&lifts[j].0, &lifts[j].1);
            let ghost before = vals_view(result@);
            result.push(d);
            proof {
                assert(ls[j as int] == (lifts@[j as int].0@, lifts@[j as int].1.sv()));
                assert(defines_of(ls.take(j + 1)) =~= defines_of(ls.take(j as int)).push(define_of(ls[j as int])));
                assert(vals_view(result@) =~= before.push(d.sv()));
            }
            j += 1;
        }
        let ghost mid = vals_view(result@);
        result.push(rewritten);
        proof {
            assert(ls.take(j as int) =~= ls);
            assert(vals_view(result@) =~= mid.push(rewritten.sv()));
            assert(vals_view(result@) =~= base + defines_of(ls) + seq![rewritten.sv()]);
        }
        i += 1;
    }
    assert(ev.take(i as int) =~= ev);
    result
}

/// Runs a program without cross-contract calls: reads it, evaluates each
/// expression in turn against `env` with `gas_limit` units of gas, and
/// returns the printed value of the last one (`nil` for an empty program).
/// A text that does not read fails with the reader's error; with no gas a
/// program fails with `out of gas`; a program of literals gives its last
/// literal when each has its unit of gas.
pub fn run_program(code: &str, env: &mut Env, gas_limit: u64) -> (r: Result<String, String>)
    ensures
        env_prefix(old(env)@, final(env)@),
        match parse_program(code@) {
            Err(e) => (r matches Err(x) && x@ == e) && final(env)@ == old(env)@,
            Ok(vs) => {
                &&& vs.len() == 0 ==> (r matches Ok(s) && s@ == "nil"@)
                &&& vs.len() > 0 && gas_limit == 0 ==> (r matches Err(x) && x@ == "out of gas"@)
                &&& vs.len() > 0 && gas_limit >= vs.len() && (forall|i: int| 0 <= i < vs.len() ==> atom(#[trigger] vs[i]))
                    ==> (r matches Ok(s) && s@ == display(vs.last()))
                &&& match pure_run(vs, 0, old(env)@, gas_limit as nat, SVal::Nil) {
                    Some((Ok(v), e1)) => (r matches Ok(s) && s@ == display(v)) && final(env)@ == e1,
                    Some((Err(e), e1)) => (r matches Err(x) && x@ == e) && final(env)@ == e1,
                    None => true,
                }
            },
        },
{
    proof { lemma_prefix_refl(env@); }
    let exprs = match parse_all(code) {
        Ok(v) => v,
        Err(e) => { return Err(e); },
    };
    let ghost vs = vals_view(exprs@);
    let ghost e0 = env@;
    let mut gas = gas_limit;
    let mut result = LispVal::Nil;
    let mut i: usize = 0;
    while i < exprs.len()
        invariant
            i <= exprs@.len(),
            vs == vals_view(exprs@),
            e0 == old(env)@,
            env_prefix(e0, env@),
            i == 0 ==> gas == gas_limit && result.sv() == SVal::Nil,
            (forall|j: int| 0 <= j < i ==> atom(#[trigger] vs[j])) ==> gas == gas_limit - i
                && (i > 0 ==> result.sv() == vs[i - 1]),
            gas_limit >= i || !(forall|j: int| 0 <= j < i ==> atom(#[trigger] vs[j])),
            parse_program(code@) == Ok::<Seq<SVal>, Seq<char>>(vs),
            gas_limit == 0 ==> i == 0,
            pure_run(vs, 0, e0, gas_limit as nat, SVal::Nil) is Some
                ==> pure_run(vs, i as int, env@, gas as nat, result.sv()) == pure_run(vs, 0, e0, gas_limit as nat, SVal::Nil),
        decreases exprs.len() - i,
    {
        let ghost e1 = env@;
        let ghost g1 = gas;
        proof { assert(vs[i as int] == exprs@[i as int].sv()); }
        result = match lisp_eval(&exprs[i], env, &mut gas) {
            Ok(v) => v,
            Err(e) => {
                proof {
                    lemma_prefix_trans(e0, e1, env@);
                    if (forall|j: int| 0 <= j < vs.len() ==> atom(#[trigger] vs[j])) {
                        assert(forall|j: int| 0 <= j < i ==> atom(#[trigger] vs[j]));
                        assert(atom(vs[i as int]));
                    }
                }
                return Err(e);
            },
        };
        proof {
            lemma_prefix_trans(e0, e1, env@);
            if forall|j: int| 0 <= j < i + 1 ==> atom(#[trigger] vs[j]) {
                assert(atom(vs[i as int]));
                assert(forall|j: int| 0 <= j < i ==> atom(#[trigger] vs[j]));
            }
        }
        i += 1;
    }
    let s = result.to_lisp_string();
    proof {
        reveal_strlit("nil");
        if vs.len() > 0 && (forall|j: int| 0 <= j < vs.len() ==> atom(#[trigger] vs[j])) {
            assert(vs[vs.len() - 1] == vs.last());
        }
    }
    Ok(s)
}

/// The position of the first call form of `ev` from `i` on (the length when
/// there is none).
pub open spec fn first_call(ev: Seq<SVal>, i: int) -> int
    decreases ev.len() - i,
{
    if i < 0 || i >= ev.len() {
        ev.len() as int
    } else if is_ccall_form(ev[i]) {
        i
    } else {
        first_call(ev, i + 1)
    }
}

/// `first_call` lies between `i` and the end.
pub proof fn lemma_first_call_range(ev: Seq<SVal>, i: int)
    requires
        0 <= i <= ev.len(),
    ensures
        i <= first_call(ev, i) <= ev.len(),
        first_call(ev, i) < ev.len() ==> is_ccall_form(ev[first_call(ev, i)]),
    decreases ev.len() - i,
{
    if i < ev.len() && !is_ccall_form(ev[i]) {
        lemma_first_call_range(ev, i + 1);
    }
}

/// `y`, with variable `var` and null-safety `flag`, is what the call form
/// `e` says.
pub open spec fn yield_describes(e: SVal, y: CcallYield, var: Option<String>, flag: bool) -> bool {
    &&& call_parts(e).0 == opt_name(var)
    &&& call_terms_of(e) == Ok::<(Seq<char>, Seq<char>, int, int), Seq<char>>((y.account@, y.method@, y.deposit as int, y.gas_tgas as int))
    &&& flag == call_null_safe(e)
    &&& call_parts(e).1.len() == 3 ==> y.args_bytes@ == vstd::utf8::encode_utf8("{}"@)
}

/// A batch of calls: the `n` expressions of `ev` before position `k` are
/// call forms, and `yields`, `vars` and `flags` say what each of them says.
pub open spec fn batch_of(ev: Seq<SVal>, k: int, yields: Seq<CcallYield>, vars: Seq<Option<String>>, flags: Seq<bool>) -> bool {
    let b = yields.len() as int;
    &&& vars.len() == b && flags.len() == b
    &&& 0 < b <= k <= ev.len()
    &&& forall|i: int| 0 <= i < b ==> is_ccall_form(#[trigger] ev[k - b + i])
        && yield_describes(ev[k - b + i], yields[i], vars[i], flags[i])
}

/// What a run of `ev` can end in: `Done` only when no expression is a call
/// form; `Yield` after evaluating the expressions before the first call
/// form, with the batch of consecutive call forms that starts there, the
/// expressions after it, and the state the batch left.
pub open spec fn run_outcome(ev: Seq<SVal>, r: RunResult, gas1: u64, env1: Seq<(Seq<char>, SVal)>) -> bool {
    match r {
        RunResult::Done(s) => (forall|j: int| 0 <= j < ev.len() ==> !is_ccall_form(#[trigger] ev[j]))
            && (ev.len() == 0 ==> s@ == "nil"@)
            && (ev.len() > 0 && atom(ev.last()) ==> s@ == display(ev.last())),
        RunResult::Yield { yields, state } => {
            let k = ev.len() - state.remaining@.len();
            let b = yields@.len() as int;
            &&& batch_of(ev, k, yields@, state.pending_vars@, state.null_safe_flags@)
            &&& vals_view(state.remaining@) == ev.skip(k)
            &&& (k < ev.len() ==> !is_ccall_form(ev[k]))
            &&& forall|j: int| 0 <= j < k - b ==> !is_ccall_form(#[trigger] ev[j])
            &&& state.gas == gas1
            &&& state.env@ == env1
            &&& state.callback is None
        },
    }
}

fn yield_of(info: &CcallInfo) -> (y: CcallYield)
    ensures
        y.account@ == info.account@,
        y.method@ == info.method@,
        y.args_bytes@ == info.args_bytes@,
        y.deposit == info.deposit,
        y.gas_tgas == info.gas_tgas,
{
    CcallYield {
        account: info.account.clone(),
        method: info.method.clone(),
        args_bytes: info.args_bytes.clone(),
        deposit: info.deposit,
        gas_tgas: info.gas_tgas,
    }
}

/// Every call form from position `k` on names its account and method as
/// strings, has valid deposit and gas terms (see `call_terms_of`) and no
/// argument expression, so reading it evaluates nothing and cannot fail.
pub open spec fn calls_ready(ev: Seq<SVal>, k: int) -> bool {
    forall|j: int| k <= j < ev.len() && #[trigger] is_ccall_form(ev[j])
        ==> call_parts(ev[j]).1.len() == 3 && call_terms_of(ev[j]) is Ok
}

/// Runs parsed expressions that may contain calls: evaluates those before
/// the first call form, then collects the consecutive call forms from there
/// as one batch and yields with what is left (see `run_outcome`). With no
/// call form the run is `Done` with the printed value of the last result.
/// The expressions before the first call form are evaluated as
/// `pure_block` says: its failure is the run's, and its value is the
/// printed answer when no call form follows.
pub fn run_remaining_with_ccall(exprs: &[LispVal], env: &mut Env, gas: &mut u64) -> (r: Result<RunResult, String>)
    ensures
        kept(*old(gas), *final(gas), old(env)@, final(env)@),
        r matches Ok(res) ==> run_outcome(vals_view(exprs@), res, *final(gas), final(env)@),
        exprs@.len() == 0 ==> r is Ok,
        *old(gas) == 0 && exprs@.len() > 0 && !is_ccall_form(exprs@[0].sv())
            ==> (r matches Err(e) && e@ == "out of gas"@),
        ({
            let ev = vals_view(exprs@);
            let k = first_call(ev, 0);
            pure_block(ev.take(k), 0, old(env)@, *old(gas) as nat, SVal::Nil) matches Some((pr, pg, pe)) ==> match pr {
                Err(e) => (r matches Err(x) && x@ == e) && *final(gas) == pg && final(env)@ == pe,
                Ok(v) => k == ev.len() ==> (r matches Ok(RunResult::Done(s)) && s@ == display(v)) && *final(gas) == pg && final(env)@ == pe,
            }
        }),
        ({
            let ev = vals_view(exprs@);
            let k = first_call(ev, 0);
            (pure_block(ev.take(k), 0, old(env)@, *old(gas) as nat, SVal::Nil) matches Some((Ok(_), _, _)))
                && k < ev.len() && calls_ready(ev, k) ==> r matches Ok(RunResult::Yield { .. })
        }),
{
    let ghost ev = vals_view(exprs@);
    let ghost g0 = *gas;
    let ghost e0 = env@;
    proof { lemma_prefix_refl(e0); }
    let mut pos: usize = 0;
    let mut last = LispVal::Nil;
    let mut stopped = false;
    let ghost k0 = first_call(ev, 0);
    let ghost pre = ev.take(k0);
    let ghost pb = pure_block(pre, 0, e0, g0 as nat, SVal::Nil);
    let ghost mut g_stop: u64 = 0;
    let ghost mut e_stop: Seq<(Seq<char>, SVal)> = e0;
    proof { lemma_first_call_range(ev, 0); }
    while pos < exprs.len() && !stopped
        invariant
            pos <= exprs@.len(),
            k0 == first_call(ev, 0),
            pre == ev.take(k0),
            pb == pure_block(pre, 0, e0, g0 as nat, SVal::Nil),
            !stopped ==> first_call(ev, pos as int) == k0 && pos <= k0,
            stopped ==> pos == k0,
            !stopped && pb is Some ==> pure_block(pre, pos as int, env@, *gas as nat, last.sv()) == pb,
            stopped && pb is Some ==> pure_block(pre, pos as int, e_stop, g_stop as nat, last.sv()) == pb,
            ev == vals_view(exprs@),
            g0 == *old(gas),
            e0 == old(env)@,
            kept(g0, *gas, e0, env@),
            forall|j: int| 0 <= j < pos ==> !is_ccall_form(#[trigger] ev[j]),
            stopped ==> pos < exprs@.len() && is_ccall_form(ev[pos as int]),
            pos == 0 ==> last.sv() == SVal::Nil,
            pos == 0 && !stopped ==> *gas == g0,
            g0 == 0 && ev.len() > 0 && !is_ccall_form(ev[0]) ==> pos == 0 && !stopped,
            pos > 0 && atom(ev[pos - 1]) ==> last.sv() == ev[pos - 1],
        decreases exprs.len() - pos, if stopped { 0int } else { 1int },
    {
        let ghost g1 = *gas;
        let ghost e1 = env@;
        proof { assert(ev[pos as int] == exprs@[pos as int].sv()); }
        match check_ccall(&exprs[pos], env, gas) {
            Ok(Some(_)) => {
                proof {
                    lemma_prefix_trans(e0, e1, env@);
                    g_stop = g1;
                    e_stop = e1;
                }
                stopped = true;
            },
            Ok(None) => {
                let ghost e2 = env@;
                proof {
                    lemma_first_call_range(ev, pos + 1);
                    assert(pre[pos as int] == ev[pos as int]);
                }
                match lisp_eval(&exprs[pos], env, gas) {
                    Ok(v) => { last = v; },
                    Err(e) => {
                        proof { lemma_prefix_trans(e0, e2, env@); }
                        return Err(e);
                    },
                }
                proof { lemma_prefix_trans(e0, e2, env@); }
                pos += 1;
            },
            Err(e) => {
                proof { lemma_prefix_trans(e0, e1, env@); }
                return Err(e);
            },
        }
    }
    let ghost g_pre = if stopped { g_stop } else { *gas };
    let ghost e_pre = if stopped { e_stop } else { env@ };
    proof {
        if !stopped {
            assert(pos == exprs@.len());
            lemma_first_call_range(ev, pos as int);
        }
        assert(pre.len() == k0) by { lemma_first_call_range(ev, 0); }
        if pb is Some {
            assert(pure_block(pre, pos as int, e_pre, g_pre as nat, last.sv()) == Some((Ok::<SVal, Seq<char>>(last.sv()), g_pre as nat, e_pre)));
        }
    }
    let mut yields: Vec<CcallYield> = Vec::new();
    let mut pending_vars: Vec<Option<String>> = Vec::new();
    let mut null_safe_flags: Vec<bool> = Vec::new();
    let mut q: usize = pos;
    let mut ended = false;
    while q < exprs.len() && !ended
        invariant
            pos <= q <= exprs@.len(),
            ev == vals_view(exprs@),
            e0 == old(env)@,
            g0 == *old(gas),
            kept(g0, *gas, e0, env@),
            forall|j: int| 0 <= j < pos ==> !is_ccall_form(#[trigger] ev[j]),
            stopped ==> pos < exprs@.len() && is_ccall_form(ev[pos as int]),
            !stopped ==> pos == exprs@.len(),
            !(g0 == 0 && ev.len() > 0 && !is_ccall_form(ev[0])),
            pos > 0 && atom(ev[pos - 1]) ==> last.sv() == ev[pos - 1],
            pos == 0 ==> last.sv() == SVal::Nil,
            yields@.len() == q - pos,
            pending_vars@.len() == q - pos,
            null_safe_flags@.len() == q - pos,
            forall|i: int| 0 <= i < q - pos ==> is_ccall_form(#[trigger] ev[pos + i])
                && yield_describes(ev[pos + i], yields@[i], pending_vars@[i], null_safe_flags@[i]),
            ended ==> q < exprs@.len() && !is_ccall_form(ev[q as int]) && q > pos,
            stopped ==> k0 == pos && k0 < ev.len(),
            !stopped ==> k0 == ev.len(),
            k0 == first_call(ev, 0),
            pre == ev.take(k0),
            pb == pure_block(pre, 0, e0, g0 as nat, SVal::Nil),
            !stopped ==> *gas == g_pre && env@ == e_pre,
            pb is Some ==> pb == Some((Ok::<SVal, Seq<char>>(last.sv()), g_pre as nat, e_pre)),
        decreases exprs.len() - q, if ended { 0int } else { 1int },
    {
        let ghost e1 = env@;
        proof { assert(ev[q as int] == exprs@[q as int].sv()); }
        match check_ccall(&exprs[q], env, gas) {
            Ok(Some(info)) => {
                proof { lemma_prefix_trans(e0, e1, env@); }
                let y = yield_of(&info);
                let CcallInfo { pending_var, null_safe, .. } = info;
                yields.push(y);
                pending_vars.push(pending_var);
                null_safe_flags.push(null_safe);
                q += 1;
            },
            Ok(None) => {
                ended = true;
            },
            Err(e) => {
                proof { lemma_prefix_trans(e0, e1, env@); }
                return Err(e);
            },
        }
    }
    if yields.len() == 0 {
        proof {
            assert(!stopped);
            assert(pos == exprs@.len());
            if exprs@.len() > 0 && atom(ev.last()) {
                assert(ev[pos - 1] == ev.last());
            }
            reveal_strlit("nil");
            assert(forall|j: int| 0 <= j < ev.len() ==> !is_ccall_form(#[trigger] ev[j]));
            assert(ev.len() == 0 ==> display(last.sv()) == "nil"@);
        }
        let s = last.to_lisp_string();
        proof {
            assert(ev.len() == 0 ==> s@ == "nil"@);
            assert(ev.len() > 0 && atom(ev.last()) ==> s@ == display(ev.last()));
        }
        return Ok(RunResult::Done(s));
    }
    let mut remaining: Vec<LispVal> = Vec::new();
    let mut t: usize = q;
    while t < exprs.len()
        invariant
            q <= t <= exprs@.len(),
            ev == vals_view(exprs@),
            vals_view(remaining@) == ev.subrange(q as int, t as int),
        decreases exprs.len() - t,
    {
        let ghost before = vals_view(remaining@);
        remaining.push(exprs[t].deep_clone());
        proof {
            assert(vals_view(remaining@) =~= before.push(ev[t as int]));
            assert(ev.subrange(q as int, t + 1) =~= ev.subrange(q as int, t as int).push(ev[t as int]));
        }
        t += 1;
    }
    proof {
        assert(ev.subrange(q as int, exprs@.len() as int) =~= ev.skip(q as int));
        assert(remaining@.len() == exprs@.len() - q);
        let k = q as int;
        let b = yields@.len() as int;
        assert(k - b == pos);
        assert forall|i: int| 0 <= i < b implies is_ccall_form(#[trigger] ev[k - b + i])
            && yield_describes(ev[k - b + i], yields@[i], pending_vars@[i], null_safe_flags@[i]) by {
            assert(k - b + i == pos + i);
        }
    }
    Ok(RunResult::Yield {
        yields,
        state: VmState {
            remaining,
            env: env.deep_clone(),
            gas: *gas,
            pending_vars,
            null_safe_flags,
            callback: None,
        },
    })
}

/// Runs a program that may contain calls: reads it, lifts nested calls to
/// the top level (see `lift_all`), and runs the result from `gas_limit`
/// (see `run_remaining_with_ccall`).
pub fn run_program_with_ccall(code: &str, env: &mut Env, gas_limit: u64) -> (r: Result<RunResult, String>)
    ensures
        env_prefix(old(env)@, final(env)@),
        match parse_program(code@) {
            Err(e) => (r matches Err(x) && x@ == e) && final(env)@ == old(env)@,
            Ok(vs) => (r matches Ok(res) ==> exists|g: u64| g <= gas_limit
                && #[trigger] run_outcome(lift_all(vs, 0).0, res, g, final(env)@))
                && ({
                    let ev = lift_all(vs, 0).0;
                    let k = first_call(ev, 0);
                    pure_block(ev.take(k), 0, old(env)@, gas_limit as nat, SVal::Nil) matches Some((pr, _, pe)) ==> match pr {
                        Err(e) => (r matches Err(x) && x@ == e) && final(env)@ == pe,
                        Ok(v) => k == ev.len() ==> (r matches Ok(RunResult::Done(s)) && s@ == display(v)) && final(env)@ == pe,
                    }
                })
                && ({
                    let ev = lift_all(vs, 0).0;
                    let k = first_call(ev, 0);
                    (pure_block(ev.take(k), 0, old(env)@, gas_limit as nat, SVal::Nil) matches Some((Ok(_), _, _)))
                        && k < ev.len() && calls_ready(ev, k) ==> r matches Ok(RunResult::Yield { .. })
                }),
        },
        r matches Ok(RunResult::Yield { yields, state }) ==> yields@.len() > 0 && state.gas <= gas_limit
            && state.pending_vars@.len() == yields@.len() && state.null_safe_flags@.len() == yields@.len()
            && state.callback is None,
{
    proof { lemma_prefix_refl(env@); }
    let exprs = match parse_all(code) {
        Ok(v) => v,
        Err(e) => { return Err(e); },
    };
    let lifted = lift_all_ccalls(exprs);
    let mut gas = gas_limit;
    let r = run_remaining_with_ccall(lifted.as_slice(), env, &mut gas);
    proof {
        if r is Ok {
            assert(run_outcome(vals_view(lifted@), r->Ok_0, gas, env@));
        }
    }
    r
}

/// How a text that should hold one expression failed to read: its reader
/// error, quoted.
pub open spec fn parse_error_text(e: Seq<char>) -> Seq<char> {
    "parse error: \""@ + e + "\""@
}

/// Reads a text that should hold exactly one expression.
fn read_one(code: &str, count_in_message: bool) -> (r: Result<LispVal, String>)
    ensures
        match parse_program(code@) {
            Err(e) => r matches Err(x) && x@ == parse_error_text(e),
            Ok(vs) => if vs.len() == 1 {
                r matches Ok(v) && v.sv() == vs[0]
            } else if count_in_message {
                r matches Err(x) && x@ == "expected 1 expr, got "@ + nat_to_decimal(vs.len())
            } else {
                r matches Err(x) && x@ == "expected 1 expr"@
            },
        },
{
    let mut exprs = match parse_all(code) {
        Ok(v) => v,
        Err(e) => {
            let mut out: Vec<char> = Vec::new();
            push_str(&mut out, "parse error: \"");
            push_str(&mut out, e.as_str());
            push_str(&mut out, "\"");
            return Err(chars_to_string(&out));
        },
    };
    if exprs.len() != 1 {
        if count_in_message {
            let mut out: Vec<char> = Vec::new();
            push_str(&mut out, "expected 1 expr, got ");
            push_all(&mut out, &nat_digits(exprs.len() as u64));
            return Err(chars_to_string(&out));
        }
        return Err(String::from_str("expected 1 expr"));
    }
    let v = exprs.pop().unwrap();
    proof { assert(vals_view(exprs@.push(v)) =~= vals_view(exprs@).push(v.sv())); }
    Ok(v)
}

/// Evaluates a text of exactly one expression in a fresh environment with
/// `gas_limit`, and reports the gas used (0 when the text does not read as
/// one expression).
pub fn eval_with_gas(code: &str, gas_limit: u64) -> (r: (Result<LispVal, String>, u64))
    ensures
        match parse_program(code@) {
            Err(e) => (r.0 matches Err(x) && x@ == parse_error_text(e)) && r.1 == 0,
            Ok(vs) => if vs.len() == 1 {
                &&& r.1 <= gas_limit
                &&& gas_limit > 0 ==> r.1 >= 1
                &&& gas_limit == 0 ==> (r.0 matches Err(x) && x@ == "out of gas"@)
                &&& atom(vs[0]) && gas_limit > 0 ==> (r.0 matches Ok(v) && v.sv() == vs[0]) && r.1 == 1
            } else {
                (r.0 matches Err(x) && x@ == "expected 1 expr"@) && r.1 == 0
            },
        },
{
    let expr = match read_one(code, false) {
        Ok(v) => v,
        Err(e) => { return (Err(e), 0); },
    };
    let mut env = Env::new();
    let mut gas = gas_limit;
    let result = lisp_eval(&expr, &mut env, &mut gas);
    (result, gas_limit - gas)
}

/// Evaluates a text of exactly one expression in a fresh environment with
/// 10^14 units of gas.
pub fn eval_single(code: &str) -> (r: Result<LispVal, String>)
    ensures
        match parse_program(code@) {
            Err(e) => r matches Err(x) && x@ == parse_error_text(e),
            Ok(vs) => if vs.len() == 1 {
                atom(vs[0]) ==> (r matches Ok(v) && v.sv() == vs[0])
            } else {
                r matches Err(x) && x@ == "expected 1 expr, got "@ + nat_to_decimal(vs.len())
            },
        },
{
    let expr = match read_one(code, true) {
        Ok(v) => v,
        Err(e) => { return Err(e); },
    };
    let mut env = Env::new();
    let mut gas: u64 = 100_000_000_000_000;
    lisp_eval(&expr, &mut env, &mut gas)
}

} // verus!
