//! Value helpers shared by the evaluator: truthiness, coercions, arithmetic,
//! parameter lists and pattern matching.
use vstd::prelude::*;
use crate::text::{str_eq, int_to_decimal, i64_to_string, chars_to_string, str_to_chars};
use crate::types::{LispVal, SVal, Env, lookup, lemma_sv_unfold, vals_view, binds_view, strings_view, val_eq};
use crate::display::{display, display_into, push_str};

verus! {

broadcast use lemma_sv_unfold;

/// The names that `dispatch_call` implements natively; a symbol with one of
/// these names evaluates to itself, so builtins can be passed as values.
pub open spec fn builtin_name(n: Seq<char>) -> bool {
    n == "+"@ || n == "-"@ || n == "*"@ || n == "/"@ || n == "mod"@ || n == "="@ || n == "=="@
    || n == "!="@ || n == "/="@ || n == "<"@ || n == ">"@ || n == "<="@ || n == ">="@
    || n == "list"@ || n == "car"@ || n == "cdr"@ || n == "cons"@ || n == "len"@ || n == "append"@
    || n == "nth"@ || n == "str-concat"@ || n == "str-contains"@ || n == "to-string"@
    || n == "str-length"@ || n == "str-substring"@ || n == "str-split"@ || n == "str-trim"@
    || n == "str-index-of"@ || n == "str-upcase"@ || n == "str-downcase"@
    || n == "str-starts-with"@ || n == "str-ends-with"@ || n == "str="@ || n == "str!="@
    || n == "nil?"@ || n == "list?"@ || n == "number?"@ || n == "string?"@ || n == "map?"@
    || n == "bool?"@ || n == "to-float"@ || n == "to-int"@ || n == "to-num"@ || n == "type?"@
    || n == "dict"@ || n == "dict/get"@ || n == "dict/set"@ || n == "dict/has?"@
    || n == "dict/keys"@ || n == "dict/vals"@ || n == "dict/remove"@ || n == "dict/merge"@
    || n == "error"@ || n == "empty?"@ || n == "range"@ || n == "reverse"@ || n == "sort"@
    || n == "zip"@ || n == "map"@ || n == "filter"@ || n == "reduce"@ || n == "find"@
    || n == "some"@ || n == "every"@ || n == "to-json"@ || n == "from-json"@ || n == "fmt"@
    || n == "inspect"@ || n == "sha256"@ || n == "keccak256"@
}

/// Whether `name` is a natively dispatched builtin.
pub fn is_builtin_name(name: &str) -> (r: bool)
    ensures
        r == builtin_name(name@),
{
    str_eq(name, "+") || str_eq(name, "-") || str_eq(name, "*") || str_eq(name, "/")
    || str_eq(name, "mod") || str_eq(name, "=") || str_eq(name, "==") || str_eq(name, "!=")
    || str_eq(name, "/=") || str_eq(name, "<") || str_eq(name, ">") || str_eq(name, "<=")
    || str_eq(name, ">=") || str_eq(name, "list") || str_eq(name, "car") || str_eq(name, "cdr")
    || str_eq(name, "cons") || str_eq(name, "len") || str_eq(name, "append") || str_eq(name, "nth")
    || str_eq(name, "str-concat") || str_eq(name, "str-contains") || str_eq(name, "to-string")
    || str_eq(name, "str-length") || str_eq(name, "str-substring") || str_eq(name, "str-split")
    || str_eq(name, "str-trim") || str_eq(name, "str-index-of") || str_eq(name, "str-upcase")
    || str_eq(name, "str-downcase") || str_eq(name, "str-starts-with")
    || str_eq(name, "str-ends-with") || str_eq(name, "str=") || str_eq(name, "str!=")
    || str_eq(name, "nil?") || str_eq(name, "list?") || str_eq(name, "number?")
    || str_eq(name, "string?") || str_eq(name, "map?") || str_eq(name, "bool?")
    || str_eq(name, "to-float") || str_eq(name, "to-int") || str_eq(name, "to-num")
    || str_eq(name, "type?") || str_eq(name, "dict") || str_eq(name, "dict/get")
    || str_eq(name, "dict/set") || str_eq(name, "dict/has?") || str_eq(name, "dict/keys")
    || str_eq(name, "dict/vals") || str_eq(name, "dict/remove") || str_eq(name, "dict/merge")
    || str_eq(name, "error") || str_eq(name, "empty?") || str_eq(name, "range")
    || str_eq(name, "reverse") || str_eq(name, "sort") || str_eq(name, "zip")
    || str_eq(name, "map") || str_eq(name, "filter") || str_eq(name, "reduce")
    || str_eq(name, "find") || str_eq(name, "some") || str_eq(name, "every")
    || str_eq(name, "to-json") || str_eq(name, "from-json") || str_eq(name, "fmt")
    || str_eq(name, "inspect") || str_eq(name, "sha256") || str_eq(name, "keccak256")
}

/// Everything but `nil` and `false` is true.
pub open spec fn truthy(v: SVal) -> bool {
    !(v is Nil || v == SVal::Bool(false))
}

pub fn is_truthy(v: &LispVal) -> (r: bool)
    ensures
        r == truthy(v.sv()),
{
    match v {
        LispVal::Nil => false,
        LispVal::Bool(b) => *b,
        _ => true,
    }
}

/// The message for a value of the wrong kind: `expected <what>, got <value>`.
pub open spec fn expected_msg(what: Seq<char>, v: SVal) -> Seq<char> {
    "expected "@ + what + ", got "@ + display(v)
}

pub fn expected_error(what: &str, v: &LispVal) -> (e: String)
    ensures
        e@ == expected_msg(what@, v.sv()),
{
    let mut out: Vec<char> = Vec::new();
    push_str(&mut out, "expected ");
    push_str(&mut out, what);
    push_str(&mut out, ", got ");
    display_into(v, &mut out);
    assert(out@ =~= expected_msg(what@, v.sv()));
    chars_to_string(&out)
}

/// The integer of a number value.
pub fn as_num(v: &LispVal) -> (r: Result<i64, String>)
    ensures
        match v.sv() {
            SVal::Num(n) => r == Ok::<i64, String>(n as i64),
            _ => r matches Err(e) && e@ == expected_msg("number"@, v.sv()),
        },
{
    match v {
        LispVal::Num(n) => Ok(*n),
        _ => Err(expected_error("number", v)),
    }
}

/// The text a value stands for when a string is expected: strings and
/// symbols give their characters, numbers their decimal form.
pub open spec fn str_of(v: SVal) -> Option<Seq<char>> {
    match v {
        SVal::Str(s) => Some(s),
        SVal::Sym(s) => Some(s),
        SVal::Num(n) => Some(int_to_decimal(n)),
        _ => None,
    }
}

pub fn as_str(v: &LispVal) -> (r: Result<String, String>)
    ensures
        match str_of(v.sv()) {
            Some(s) => r matches Ok(x) && x@ == s,
            None => r matches Err(e) && e@ == expected_msg("string"@, v.sv()),
        },
{
    match v {
        LispVal::Str(s) => Ok(s.clone()),
        LispVal::Sym(s) => Ok(s.clone()),
        LispVal::Num(n) => Ok(i64_to_string(*n)),
        _ => Err(expected_error("string", v)),
    }
}

/// The storage key for `raw`: prefixed with the string bound to
/// `__storage_prefix__`, when there is one.
pub open spec fn sandboxed(raw: Seq<char>, env: Seq<(Seq<char>, SVal)>) -> Seq<char> {
    match lookup(env, "__storage_prefix__"@) {
        Some(SVal::Str(p)) => p + raw,
        _ => raw,
    }
}

pub fn sandbox_key(raw_key: &str, env: &Env) -> (r: String)
    ensures
        r@ == sandboxed(raw_key@, env@),
{
    match env.get("__storage_prefix__") {
        Some(LispVal::Str(prefix)) => {
            let mut out: Vec<char> = Vec::new();
            push_str(&mut out, prefix.as_str());
            push_str(&mut out, raw_key);
            chars_to_string(&out)
        },
        _ => {
            let mut out: Vec<char> = Vec::new();
            push_str(&mut out, raw_key);
            chars_to_string(&out)
        },
    }
}


/// The integer operators that fold over their arguments.
#[derive(Clone, Copy, Debug, PartialEq, Eq, Structural)]
pub enum ArithOp {
    Add,
    Sub,
    Mul,
    /// Euclidean remainder.
    Mod,
}

/// One step of an arithmetic fold; `None` when the result leaves the
/// `i64` range or the divisor is zero.
pub open spec fn arith_step(op: ArithOp, a: int, b: int) -> Option<int> {
    let r = match op {
        ArithOp::Add => Some(a + b),
        ArithOp::Sub => Some(a - b),
        ArithOp::Mul => Some(a * b),
        ArithOp::Mod => if b == 0 || (a == i64::MIN && b == -1) { None } else { Some(a % b) },
    };
    match r {
        Some(x) => if i64::MIN <= x <= i64::MAX { Some(x) } else { None },
        None => None,
    }
}

/// Why an arithmetic fold failed.
pub enum ArithFail {
    TooFewArgs,
    NotNumber(SVal),
    Overflow,
    ZeroDivisor,
}

/// Left fold of `op` over the arguments, as the evaluator computes `+ - * mod`.
pub open spec fn arith_fold(op: ArithOp, args: Seq<SVal>) -> Result<int, ArithFail>
    decreases args.len(),
{
    if args.len() < 2 {
        if args.len() == 1 {
            match args[0] {
                SVal::Num(n) => Ok(n),
                v => Err(ArithFail::NotNumber(v)),
            }
        } else {
            Err(ArithFail::TooFewArgs)
        }
    } else {
        match arith_fold(op, args.drop_last()) {
            Ok(acc) => match args.last() {
                SVal::Num(b) => match arith_step(op, acc, b) {
                    Some(x) => Ok(x),
                    None => if matches!(op, ArithOp::Mod) && b == 0 { Err(ArithFail::ZeroDivisor) } else { Err(ArithFail::Overflow) },
                },
                v => Err(ArithFail::NotNumber(v)),
            },
            Err(e) => Err(e),
        }
    }
}

/// The result of an arithmetic builtin: a number, or the error message.
pub open spec fn arith_result(op: ArithOp, args: Seq<SVal>) -> Result<SVal, Seq<char>> {
    if args.len() < 2 {
        Err("arith needs 2+ args"@)
    } else {
        match arith_fold(op, args) {
            Ok(x) => Ok(SVal::Num(x)),
            Err(ArithFail::NotNumber(v)) => Err(expected_msg("number"@, v)),
            Err(ArithFail::Overflow) => Err("integer overflow"@),
            Err(ArithFail::ZeroDivisor) => Err("div by zero"@),
            Err(ArithFail::TooFewArgs) => Err("arith needs 2+ args"@),
        }
    }
}

/// `+` and `*` on two numbers do not depend on the order of the numbers.
pub proof fn lemma_arith_commutes(a: int, b: int)
    ensures
        arith_result(ArithOp::Add, seq![SVal::Num(a), SVal::Num(b)])
            == arith_result(ArithOp::Add, seq![SVal::Num(b), SVal::Num(a)]),
        arith_result(ArithOp::Mul, seq![SVal::Num(a), SVal::Num(b)])
            == arith_result(ArithOp::Mul, seq![SVal::Num(b), SVal::Num(a)]),
{
    lemma_fold_two(ArithOp::Add, a, b);
    lemma_fold_two(ArithOp::Add, b, a);
    lemma_fold_two(ArithOp::Mul, a, b);
    lemma_fold_two(ArithOp::Mul, b, a);
    assert(a * b == b * a) by (nonlinear_arith);
}

/// 0 is neutral for `+` and 1 for `*` on any number.
pub proof fn lemma_arith_identity(a: int)
    requires
        i64::MIN <= a <= i64::MAX,
    ensures
        arith_result(ArithOp::Add, seq![SVal::Num(a), SVal::Num(0)]) == Ok::<SVal, Seq<char>>(SVal::Num(a)),
        arith_result(ArithOp::Mul, seq![SVal::Num(a), SVal::Num(1)]) == Ok::<SVal, Seq<char>>(SVal::Num(a)),
{
    lemma_fold_two(ArithOp::Add, a, 0);
    lemma_fold_two(ArithOp::Mul, a, 1);
}

/// `(+ (+ a b) c)` and `(+ a (+ b c))` agree whenever both inner sums are
/// numbers (neither overflows).
pub proof fn lemma_add_associates(a: int, b: int, c: int)
    requires
        i64::MIN <= a <= i64::MAX,
        i64::MIN <= b <= i64::MAX,
        i64::MIN <= c <= i64::MAX,
        arith_result(ArithOp::Add, seq![SVal::Num(a), SVal::Num(b)]) is Ok,
        arith_result(ArithOp::Add, seq![SVal::Num(b), SVal::Num(c)]) is Ok,
    ensures
        arith_result(ArithOp::Add, seq![arith_result(ArithOp::Add, seq![SVal::Num(a), SVal::Num(b)])->Ok_0, SVal::Num(c)])
            == arith_result(ArithOp::Add, seq![SVal::Num(a), arith_result(ArithOp::Add, seq![SVal::Num(b), SVal::Num(c)])->Ok_0]),
{
    lemma_fold_two(ArithOp::Add, a, b);
    lemma_fold_two(ArithOp::Add, b, c);
    lemma_fold_two(ArithOp::Add, a + b, c);
    lemma_fold_two(ArithOp::Add, a, b + c);
}

/// The fold of two numbers is one step.
proof fn lemma_fold_two(op: ArithOp, a: int, b: int)
    ensures
        arith_fold(op, seq![SVal::Num(a), SVal::Num(b)]) == (match arith_step(op, a, b) {
            Some(x) => Ok(x),
            None => if matches!(op, ArithOp::Mod) && b == 0 { Err(ArithFail::ZeroDivisor) } else { Err(ArithFail::Overflow) },
        }),
{
    let s = seq![SVal::Num(a), SVal::Num(b)];
    assert(s.drop_last() =~= seq![SVal::Num(a)]);
    assert(arith_fold(op, seq![SVal::Num(a)]) == Ok::<int, ArithFail>(a));
    assert(s.last() == SVal::Num(b));
}

/// Folds an integer operator over the arguments (at least two).
pub fn do_arith(args: &Vec<LispVal>, op: ArithOp) -> (r: Result<LispVal, String>)
    ensures
        match arith_result(op, vals_view(args@)) {
            Ok(v) => r matches Ok(x) && x.sv() == v,
            Err(m) => r matches Err(e) && e@ == m,
        },
{
    let ghost va = vals_view(args@);
    if args.len() < 2 {
        return Err(String::from_str("arith needs 2+ args"));
    }
    proof { assert(va.take(1).len() == 1); }
    let mut acc: i64 = match as_num(&args[0]) {
        Ok(n) => n,
        Err(e) => {
            proof { lemma_fold_prefix_err(op, va, 1); }
            return Err(e);
        },
    };
    let mut i: usize = 1;
    assert(arith_fold(op, va.take(1)) == Ok::<int, ArithFail>(acc as int));
    while i < args.len()
        invariant
            1 <= i <= args@.len(),
            va == vals_view(args@),
            arith_fold(op, va.take(i as int)) == Ok::<int, ArithFail>(acc as int),
        decreases args.len() - i,
    {
        proof { assert(va.take(i + 1).drop_last() =~= va.take(i as int)); }
        let b = match as_num(&args[i]) {
            Ok(n) => n,
            Err(e) => {
                proof { lemma_fold_prefix_err(op, va, i + 1); }
                return Err(e);
            },
        };
        let next: Option<i64> = match op {
            ArithOp::Add => acc.checked_add(b),
            ArithOp::Sub => acc.checked_sub(b),
            ArithOp::Mul => acc.checked_mul(b),
            ArithOp::Mod => acc.checked_rem_euclid(b),
        };
        match next {
            Some(x) => {
                acc = x;
            },
            None => {
                proof { lemma_fold_prefix_err(op, va, i + 1); }
                if matches!(op, ArithOp::Mod) && b == 0 {
                    return Err(String::from_str("div by zero"));
                }
                return Err(String::from_str("integer overflow"));
            },
        }
        i += 1;
    }
    assert(va.take(i as int) =~= va);
    Ok(LispVal::Num(acc))
}

/// Once a prefix of the arguments fails, the whole fold fails the same way.
proof fn lemma_fold_prefix_err(op: ArithOp, args: Seq<SVal>, k: int)
    requires
        1 <= k <= args.len(),
        arith_fold(op, args.take(k)) is Err,
    ensures
        arith_fold(op, args) == arith_fold(op, args.take(k)),
    decreases args.len() - k,
{
    if k < args.len() {
        assert(args.take(k + 1).drop_last() =~= args.take(k));
        lemma_fold_prefix_err(op, args, k + 1);
    } else {
        assert(args.take(k) =~= args);
    }
}


/// Reads a parameter list left to right: plain symbols are parameters, and
/// the symbol after `&rest` names the parameter that collects the rest.
pub open spec fn params_fold(items: Seq<SVal>) -> Option<(Seq<Seq<char>>, Option<Seq<char>>, bool)>
    decreases items.len(),
{
    if items.len() == 0 {
        Some((Seq::empty(), None, false))
    } else {
        match params_fold(items.drop_last()) {
            None => None,
            Some((p, r, seen)) => match items.last() {
                SVal::Sym(s) => if s == "&rest"@ {
                    Some((p, r, true))
                } else if seen {
                    Some((p, Some(s), false))
                } else {
                    Some((p.push(s), r, false))
                },
                _ => None,
            },
        }
    }
}

/// The parameters and rest parameter a lambda's parameter list declares.
pub open spec fn params_of(v: SVal) -> Result<(Seq<Seq<char>>, Option<Seq<char>>), Seq<char>> {
    match v {
        SVal::List(items) => match params_fold(items) {
            Some((p, r, _)) => Ok((p, r)),
            None => Err("param must be sym"@),
        },
        _ => Err("params must be list"@),
    }
}

pub fn parse_params(val: &LispVal) -> (r: Result<(Vec<String>, Option<String>), String>)
    ensures
        match params_of(val.sv()) {
            Ok((p, rp)) => r matches Ok((ps, rps)) && strings_view(ps@) == p
                && rp == (match rps { Some(x) => Some(x@), None => None::<Seq<char>> }),
            Err(m) => r matches Err(e) && e@ == m,
        },
{
    match val {
        LispVal::List(p) => {
            let ghost items = vals_view(p@);
            assert(val.sv() == SVal::List(items));
            let mut params: Vec<String> = Vec::new();
            let mut rest_param: Option<String> = None;
            let mut seen_rest = false;
            let mut i: usize = 0;
            assert(items.take(0) =~= Seq::<SVal>::empty());
            while i < p.len()
                invariant
                    i <= p@.len(),
                    items == vals_view(p@),
                    val.sv() == SVal::List(items),
                    params_fold(items.take(i as int)) == Some((strings_view(params@),
                        match rest_param { Some(x) => Some(x@), None => None::<Seq<char>> }, seen_rest)),
                decreases p.len() - i,
            {
                proof { assert(items.take(i + 1).drop_last() =~= items.take(i as int)); }
                match &p[i] {
                    LispVal::Sym(s) => {
                        if str_eq(s.as_str(), "&rest") {
                            seen_rest = true;
                        } else if seen_rest {
                            rest_param = Some(s.clone());
                            seen_rest = false;
                        } else {
                            let ghost before = params@;
                            params.push(s.clone());
                            assert(strings_view(params@) =~= strings_view(before).push(s@));
                        }
                    },
                    _ => {
                        proof {
                            assert(items.take(i + 1).last() == p@[i as int].sv());
                            assert(!(p@[i as int].sv() is Sym));
                            assert(params_fold(items.take(i + 1)) is None);
                            lemma_params_fold_err(items, i as int + 1);
                        }
                        return Err(String::from_str("param must be sym"));
                    },
                }
                i += 1;
            }
            assert(items.take(i as int) =~= items);
            Ok((params, rest_param))
        },
        _ => Err(String::from_str("params must be list")),
    }
}

proof fn lemma_params_fold_err(items: Seq<SVal>, k: int)
    requires
        0 < k <= items.len(),
        params_fold(items.take(k)) is None,
    ensures
        params_fold(items) is None,
    decreases items.len() - k,
{
    if k < items.len() {
        assert(items.take(k + 1).drop_last() =~= items.take(k));
        lemma_params_fold_err(items, k + 1);
    } else {
        assert(items.take(k) =~= items);
    }
}

/// Bindings that a `match` pattern makes against a value, or `None` when it
/// does not match.
pub open spec fn match_pat(p: SVal, v: SVal) -> Option<Seq<(Seq<char>, SVal)>>
    decreases p,
{
    match p {
        SVal::Sym(s) => if s == "_"@ || s == "else"@ {
            Some(Seq::empty())
        } else if s.len() > 0 && s[0] == '?' {
            Some(seq![(s.skip(1), v)])
        } else {
            Some(seq![(s, v)])
        },
        SVal::Num(n) => if v == SVal::Num(n) { Some(Seq::empty()) } else { None },
        SVal::Str(t) => if v == SVal::Str(t) { Some(Seq::empty()) } else { None },
        SVal::Bool(b) => if v == SVal::Bool(b) { Some(Seq::empty()) } else { None },
        SVal::List(pats) => if pats.len() == 0 {
            None
        } else if pats[0] == SVal::Sym("list"@) {
            match v {
                SVal::List(vals) => if vals.len() + 1 == pats.len() {
                    match_all(pats.skip(1), vals)
                } else {
                    None
                },
                _ => None,
            }
        } else if pats[0] == SVal::Sym("cons"@) && pats.len() == 3 {
            match v {
                SVal::List(vals) => if vals.len() > 0 {
                    match match_pat(pats[1], vals[0]) {
                        Some(a) => match match_pat(pats[2], SVal::List(vals.skip(1))) {
                            Some(b) => Some(a + b),
                            None => None,
                        },
                        None => None,
                    }
                } else {
                    None
                },
                _ => None,
            }
        } else {
            match v {
                SVal::List(vals) => if vals.len() == pats.len() { match_all(pats, vals) } else { None },
                _ => None,
            }
        },
        _ => None,
    }
}

/// Matches patterns against values pairwise, concatenating the bindings.
pub open spec fn match_all(pats: Seq<SVal>, vals: Seq<SVal>) -> Option<Seq<(Seq<char>, SVal)>>
    decreases pats,
{
    if pats.len() == 0 || vals.len() == 0 {
        Some(Seq::empty())
    } else {
        match match_all(pats.drop_last(), vals.drop_last()) {
            Some(a) => match match_pat(pats.last(), vals.last()) {
                Some(b) => Some(a + b),
                None => None,
            },
            None => None,
        }
    }
}


/// Bindings of a `match` pattern against a value (see `match_pat`).
pub fn match_pattern(pattern: &LispVal, value: &LispVal) -> (r: Option<Vec<(String, LispVal)>>)
    ensures
        match match_pat(pattern.sv(), value.sv()) {
            Some(b) => r matches Some(x) && binds_view(x@) == b,
            None => r is None,
        },
    decreases pattern,
{
    match pattern {
        LispVal::Sym(s) => {
            if str_eq(s.as_str(), "_") || str_eq(s.as_str(), "else") {
                let r: Vec<(String, LispVal)> = Vec::new();
                assert(binds_view(r@) =~= Seq::<(Seq<char>, SVal)>::empty());
                return Some(r);
            }
            let cs = str_to_chars(s.as_str());
            let mut r: Vec<(String, LispVal)> = Vec::new();
            if cs.len() > 0 && cs[0] == '?' {
                let mut rest: Vec<char> = Vec::new();
                let mut i: usize = 1;
                while i < cs.len()
                    invariant
                        1 <= i <= cs@.len(),
                        rest@ == cs@.subrange(1, i as int),
                    decreases cs.len() - i,
                {
                    rest.push(cs[i]);
                    i += 1;
                    assert(rest@ =~= cs@.subrange(1, i as int));
                }
                assert(cs@.subrange(1, cs@.len() as int) =~= cs@.skip(1));
                r.push((chars_to_string(&rest), value.deep_clone()));
            } else {
                r.push((s.clone(), value.deep_clone()));
            }
            assert(binds_view(r@) =~= match_pat(pattern.sv(), value.sv())->Some_0);
            Some(r)
        },
        LispVal::Num(_) | LispVal::Str(_) | LispVal::Bool(_) => {
            if val_eq(pattern, value) {
                let r: Vec<(String, LispVal)> = Vec::new();
                assert(binds_view(r@) =~= Seq::<(Seq<char>, SVal)>::empty());
                Some(r)
            } else {
                None
            }
        },
        LispVal::List(pats) => {
            if pats.len() == 0 {
                return None;
            }
            let ghost ps = vals_view(pats@);
            let head_list = match &pats[0] { LispVal::Sym(h) => str_eq(h.as_str(), "list"), _ => false };
            let head_cons = match &pats[0] { LispVal::Sym(h) => str_eq(h.as_str(), "cons"), _ => false };
            proof {
                assert(ps[0] == pats@[0].sv());
                reveal_strlit("list");
                reveal_strlit("cons");
            }
            let vals = match value { LispVal::List(v) => v, _ => { return None; } };
            let ghost vs = vals_view(vals@);
            if head_list {
                if vals.len() != pats.len() - 1 {
                    return None;
                }
                match_pairs(pats, 1, vals)
            } else if head_cons && pats.len() == 3 {
                if vals.len() == 0 {
                    return None;
                }
                proof { assert(decreases_to!(pattern => pats@[1])); assert(decreases_to!(pattern => pats@[2])); }
                let a = match match_pattern(&pats[1], &vals[0]) { Some(a) => a, None => { return None; } };
                let tail = clone_from(vals, 1);
                assert(vs.skip(1) =~= vals_view(vals@).subrange(1, vals@.len() as int));
                let tail_val = LispVal::List(tail);
                let b = match match_pattern(&pats[2], &tail_val) { Some(b) => b, None => { return None; } };
                let mut out = a;
                append_binds(&mut out, &b);
                Some(out)
            } else {
                if vals.len() != pats.len() {
                    return None;
                }
                proof { assert(ps.skip(0) =~= ps); }
                match_pairs(pats, 0, vals)
            }
        },
        _ => None,
    }
}

/// Copies `v[from..]`, model for model.
pub fn clone_from(v: &Vec<LispVal>, from: usize) -> (r: Vec<LispVal>)
    requires
        from <= v@.len(),
    ensures
        vals_view(r@) == vals_view(v@).subrange(from as int, v@.len() as int),
{
    let mut r: Vec<LispVal> = Vec::new();
    let mut i: usize = from;
    while i < v.len()
        invariant
            from <= i <= v@.len(),
            r@.len() == i - from,
            forall|k: int| 0 <= k < r@.len() ==> (#[trigger] r@[k]).sv() == v@[from + k].sv(),
        decreases v.len() - i,
    {
        r.push(v[i].deep_clone());
        i += 1;
    }
    assert(vals_view(r@) =~= vals_view(v@).subrange(from as int, v@.len() as int));
    r
}

/// Appends copies of the entries of `b` to `out`.
pub fn append_binds(out: &mut Vec<(String, LispVal)>, b: &Vec<(String, LispVal)>)
    ensures
        binds_view(final(out)@) == binds_view(old(out)@) + binds_view(b@),
{
    let ghost before = out@;
    let mut j: usize = 0;
    while j < b.len()
        invariant
            j <= b@.len(),
            out@.len() == before.len() + j,
            forall|k: int| 0 <= k < before.len() ==> (#[trigger] out@[k]) == before[k],
            forall|k: int| 0 <= k < j ==> (#[trigger] out@[before.len() + k]).0@ == b@[k].0@
                && out@[before.len() + k].1.sv() == b@[k].1.sv(),
        decreases b.len() - j,
    {
        let k = b[j].0.clone();
        let x = b[j].1.deep_clone();
        out.push((k, x));
        j += 1;
    }
    assert forall|k: int| 0 <= k < out@.len() implies #[trigger] binds_view(out@)[k] == (binds_view(before) + binds_view(b@))[k] by {
        if k < before.len() {
            assert(out@[k] == before[k]);
        } else {
            assert(out@[before.len() + (k - before.len())].0@ == b@[k - before.len()].0@);
        }
    };
    assert(binds_view(out@) =~= binds_view(before) + binds_view(b@));
}

/// Matches `pats[start..]` against `vals` pairwise (see `match_all`).
fn match_pairs(pats: &Vec<LispVal>, start: usize, vals: &Vec<LispVal>) -> (r: Option<Vec<(String, LispVal)>>)
    requires
        start <= pats@.len(),
        vals@.len() + start == pats@.len(),
    ensures
        match match_all(vals_view(pats@).skip(start as int), vals_view(vals@)) {
            Some(b) => r matches Some(x) && binds_view(x@) == b,
            None => r is None,
        },
    decreases pats,
{
    let ghost ps = vals_view(pats@).skip(start as int);
    let ghost vs = vals_view(vals@);
    let mut out: Vec<(String, LispVal)> = Vec::new();
    let mut i: usize = 0;
    assert(binds_view(out@) =~= Seq::<(Seq<char>, SVal)>::empty());
    while i < vals.len()
        invariant
            i <= vals@.len(),
            vals@.len() + start == pats@.len(),
            ps == vals_view(pats@).skip(start as int),
            vs == vals_view(vals@),
            match_all(ps.take(i as int), vs.take(i as int)) == Some(binds_view(out@)),
        decreases vals.len() - i,
    {
        let n = pats.len();
        assert(start + i < n);
        let idx: usize = start + i;
        proof {
            assert(ps.take(i + 1).drop_last() =~= ps.take(i as int));
            assert(vs.take(i + 1).drop_last() =~= vs.take(i as int));
            assert(decreases_to!(pats => pats@[idx as int]));
        }
        match match_pattern(&pats[idx], &vals[i]) {
            Some(b) => {
                append_binds(&mut out, &b);
            },
            None => {
                proof { lemma_match_all_none(ps, vs, i as int + 1); }
                return None;
            },
        }
        i += 1;
    }
    assert(ps.take(i as int) =~= ps);
    assert(vs.take(i as int) =~= vs);
    Some(out)
}

proof fn lemma_match_all_none(ps: Seq<SVal>, vs: Seq<SVal>, k: int)
    requires
        0 < k <= vs.len(),
        ps.len() == vs.len(),
        match_all(ps.take(k), vs.take(k)) is None,
    ensures
        match_all(ps, vs) is None,
    decreases vs.len() - k,
{
    if k < vs.len() {
        assert(ps.take(k + 1).drop_last() =~= ps.take(k));
        assert(vs.take(k + 1).drop_last() =~= vs.take(k));
        lemma_match_all_none(ps, vs, k + 1);
    } else {
        assert(ps.take(k) =~= ps);
        assert(vs.take(k) =~= vs);
    }
}

} // verus!
