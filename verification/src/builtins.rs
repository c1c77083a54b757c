//! The builtins that compute a value from their evaluated arguments alone:
//! arithmetic, comparison, lists, strings, type tests and conversions,
//! dictionaries, formatting and JSON.
use vstd::prelude::*;
use crate::text::{str_eq, int_to_decimal, nat_to_decimal, i64_to_chars, nat_digits, chars_to_string,
    str_to_chars, text_to_i64, parse_i64, seq_contains, seq_starts_with, seq_ends_with,
    str_contains, str_starts_with, str_ends_with, uppercase_of, lowercase_of, trimmed_of,
    split_of, find_of, str_to_uppercase, str_to_lowercase, str_trim, str_split, str_find};
use crate::types::{LispVal, SVal, lemma_sv_unfold, vals_view, binds_view, lookup, val_eq,
    clone_vals, clone_binds};
use crate::display::{display, display_into, push_str, push_all};
use crate::dict::{dict_insert, dict_remove, dict_set, dict_without, dict_lookup};
use crate::helpers::{ArithOp, arith_result, do_arith, as_num, as_str, str_of, expected_msg};

verus! {

broadcast use lemma_sv_unfold;

/// The `i`-th argument, if there is one.
pub open spec fn nth_arg(args: Seq<SVal>, i: int) -> Option<SVal> {
    if 0 <= i < args.len() { Some(args[i]) } else { None }
}

/// The error for a builtin called without an argument it needs.
pub open spec fn missing_msg(name: Seq<char>) -> Seq<char> {
    name + ": missing argument"@
}

/// The model of an evaluation result.
pub open spec fn res_sv(r: Result<LispVal, String>) -> Result<SVal, Seq<char>> {
    match r {
        Ok(v) => Ok(v.sv()),
        Err(e) => Err(e@),
    }
}

/// The model of a builtin's answer (`None`: not this builtin).
pub open spec fn opt_res_sv(r: Option<Result<LispVal, String>>) -> Option<Result<SVal, Seq<char>>> {
    match r {
        Some(x) => Some(res_sv(x)),
        None => None,
    }
}

fn missing(name: &str) -> (e: String)
    ensures
        e@ == missing_msg(name@),
{
    let mut out: Vec<char> = Vec::new();
    push_str(&mut out, name);
    push_str(&mut out, ": missing argument");
    chars_to_string(&out)
}

// ---------------------------------------------------------------------------
// Numbers
// ---------------------------------------------------------------------------

/// `(/ a b)`: truncating division of integers.
pub open spec fn div_spec(args: Seq<SVal>) -> Result<SVal, Seq<char>> {
    if args.len() < 2 {
        Err("/ needs 2 args"@)
    } else {
        match args[1] {
            SVal::Num(b) => if b == 0 {
                Err("div by zero"@)
            } else {
                match args[0] {
                    SVal::Num(a) => match (a as i64).checked_div(b as i64) {
                        Some(q) => Ok(SVal::Num(q as int)),
                        None => Err("integer overflow"@),
                    },
                    v => Err(expected_msg("number"@, v)),
                }
            },
            v => Err(expected_msg("number"@, v)),
        }
    }
}

/// Integer comparison operators.
pub open spec fn num_order(name: Seq<char>, a: int, b: int) -> bool {
    if name == "<"@ { a < b } else if name == ">"@ { a > b } else if name == "<="@ { a <= b } else { a >= b }
}

/// `(< a b)` and friends: both arguments must be numbers.
pub open spec fn order_spec(name: Seq<char>, args: Seq<SVal>) -> Result<SVal, Seq<char>> {
    if args.len() < 2 {
        Err(missing_msg(name))
    } else {
        match args[0] {
            SVal::Num(a) => match args[1] {
                SVal::Num(b) => Ok(SVal::Bool(num_order(name, a, b))),
                v => Err(expected_msg("number"@, v)),
            },
            v => Err(expected_msg("number"@, v)),
        }
    }
}

/// The numeric builtins: `+ - * / mod = == != /= < > <= >=`.
pub open spec fn numeric_spec(name: Seq<char>, args: Seq<SVal>) -> Option<Result<SVal, Seq<char>>> {
    if name == "+"@ {
        Some(arith_result(ArithOp::Add, args))
    } else if name == "-"@ {
        Some(arith_result(ArithOp::Sub, args))
    } else if name == "*"@ {
        Some(arith_result(ArithOp::Mul, args))
    } else if name == "/"@ {
        Some(div_spec(args))
    } else if name == "mod"@ {
        Some(arith_result(ArithOp::Mod, args))
    } else if name == "="@ || name == "=="@ {
        Some(Ok(SVal::Bool(nth_arg(args, 0) == nth_arg(args, 1))))
    } else if name == "!="@ || name == "/="@ {
        Some(Ok(SVal::Bool(nth_arg(args, 0) != nth_arg(args, 1))))
    } else if name == "<"@ || name == ">"@ || name == "<="@ || name == ">="@ {
        Some(order_spec(name, args))
    } else {
        None
    }
}

fn div_builtin(args: &Vec<LispVal>) -> (r: Result<LispVal, String>)
    ensures
        res_sv(r) == div_spec(vals_view(args@)),
{
    if args.len() < 2 {
        return Err(String::from_str("/ needs 2 args"));
    }
    proof { assert(vals_view(args@)[1] == args@[1].sv()); assert(vals_view(args@)[0] == args@[0].sv()); }
    let b = match as_num(&args[1]) { Ok(b) => b, Err(e) => { return Err(e); } };
    if b == 0 {
        return Err(String::from_str("div by zero"));
    }
    let a = match as_num(&args[0]) { Ok(a) => a, Err(e) => { return Err(e); } };
    match a.checked_div(b) {
        Some(q) => Ok(LispVal::Num(q)),
        None => Err(String::from_str("integer overflow")),
    }
}

fn opt_val_eq(args: &Vec<LispVal>) -> (r: bool)
    ensures
        r == (nth_arg(vals_view(args@), 0) == nth_arg(vals_view(args@), 1)),
{
    let ghost va = vals_view(args@);
    if args.len() == 0 {
        true
    } else if args.len() == 1 {
        false
    } else {
        assert(va[0] == args@[0].sv() && va[1] == args@[1].sv());
        val_eq(&args[0], &args[1])
    }
}

fn order_builtin(name: &str, args: &Vec<LispVal>) -> (r: Result<LispVal, String>)
    requires
        name@ == "<"@ || name@ == ">"@ || name@ == "<="@ || name@ == ">="@,
    ensures
        res_sv(r) == order_spec(name@, vals_view(args@)),
{
    if args.len() < 2 {
        return Err(missing(name));
    }
    proof { assert(vals_view(args@)[1] == args@[1].sv()); assert(vals_view(args@)[0] == args@[0].sv()); }
    let a = match as_num(&args[0]) { Ok(a) => a, Err(e) => { return Err(e); } };
    let b = match as_num(&args[1]) { Ok(b) => b, Err(e) => { return Err(e); } };
    let r = if str_eq(name, "<") { a < b } else if str_eq(name, ">") { a > b } else if str_eq(name, "<=") { a <= b } else { a >= b };
    Ok(LispVal::Bool(r))
}

/// Applies a numeric builtin (see `numeric_spec`).
pub fn numeric_builtin(name: &str, args: &Vec<LispVal>) -> (r: Option<Result<LispVal, String>>)
    ensures
        opt_res_sv(r) == numeric_spec(name@, vals_view(args@)),
{
    if str_eq(name, "+") {
        Some(do_arith(args, ArithOp::Add))
    } else if str_eq(name, "-") {
        Some(do_arith(args, ArithOp::Sub))
    } else if str_eq(name, "*") {
        Some(do_arith(args, ArithOp::Mul))
    } else if str_eq(name, "/") {
        Some(div_builtin(args))
    } else if str_eq(name, "mod") {
        Some(do_arith(args, ArithOp::Mod))
    } else if str_eq(name, "=") || str_eq(name, "==") {
        Some(Ok(LispVal::Bool(opt_val_eq(args))))
    } else if str_eq(name, "!=") || str_eq(name, "/=") {
        Some(Ok(LispVal::Bool(!opt_val_eq(args))))
    } else if str_eq(name, "<") || str_eq(name, ">") || str_eq(name, "<=") || str_eq(name, ">=") {
        Some(order_builtin(name, args))
    } else {
        None
    }
}

// ---------------------------------------------------------------------------
// Lists
// ---------------------------------------------------------------------------

/// `(append a b ...)`: lists are spliced in, other values added as elements.
pub open spec fn append_spec(args: Seq<SVal>) -> Seq<SVal>
    decreases args.len(),
{
    if args.len() == 0 {
        Seq::empty()
    } else {
        append_spec(args.drop_last()) + match args.last() {
            SVal::List(l) => l,
            v => seq![v],
        }
    }
}

/// How many elements an argument of `append` stands for: a list its
/// length, anything else one.
pub open spec fn piece_len(v: SVal) -> int {
    match v {
        SVal::List(l) => l.len() as int,
        _ => 1,
    }
}

/// The sum of `piece_len` over the arguments.
pub open spec fn pieces_len(args: Seq<SVal>) -> int
    decreases args.len(),
{
    if args.len() == 0 { 0 } else { pieces_len(args.drop_last()) + piece_len(args.last()) }
}

/// `(append a b ...)` lays its arguments end to end: its length is the sum
/// of the arguments' piece lengths, a list argument's elements stand at its
/// offset in order, and any other argument stands there itself.
pub proof fn lemma_append_layout(args: Seq<SVal>)
    ensures
        append_spec(args).len() == pieces_len(args),
        forall|i: int| 0 <= i < args.len() && !(args[i] is List)
            ==> #[trigger] append_spec(args)[pieces_len(args.take(i))] == args[i],
        forall|i: int, k: int| 0 <= i < args.len() && args[i] is List && 0 <= k < args[i]->List_0.len()
            ==> #[trigger] append_spec(args)[pieces_len(args.take(i)) + k] == args[i]->List_0[k],
    decreases args.len(),
{
    if args.len() > 0 {
        let front = args.drop_last();
        lemma_append_layout(front);
        let n = args.len() - 1;
        assert(args.take(n) =~= front);
        assert forall|i: int| 0 <= i < n implies #[trigger] args.take(i) == front.take(i) by {
            assert(args.take(i) =~= front.take(i));
        };
        lemma_pieces_prefix(args);
        let tail = match args.last() { SVal::List(l) => l, v => seq![v] };
        assert(append_spec(args) == append_spec(front) + tail);
        assert(args.last() == args[n]);
        assert forall|i: int| 0 <= i < args.len() && !(args[i] is List)
            implies #[trigger] append_spec(args)[pieces_len(args.take(i))] == args[i] by {
            if i < n {
                assert(args.take(i) =~= front.take(i));
                let idx = pieces_len(front.take(i));
                lemma_pieces_before(front, i);
                assert(front[i] == args[i]);
                assert(idx < append_spec(front).len());
                assert(append_spec(front)[idx] == front[i]);
                assert(append_spec(args)[idx] == append_spec(front)[idx]);
            } else {
                assert(args.take(i) =~= front);
                assert(tail == seq![args[i]]);
                assert(append_spec(args)[append_spec(front).len() as int] == tail[0]);
            }
        };
        assert forall|i: int, k: int| 0 <= i < args.len() && args[i] is List && 0 <= k < args[i]->List_0.len()
            implies #[trigger] append_spec(args)[pieces_len(args.take(i)) + k] == args[i]->List_0[k] by {
            if i < n {
                assert(args.take(i) =~= front.take(i));
                let idx = pieces_len(front.take(i)) + k;
                lemma_pieces_before(front, i);
                assert(front[i] == args[i]);
                assert(idx < append_spec(front).len());
                assert(append_spec(front)[idx] == front[i]->List_0[k]);
                assert(append_spec(args)[idx] == append_spec(front)[idx]);
            } else {
                assert(args.take(i) =~= front);
                assert(tail == args[i]->List_0);
                assert(append_spec(args)[append_spec(front).len() + k] == tail[k]);
            }
        };
    }
}

/// The arguments before the last add up to what the whole less the last is.
proof fn lemma_pieces_prefix(args: Seq<SVal>)
    requires
        args.len() > 0,
    ensures
        pieces_len(args.take(args.len() - 1)) == pieces_len(args.drop_last()),
{
    assert(args.take(args.len() - 1) =~= args.drop_last());
}

/// The arguments before `i`, and `i`'s own piece, fit in the whole.
proof fn lemma_pieces_before(args: Seq<SVal>, i: int)
    requires
        0 <= i < args.len(),
    ensures
        pieces_len(args.take(i)) + piece_len(args[i]) <= pieces_len(args),
        0 <= pieces_len(args.take(i)),
    decreases args.len(),
{
    lemma_pieces_nonneg(args.take(i));
    if i < args.len() - 1 {
        lemma_pieces_before(args.drop_last(), i);
        assert(args.drop_last().take(i) =~= args.take(i));
        assert(args.drop_last()[i] == args[i]);
        lemma_pieces_nonneg(args.drop_last());
    } else {
        assert(args.take(i) =~= args.drop_last());
    }
}

proof fn lemma_pieces_nonneg(args: Seq<SVal>)
    ensures
        0 <= pieces_len(args),
    decreases args.len(),
{
    if args.len() > 0 {
        lemma_pieces_nonneg(args.drop_last());
    }
}

/// `(nth i lst)`.
pub open spec fn nth_spec(args: Seq<SVal>) -> Result<SVal, Seq<char>> {
    match nth_arg(args, 0) {
        None => Err("nth: need index"@),
        Some(SVal::Num(i)) => match nth_arg(args, 1) {
            Some(SVal::List(l)) => {
                let u = (i as i64) as usize;
                if (u as int) < l.len() { Ok(l[u as int]) } else { Err("index out of range"@) }
            },
            _ => Err("nth: need list"@),
        },
        Some(v) => Err(expected_msg("number"@, v)),
    }
}

/// The list builtins: `list car cdr cons len append nth`.
pub open spec fn list_spec(name: Seq<char>, args: Seq<SVal>) -> Option<Result<SVal, Seq<char>>> {
    if name == "list"@ {
        Some(Ok(SVal::List(args)))
    } else if name == "car"@ {
        Some(Ok(match nth_arg(args, 0) {
            Some(SVal::List(l)) => if l.len() > 0 { l[0] } else { SVal::Nil },
            _ => SVal::Nil,
        }))
    } else if name == "cdr"@ {
        Some(Ok(match nth_arg(args, 0) {
            Some(SVal::List(l)) => if l.len() > 1 { SVal::List(l.skip(1)) } else { SVal::Nil },
            _ => SVal::Nil,
        }))
    } else if name == "cons"@ {
        Some(Ok(match nth_arg(args, 1) {
            Some(SVal::List(l)) => SVal::List(seq![args[0]] + l),
            _ => SVal::List(args),
        }))
    } else if name == "len"@ {
        Some(match nth_arg(args, 0) {
            Some(SVal::List(l)) => Ok(SVal::Num(((l.len() as usize) as i64) as int)),
            Some(SVal::Str(s)) => Ok(SVal::Num(((vstd::utf8::encode_utf8(s).len() as usize) as i64) as int)),
            _ => Err("len: need list or string"@),
        })
    } else if name == "append"@ {
        Some(Ok(SVal::List(append_spec(args))))
    } else if name == "nth"@ {
        Some(nth_spec(args))
    } else {
        None
    }
}

fn append_builtin(args: &Vec<LispVal>) -> (r: Vec<LispVal>)
    ensures
        vals_view(r@) == append_spec(vals_view(args@)),
{
    let ghost va = vals_view(args@);
    let mut out: Vec<LispVal> = Vec::new();
    let mut i: usize = 0;
    assert(va.take(0) =~= Seq::<SVal>::empty());
    assert(vals_view(out@) =~= Seq::<SVal>::empty());
    while i < args.len()
        invariant
            i <= args@.len(),
            va == vals_view(args@),
            vals_view(out@) == append_spec(va.take(i as int)),
        decreases args.len() - i,
    {
        proof {
            assert(va.take(i + 1).drop_last() =~= va.take(i as int));
            assert(va.take(i + 1).last() == args@[i as int].sv());
        }
        let ghost before = vals_view(out@);
        match &args[i] {
            LispVal::List(l) => {
                let mut j: usize = 0;
                while j < l.len()
                    invariant
                        j <= l@.len(),
                        vals_view(out@) == before + vals_view(l@).take(j as int),
                    decreases l.len() - j,
                {
                    let ghost b2 = vals_view(out@);
                    out.push(l[j].deep_clone());
                    assert(vals_view(out@) =~= b2.push(l@[j as int].sv()));
                    assert(vals_view(l@).take(j + 1) =~= vals_view(l@).take(j as int).push(l@[j as int].sv()));
                    j += 1;
                }
                assert(vals_view(l@).take(l@.len() as int) =~= vals_view(l@));
            },
            _ => {
                out.push(args[i].deep_clone());
                assert(vals_view(out@) =~= before + seq![args@[i as int].sv()]);
            },
        }
        i += 1;
    }
    assert(va.take(i as int) =~= va);
    out
}

fn nth_builtin(args: &Vec<LispVal>) -> (r: Result<LispVal, String>)
    ensures
        res_sv(r) == nth_spec(vals_view(args@)),
{
    if args.len() == 0 {
        return Err(String::from_str("nth: need index"));
    }
    proof { assert(vals_view(args@)[0] == args@[0].sv()); }
    let i = match as_num(&args[0]) { Ok(i) => i, Err(e) => { return Err(e); } };
    if args.len() < 2 {
        return Err(String::from_str("nth: need list"));
    }
    proof { assert(vals_view(args@)[1] == args@[1].sv()); }
    match &args[1] {
        LispVal::List(l) => {
            let u = i as usize;
            if u < l.len() {
                proof { assert(vals_view(l@)[u as int] == l@[u as int].sv()); }
                Ok(l[u].deep_clone())
            } else {
                Err(String::from_str("index out of range"))
            }
        },
        _ => Err(String::from_str("nth: need list")),
    }
}

/// Applies a list builtin (see `list_spec`).
pub fn list_builtin(name: &str, args: &Vec<LispVal>) -> (r: Option<Result<LispVal, String>>)
    ensures
        opt_res_sv(r) == list_spec(name@, vals_view(args@)),
{
    let ghost va = vals_view(args@);
    if str_eq(name, "list") {
        let l = clone_vals(args);
        Some(Ok(LispVal::List(l)))
    } else if str_eq(name, "car") {
        if args.len() > 0 {
            proof { assert(va[0] == args@[0].sv()); }
            match &args[0] {
                LispVal::List(l) => if l.len() > 0 {
                    proof { assert(vals_view(l@)[0] == l@[0].sv()); }
                    return Some(Ok(l[0].deep_clone()));
                },
                _ => {},
            }
        }
        Some(Ok(LispVal::Nil))
    } else if str_eq(name, "cdr") {
        if args.len() > 0 {
            proof { assert(va[0] == args@[0].sv()); }
            match &args[0] {
                LispVal::List(l) => if l.len() > 1 {
                    let t = crate::helpers::clone_from(l, 1);
                    assert(vals_view(l@).subrange(1, l@.len() as int) =~= vals_view(l@).skip(1));
                    return Some(Ok(LispVal::List(t)));
                },
                _ => {},
            }
        }
        Some(Ok(LispVal::Nil))
    } else if str_eq(name, "cons") {
        if args.len() > 1 {
            proof { assert(va[1] == args@[1].sv()); assert(va[0] == args@[0].sv()); }
            match &args[1] {
                LispVal::List(l) => {
                    let mut n: Vec<LispVal> = Vec::new();
                    n.push(args[0].deep_clone());
                    let t = clone_vals(l);
                    let mut t2 = t;
                    n.append(&mut t2);
                    assert(vals_view(n@) =~= seq![va[0]] + vals_view(l@));
                    return Some(Ok(LispVal::List(n)));
                },
                _ => {},
            }
        }
        Some(Ok(LispVal::List(clone_vals(args))))
    } else if str_eq(name, "len") {
        if args.len() > 0 {
            proof { assert(va[0] == args@[0].sv()); }
            match &args[0] {
                LispVal::List(l) => { return Some(Ok(LispVal::Num(l.len() as i64))); },
                LispVal::Str(s) => { return Some(Ok(LispVal::Num(s.as_str().len() as i64))); },
                _ => {},
            }
        }
        Some(Err(String::from_str("len: need list or string")))
    } else if str_eq(name, "append") {
        Some(Ok(LispVal::List(append_builtin(args))))
    } else if str_eq(name, "nth") {
        Some(nth_builtin(args))
    } else {
        None
    }
}

// ---------------------------------------------------------------------------
// Strings
// ---------------------------------------------------------------------------

/// The text of argument `i` read as a string (see `str_of`); `miss` is the
/// error when there is no such argument.
pub open spec fn str_arg(args: Seq<SVal>, i: int, miss: Seq<char>) -> Result<Seq<char>, Seq<char>> {
    match nth_arg(args, i) {
        None => Err(miss),
        Some(v) => match str_of(v) {
            Some(t) => Ok(t),
            None => Err(expected_msg("string"@, v)),
        },
    }
}

/// The text `str-concat` uses for a value: a string's characters, otherwise
/// the printed form.
pub open spec fn concat_part(v: SVal) -> Seq<char> {
    match v {
        SVal::Str(s) => s,
        _ => display(v),
    }
}

pub open spec fn concat_spec(args: Seq<SVal>) -> Seq<char>
    decreases args.len(),
{
    if args.len() == 0 { Seq::empty() } else { concat_spec(args.drop_last()) + concat_part(args.last()) }
}

/// Strings as list elements.
pub open spec fn str_list(parts: Seq<Seq<char>>) -> Seq<SVal> {
    Seq::new(parts.len(), |i: int| SVal::Str(parts[i]))
}

/// `(str-substring s start end)` on character positions.
pub open spec fn substring_spec(args: Seq<SVal>) -> Result<SVal, Seq<char>> {
    match str_arg(args, 0, "str-substring: missing argument"@) {
        Err(e) => Err(e),
        Ok(s) => match nth_arg(args, 1) {
            None => Err("str-substring: need start"@),
            Some(SVal::Num(a)) => match nth_arg(args, 2) {
                None => Err("str-substring: need end"@),
                Some(SVal::Num(b)) => {
                    let su = (a as i64) as usize;
                    let eu = (b as i64) as usize;
                    if su > eu || eu > s.len() {
                        Err("str-substring: indices out of range ("@ + nat_to_decimal(su as nat) + ".."@
                            + nat_to_decimal(eu as nat) + " for len "@ + nat_to_decimal(s.len()) + ")"@)
                    } else {
                        Ok(SVal::Str(s.subrange(su as int, eu as int)))
                    }
                },
                Some(v) => Err(expected_msg("number"@, v)),
            },
            Some(v) => Err(expected_msg("number"@, v)),
        },
    }
}

/// Two string arguments; `m0`/`m1` are the errors when one is missing.
pub open spec fn two_strs(args: Seq<SVal>, m0: Seq<char>, m1: Seq<char>) -> Result<(Seq<char>, Seq<char>), Seq<char>> {
    match str_arg(args, 0, m0) {
        Err(e) => Err(e),
        Ok(a) => match str_arg(args, 1, m1) {
            Err(e) => Err(e),
            Ok(b) => Ok((a, b)),
        },
    }
}

/// The string builtins of one string argument.
pub open spec fn string1_spec(name: Seq<char>, s: Seq<char>) -> SVal {
    if name == "str-length"@ {
        SVal::Num(((s.len() as usize) as i64) as int)
    } else if name == "str-trim"@ {
        SVal::Str(trimmed_of(s))
    } else if name == "str-upcase"@ {
        SVal::Str(uppercase_of(s))
    } else {
        SVal::Str(lowercase_of(s))
    }
}

/// The string builtins of two string arguments.
pub open spec fn string2_spec(name: Seq<char>, a: Seq<char>, b: Seq<char>) -> SVal {
    if name == "str-contains"@ {
        SVal::Bool(seq_contains(a, b))
    } else if name == "str-split"@ {
        SVal::List(str_list(split_of(a, b)))
    } else if name == "str-index-of"@ {
        SVal::Num(match find_of(a, b) { Some(i) => ((i as usize) as i64) as int, None => -1 })
    } else if name == "str-starts-with"@ {
        SVal::Bool(seq_starts_with(a, b))
    } else if name == "str-ends-with"@ {
        SVal::Bool(seq_ends_with(a, b))
    } else if name == "str="@ {
        SVal::Bool(a == b)
    } else {
        SVal::Bool(a != b)
    }
}

/// The errors for a missing first and second argument.
pub open spec fn string2_missing(name: Seq<char>) -> (Seq<char>, Seq<char>) {
    if name == "str-contains"@ {
        ("str-contains: missing argument"@, "str-contains: missing argument"@)
    } else if name == "str-split"@ {
        ("str-split: missing argument"@, "str-split: need delimiter"@)
    } else if name == "str-index-of"@ {
        ("str-index-of: missing argument"@, "str-index-of: need needle"@)
    } else if name == "str-starts-with"@ {
        ("str-starts-with: missing argument"@, "str-starts-with: need prefix"@)
    } else if name == "str-ends-with"@ {
        ("str-ends-with: missing argument"@, "str-ends-with: need suffix"@)
    } else if name == "str="@ {
        ("str=: need 2 args"@, "str=: need 2 args"@)
    } else {
        ("str!=: need 2 args"@, "str!=: need 2 args"@)
    }
}

pub open spec fn is_string1(name: Seq<char>) -> bool {
    name == "str-length"@ || name == "str-trim"@ || name == "str-upcase"@ || name == "str-downcase"@
}

pub open spec fn is_string2(name: Seq<char>) -> bool {
    name == "str-contains"@ || name == "str-split"@ || name == "str-index-of"@ || name == "str-starts-with"@
        || name == "str-ends-with"@ || name == "str="@ || name == "str!="@
}

/// The string builtins.
pub open spec fn string_spec(name: Seq<char>, args: Seq<SVal>) -> Option<Result<SVal, Seq<char>>> {
    if name == "str-concat"@ {
        Some(Ok(SVal::Str(concat_spec(args))))
    } else if name == "to-string"@ {
        Some(match nth_arg(args, 0) { Some(v) => Ok(SVal::Str(display(v))), None => Err(missing_msg(name)) })
    } else if name == "str-substring"@ {
        Some(substring_spec(args))
    } else if is_string1(name) {
        Some(match str_arg(args, 0, missing_msg(name)) {
            Ok(s) => Ok(string1_spec(name, s)),
            Err(e) => Err(e),
        })
    } else if is_string2(name) {
        Some(match two_strs(args, string2_missing(name).0, string2_missing(name).1) {
            Ok((a, b)) => Ok(string2_spec(name, a, b)),
            Err(e) => Err(e),
        })
    } else {
        None
    }
}

/// Argument `i` read as a string (see `str_arg`).
fn str_arg_at(args: &Vec<LispVal>, i: usize, miss: &str) -> (r: Result<String, String>)
    ensures
        match str_arg(vals_view(args@), i as int, miss@) {
            Ok(t) => r matches Ok(x) && x@ == t,
            Err(m) => r matches Err(e) && e@ == m,
        },
{
    if i >= args.len() {
        return Err(chars_to_string(&str_to_chars(miss)));
    }
    proof { assert(vals_view(args@)[i as int] == args@[i as int].sv()); }
    as_str(&args[i])
}

fn concat_builtin(args: &Vec<LispVal>) -> (r: String)
    ensures
        r@ == concat_spec(vals_view(args@)),
{
    let ghost va = vals_view(args@);
    let mut out: Vec<char> = Vec::new();
    let mut i: usize = 0;
    assert(va.take(0) =~= Seq::<SVal>::empty());
    while i < args.len()
        invariant
            i <= args@.len(),
            va == vals_view(args@),
            out@ == concat_spec(va.take(i as int)),
        decreases args.len() - i,
    {
        proof {
            assert(va.take(i + 1).drop_last() =~= va.take(i as int));
            assert(va.take(i + 1).last() == args@[i as int].sv());
        }
        match &args[i] {
            LispVal::Str(t) => { push_str(&mut out, t.as_str()); },
            _ => { display_into(&args[i], &mut out); },
        }
        i += 1;
    }
    assert(va.take(i as int) =~= va);
    chars_to_string(&out)
}

fn substring_builtin(args: &Vec<LispVal>) -> (r: Result<LispVal, String>)
    ensures
        res_sv(r) == substring_spec(vals_view(args@)),
{
    let ghost va = vals_view(args@);
    let s = match str_arg_at(args, 0, "str-substring: missing argument") {
        Ok(s) => s,
        Err(e) => { return Err(e); },
    };
    if args.len() < 2 {
        return Err(String::from_str("str-substring: need start"));
    }
    proof { assert(va[1] == args@[1].sv()); }
    let a = match as_num(&args[1]) { Ok(a) => a, Err(e) => { return Err(e); } };
    if args.len() < 3 {
        return Err(String::from_str("str-substring: need end"));
    }
    proof { assert(va[2] == args@[2].sv()); }
    let b = match as_num(&args[2]) { Ok(b) => b, Err(e) => { return Err(e); } };
    let su = a as usize;
    let eu = b as usize;
    let cs = str_to_chars(s.as_str());
    if su > eu || eu > cs.len() {
        let mut out: Vec<char> = Vec::new();
        push_str(&mut out, "str-substring: indices out of range (");
        push_all(&mut out, &nat_digits(su as u64));
        push_str(&mut out, "..");
        push_all(&mut out, &nat_digits(eu as u64));
        push_str(&mut out, " for len ");
        push_all(&mut out, &nat_digits(cs.len() as u64));
        push_str(&mut out, ")");
        return Err(chars_to_string(&out));
    }
    let mut sub: Vec<char> = Vec::new();
    let mut k: usize = su;
    while k < eu
        invariant
            su <= k <= eu <= cs@.len(),
            sub@ == cs@.subrange(su as int, k as int),
        decreases eu - k,
    {
        sub.push(cs[k]);
        k += 1;
        assert(sub@ =~= cs@.subrange(su as int, k as int));
    }
    Ok(LispVal::Str(chars_to_string(&sub)))
}

fn split_parts(a: &str, b: &str) -> (r: LispVal)
    ensures
        r.sv() == SVal::List(str_list(split_of(a@, b@))),
{
    let parts = str_split(a, b);
    let mut out: Vec<LispVal> = Vec::new();
    let mut i: usize = 0;
    while i < parts.len()
        invariant
            i <= parts@.len(),
            out@.len() == i,
            forall|j: int| 0 <= j < i ==> (#[trigger] out@[j]).sv() == SVal::Str(parts@[j]@),
        decreases parts.len() - i,
    {
        out.push(LispVal::Str(parts[i].clone()));
        i += 1;
    }
    assert(vals_view(out@) =~= str_list(split_of(a@, b@)));
    LispVal::List(out)
}

fn string1_exec(name: &str, s: &str) -> (r: LispVal)
    requires
        is_string1(name@),
    ensures
        r.sv() == string1_spec(name@, s@),
{
    if str_eq(name, "str-length") {
        let cs = str_to_chars(s);
        LispVal::Num(cs.len() as i64)
    } else if str_eq(name, "str-trim") {
        LispVal::Str(str_trim(s))
    } else if str_eq(name, "str-upcase") {
        LispVal::Str(str_to_uppercase(s))
    } else {
        LispVal::Str(str_to_lowercase(s))
    }
}

fn string2_exec(name: &str, a: &str, b: &str) -> (r: LispVal)
    requires
        is_string2(name@),
    ensures
        r.sv() == string2_spec(name@, a@, b@),
{
    if str_eq(name, "str-contains") {
        LispVal::Bool(str_contains(a, b))
    } else if str_eq(name, "str-split") {
        split_parts(a, b)
    } else if str_eq(name, "str-index-of") {
        match str_find(a, b) {
            Some(i) => LispVal::Num(i as i64),
            None => LispVal::Num(-1),
        }
    } else if str_eq(name, "str-starts-with") {
        LispVal::Bool(str_starts_with(a, b))
    } else if str_eq(name, "str-ends-with") {
        LispVal::Bool(str_ends_with(a, b))
    } else if str_eq(name, "str=") {
        LispVal::Bool(str_eq(a, b))
    } else {
        LispVal::Bool(!str_eq(a, b))
    }
}

fn string2_missing_exec(name: &str) -> (r: (&'static str, &'static str))
    requires
        is_string2(name@),
    ensures
        r.0@ == string2_missing(name@).0,
        r.1@ == string2_missing(name@).1,
{
    if str_eq(name, "str-contains") {
        ("str-contains: missing argument", "str-contains: missing argument")
    } else if str_eq(name, "str-split") {
        ("str-split: missing argument", "str-split: need delimiter")
    } else if str_eq(name, "str-index-of") {
        ("str-index-of: missing argument", "str-index-of: need needle")
    } else if str_eq(name, "str-starts-with") {
        ("str-starts-with: missing argument", "str-starts-with: need prefix")
    } else if str_eq(name, "str-ends-with") {
        ("str-ends-with: missing argument", "str-ends-with: need suffix")
    } else if str_eq(name, "str=") {
        ("str=: need 2 args", "str=: need 2 args")
    } else {
        ("str!=: need 2 args", "str!=: need 2 args")
    }
}

fn is_string1_exec(name: &str) -> (r: bool)
    ensures
        r == is_string1(name@),
{
    str_eq(name, "str-length") || str_eq(name, "str-trim") || str_eq(name, "str-upcase") || str_eq(name, "str-downcase")
}

fn is_string2_exec(name: &str) -> (r: bool)
    ensures
        r == is_string2(name@),
{
    str_eq(name, "str-contains") || str_eq(name, "str-split") || str_eq(name, "str-index-of")
        || str_eq(name, "str-starts-with") || str_eq(name, "str-ends-with") || str_eq(name, "str=")
        || str_eq(name, "str!=")
}

/// Applies a string builtin (see `string_spec`).
pub fn string_builtin(name: &str, args: &Vec<LispVal>) -> (r: Option<Result<LispVal, String>>)
    ensures
        opt_res_sv(r) == string_spec(name@, vals_view(args@)),
{
    let ghost va = vals_view(args@);
    if str_eq(name, "str-concat") {
        Some(Ok(LispVal::Str(concat_builtin(args))))
    } else if str_eq(name, "to-string") {
        if args.len() == 0 {
            return Some(Err(missing(name)));
        }
        proof { assert(va[0] == args@[0].sv()); }
        Some(Ok(LispVal::Str(args[0].to_lisp_string())))
    } else if str_eq(name, "str-substring") {
        Some(substring_builtin(args))
    } else if is_string1_exec(name) {
        let m = missing(name);
        match str_arg_at(args, 0, m.as_str()) {
            Ok(x) => Some(Ok(string1_exec(name, x.as_str()))),
            Err(e) => Some(Err(e)),
        }
    } else if is_string2_exec(name) {
        let (m0, m1) = string2_missing_exec(name);
        let a = match str_arg_at(args, 0, m0) { Ok(x) => x, Err(e) => { return Some(Err(e)); } };
        let b = match str_arg_at(args, 1, m1) { Ok(x) => x, Err(e) => { return Some(Err(e)); } };
        Some(Ok(string2_exec(name, a.as_str(), b.as_str())))
    } else {
        None
    }
}

// ---------------------------------------------------------------------------
// Type tests and conversions
// ---------------------------------------------------------------------------

/// The name `type?` reports for a value.
pub open spec fn kind_name(v: SVal) -> Seq<char> {
    match v {
        SVal::Nil => "nil"@,
        SVal::Bool(_) => "boolean"@,
        SVal::Num(_) => "number"@,
        SVal::Str(_) => "string"@,
        SVal::List(_) => "list"@,
        SVal::Dict(_) => "map"@,
        SVal::Lambda { .. } => "lambda"@,
        SVal::Sym(_) => "symbol"@,
        SVal::Recur(_) => "unknown"@,
    }
}

/// The text `inspect` gives for a value.
pub open spec fn inspect_text(v: SVal) -> Seq<char> {
    match v {
        SVal::Nil => "nil: "@ + display(v),
        SVal::Bool(_) => "boolean: "@ + display(v),
        SVal::Num(_) => "integer: "@ + display(v),
        SVal::Str(_) => "string: "@ + display(v),
        SVal::List(items) => "list["@ + nat_to_decimal(items.len()) + "]: "@ + display(v),
        SVal::Dict(m) => "map{"@ + nat_to_decimal(m.len()) + " keys}: "@ + display(v),
        SVal::Lambda { params, .. } => "lambda("@ + nat_to_decimal(params.len()) + "): <function>"@,
        SVal::Sym(s) => "symbol: "@ + s,
        SVal::Recur(_) => "unknown: "@ + display(v),
    }
}

/// `to-int` / `to-num` on one value.
pub open spec fn to_int_spec(name: Seq<char>, v: SVal) -> Result<SVal, Seq<char>> {
    match v {
        SVal::Num(n) => Ok(SVal::Num(n)),
        SVal::Str(s) => match crate::text::text_to_i64(s) {
            Some(n) => Ok(SVal::Num(n as int)),
            None => Err(name + ": cannot parse '"@ + s + "'"@),
        },
        _ => Err(name + ": expected number, got "@ + display(v)),
    }
}

pub open spec fn is_type_test(name: Seq<char>) -> bool {
    name == "nil?"@ || name == "empty?"@ || name == "list?"@ || name == "number?"@ || name == "bool?"@
        || name == "string?"@ || name == "map?"@
}

/// The answer of a type test.
pub open spec fn type_test(name: Seq<char>, v: SVal) -> bool {
    if name == "nil?"@ || name == "empty?"@ {
        v is Nil || v == SVal::List(Seq::empty())
    } else if name == "list?"@ {
        v is List
    } else if name == "number?"@ {
        v is Num
    } else if name == "bool?"@ {
        v is Bool
    } else if name == "string?"@ {
        v is Str
    } else {
        v is Dict
    }
}

/// Type tests, conversions, `type?`, `inspect` and `error`.
pub open spec fn type_spec(name: Seq<char>, args: Seq<SVal>) -> Option<Result<SVal, Seq<char>>> {
    if is_type_test(name) {
        Some(match nth_arg(args, 0) { Some(v) => Ok(SVal::Bool(type_test(name, v))), None => Err(missing_msg(name)) })
    } else if name == "to-float"@ {
        Some(match nth_arg(args, 0) { Some(v) => Err("to-float: floats are not supported"@), None => Err(missing_msg(name)) })
    } else if name == "to-int"@ || name == "to-num"@ {
        Some(match nth_arg(args, 0) { Some(v) => to_int_spec(name, v), None => Err(missing_msg(name)) })
    } else if name == "type?"@ {
        Some(match nth_arg(args, 0) { Some(v) => Ok(SVal::Str(kind_name(v))), None => Err(missing_msg(name)) })
    } else if name == "inspect"@ {
        Some(Ok(SVal::Str(inspect_text(match nth_arg(args, 0) { Some(v) => v, None => SVal::Nil }))))
    } else if name == "error"@ {
        Some(Err(match nth_arg(args, 0) { Some(v) => display(v), None => "error"@ }))
    } else {
        None
    }
}

fn is_type_test_exec(name: &str) -> (r: bool)
    ensures
        r == is_type_test(name@),
{
    str_eq(name, "nil?") || str_eq(name, "empty?") || str_eq(name, "list?") || str_eq(name, "number?")
        || str_eq(name, "bool?") || str_eq(name, "string?") || str_eq(name, "map?")
}

fn type_test_exec(name: &str, v: &LispVal) -> (r: bool)
    ensures
        r == type_test(name@, v.sv()),
{
    if str_eq(name, "nil?") || str_eq(name, "empty?") {
        match v {
            LispVal::Nil => true,
            LispVal::List(l) => {
                if l.len() == 0 {
                    assert(vals_view(l@) =~= Seq::<SVal>::empty());
                } else {
                    assert(vals_view(l@).len() != Seq::<SVal>::empty().len());
                }
                l.len() == 0
            },
            _ => false,
        }
    } else if str_eq(name, "list?") {
        matches!(v, LispVal::List(_))
    } else if str_eq(name, "number?") {
        matches!(v, LispVal::Num(_))
    } else if str_eq(name, "bool?") {
        matches!(v, LispVal::Bool(_))
    } else if str_eq(name, "string?") {
        matches!(v, LispVal::Str(_))
    } else {
        matches!(v, LispVal::Dict(_))
    }
}

fn to_int_exec(name: &str, v: &LispVal) -> (r: Result<LispVal, String>)
    ensures
        res_sv(r) == to_int_spec(name@, v.sv()),
{
    match v {
        LispVal::Num(n) => Ok(LispVal::Num(*n)),
        LispVal::Str(s) => match parse_i64(s.as_str()) {
            Some(n) => Ok(LispVal::Num(n)),
            None => {
                let mut out: Vec<char> = Vec::new();
                push_str(&mut out, name);
                push_str(&mut out, ": cannot parse '");
                push_str(&mut out, s.as_str());
                push_str(&mut out, "'");
                Err(chars_to_string(&out))
            },
        },
        _ => {
            let mut out: Vec<char> = Vec::new();
            push_str(&mut out, name);
            push_str(&mut out, ": expected number, got ");
            display_into(v, &mut out);
            Err(chars_to_string(&out))
        },
    }
}

fn kind_name_exec(v: &LispVal) -> (r: &'static str)
    ensures
        r@ == kind_name(v.sv()),
{
    match v {
        LispVal::Nil => "nil",
        LispVal::Bool(_) => "boolean",
        LispVal::Num(_) => "number",
        LispVal::Str(_) => "string",
        LispVal::List(_) => "list",
        LispVal::Dict(_) => "map",
        LispVal::Lambda { .. } => "lambda",
        LispVal::Sym(_) => "symbol",
        LispVal::Recur(_) => "unknown",
    }
}

fn inspect_exec(v: &LispVal) -> (r: String)
    ensures
        r@ == inspect_text(v.sv()),
{
    let mut out: Vec<char> = Vec::new();
    match v {
        LispVal::Nil => { push_str(&mut out, "nil: "); display_into(v, &mut out); },
        LispVal::Bool(_) => { push_str(&mut out, "boolean: "); display_into(v, &mut out); },
        LispVal::Num(_) => { push_str(&mut out, "integer: "); display_into(v, &mut out); },
        LispVal::Str(_) => { push_str(&mut out, "string: "); display_into(v, &mut out); },
        LispVal::List(items) => {
            push_str(&mut out, "list[");
            push_all(&mut out, &nat_digits(items.len() as u64));
            push_str(&mut out, "]: ");
            display_into(v, &mut out);
        },
        LispVal::Dict(m) => {
            push_str(&mut out, "map{");
            push_all(&mut out, &nat_digits(m.len() as u64));
            push_str(&mut out, " keys}: ");
            display_into(v, &mut out);
        },
        LispVal::Lambda { params, .. } => {
            push_str(&mut out, "lambda(");
            push_all(&mut out, &nat_digits(params.len() as u64));
            push_str(&mut out, "): <function>");
            proof { assert(crate::types::strings_view(params@).len() == params@.len()); }
        },
        LispVal::Sym(s) => { push_str(&mut out, "symbol: "); push_str(&mut out, s.as_str()); },
        LispVal::Recur(_) => { push_str(&mut out, "unknown: "); display_into(v, &mut out); },
    }
    chars_to_string(&out)
}

/// Applies a type test, conversion, `type?`, `inspect` or `error` (see `type_spec`).
pub fn type_builtin(name: &str, args: &Vec<LispVal>) -> (r: Option<Result<LispVal, String>>)
    ensures
        opt_res_sv(r) == type_spec(name@, vals_view(args@)),
{
    let ghost va = vals_view(args@);
    if args.len() > 0 {
        assert(va[0] == args@[0].sv());
    }
    if is_type_test_exec(name) {
        if args.len() == 0 { return Some(Err(missing(name))); }
        Some(Ok(LispVal::Bool(type_test_exec(name, &args[0]))))
    } else if str_eq(name, "to-float") {
        if args.len() == 0 { return Some(Err(missing(name))); }
        Some(Err(String::from_str("to-float: floats are not supported")))
    } else if str_eq(name, "to-int") || str_eq(name, "to-num") {
        if args.len() == 0 { return Some(Err(missing(name))); }
        Some(to_int_exec(name, &args[0]))
    } else if str_eq(name, "type?") {
        if args.len() == 0 { return Some(Err(missing(name))); }
        Some(Ok(LispVal::Str(chars_to_string(&str_to_chars(kind_name_exec(&args[0]))))))
    } else if str_eq(name, "inspect") {
        if args.len() == 0 {
            return Some(Ok(LispVal::Str(inspect_exec(&LispVal::Nil))));
        }
        Some(Ok(LispVal::Str(inspect_exec(&args[0]))))
    } else if str_eq(name, "error") {
        if args.len() == 0 { return Some(Err(String::from_str("error"))); }
        Some(Err(args[0].to_lisp_string()))
    } else {
        None
    }
}

// ---------------------------------------------------------------------------
// Dictionaries
// ---------------------------------------------------------------------------

/// `(dict k1 v1 k2 v2 ...)`: pairs bound left to right into `m`; a trailing
/// unpaired argument is ignored.
pub open spec fn dict_from(m: Seq<(Seq<char>, SVal)>, args: Seq<SVal>) -> Result<Seq<(Seq<char>, SVal)>, Seq<char>>
    decreases args.len(),
{
    if args.len() < 2 {
        Ok(m)
    } else {
        match str_of(args[0]) {
            None => Err("dict: keys must be strings"@),
            Some(k) => dict_from(dict_insert(m, k, args[1]), args.skip(2)),
        }
    }
}

/// `m` with every entry of `m2` bound into it, in order.
pub open spec fn dict_merge(m: Seq<(Seq<char>, SVal)>, m2: Seq<(Seq<char>, SVal)>) -> Seq<(Seq<char>, SVal)>
    decreases m2.len(),
{
    if m2.len() == 0 { m } else { dict_insert(dict_merge(m, m2.drop_last()), m2.last().0, m2.last().1) }
}

/// A dictionary operation on map `m` and key `k` (argument three, if any, is `v`).
pub open spec fn dict_op(name: Seq<char>, m: Seq<(Seq<char>, SVal)>, k: Seq<char>, v: SVal) -> SVal {
    if name == "dict/get"@ {
        match lookup(m, k) { Some(x) => x, None => SVal::Nil }
    } else if name == "dict/set"@ {
        SVal::Dict(dict_insert(m, k, v))
    } else if name == "dict/has?"@ {
        SVal::Bool(lookup(m, k) is Some)
    } else {
        SVal::Dict(dict_remove(m, k))
    }
}

pub open spec fn is_keyed_dict_op(name: Seq<char>) -> bool {
    name == "dict/get"@ || name == "dict/set"@ || name == "dict/has?"@ || name == "dict/remove"@
}

/// Keys of a dictionary, as strings.
pub open spec fn dict_keys(m: Seq<(Seq<char>, SVal)>) -> Seq<SVal> {
    Seq::new(m.len(), |i: int| SVal::Str(m[i].0))
}

/// Values of a dictionary.
pub open spec fn dict_vals(m: Seq<(Seq<char>, SVal)>) -> Seq<SVal> {
    Seq::new(m.len(), |i: int| m[i].1)
}

/// The dictionary builtins.
pub open spec fn dict_spec(name: Seq<char>, args: Seq<SVal>) -> Option<Result<SVal, Seq<char>>> {
    if name == "dict"@ {
        Some(match dict_from(Seq::empty(), args) { Ok(m) => Ok(SVal::Dict(m)), Err(e) => Err(e) })
    } else if is_keyed_dict_op(name) {
        Some(match nth_arg(args, 0) {
            Some(SVal::Dict(m)) => match nth_arg(args, 1) {
                Some(kv) => match str_of(kv) {
                    Some(k) => Ok(dict_op(name, m, k, match nth_arg(args, 2) { Some(x) => x, None => SVal::Nil })),
                    None => Err(name + ": key must be string"@),
                },
                None => Err(missing_msg(name)),
            },
            Some(_) => Err(name + ": expected map"@),
            None => Err(missing_msg(name)),
        })
    } else if name == "dict/keys"@ || name == "dict/vals"@ {
        Some(match nth_arg(args, 0) {
            Some(SVal::Dict(m)) => Ok(SVal::List(if name == "dict/keys"@ { dict_keys(m) } else { dict_vals(m) })),
            Some(_) => Err(name + ": expected map"@),
            None => Err(missing_msg(name)),
        })
    } else if name == "dict/merge"@ {
        Some(match nth_arg(args, 0) {
            Some(SVal::Dict(m)) => match nth_arg(args, 1) {
                Some(SVal::Dict(m2)) => Ok(SVal::Dict(dict_merge(m, m2))),
                Some(_) => Err("dict/merge: second arg must be map"@),
                None => Err(missing_msg(name)),
            },
            Some(_) => Err("dict/merge: first arg must be map"@),
            None => Err(missing_msg(name)),
        })
    } else {
        None
    }
}

fn msg2(a: &str, b: &str) -> (e: String)
    ensures
        e@ == a@ + b@,
{
    let mut out: Vec<char> = Vec::new();
    push_str(&mut out, a);
    push_str(&mut out, b);
    chars_to_string(&out)
}

fn dict_from_exec(args: &Vec<LispVal>) -> (r: Result<Vec<(String, LispVal)>, String>)
    ensures
        match dict_from(Seq::empty(), vals_view(args@)) {
            Ok(m) => r matches Ok(x) && binds_view(x@) == m,
            Err(e) => r matches Err(x) && x@ == e,
        },
{
    let ghost va = vals_view(args@);
    let mut m: Vec<(String, LispVal)> = Vec::new();
    let mut i: usize = 0;
    assert(va.skip(0) =~= va);
    assert(binds_view(m@) =~= Seq::<(Seq<char>, SVal)>::empty());
    while args.len() - i >= 2
        invariant
            i <= args@.len(),
            va == vals_view(args@),
            dict_from(Seq::empty(), va) == dict_from(binds_view(m@), va.skip(i as int)),
        decreases args.len() - i,
    {
        let ghost t = va.skip(i as int);
        assert(t[0] == args@[i as int].sv() && t[1] == args@[i + 1].sv());
        assert(t.skip(2) =~= va.skip(i + 2));
        let k = match as_str(&args[i]) {
            Ok(k) => k,
            Err(_) => { return Err(String::from_str("dict: keys must be strings")); },
        };
        dict_set(&mut m, k, args[i + 1].deep_clone());
        i += 2;
    }
    Ok(m)
}

fn dict_merge_exec(m: &Vec<(String, LispVal)>, m2: &Vec<(String, LispVal)>) -> (r: Vec<(String, LispVal)>)
    ensures
        binds_view(r@) == dict_merge(binds_view(m@), binds_view(m2@)),
{
    let mut out = clone_binds(m);
    let ghost b2 = binds_view(m2@);
    let mut j: usize = 0;
    assert(b2.take(0) =~= Seq::<(Seq<char>, SVal)>::empty());
    while j < m2.len()
        invariant
            j <= m2@.len(),
            b2 == binds_view(m2@),
            binds_view(out@) == dict_merge(binds_view(m@), b2.take(j as int)),
        decreases m2.len() - j,
    {
        proof {
            assert(b2.take(j + 1).drop_last() =~= b2.take(j as int));
            assert(b2.take(j + 1).last() == (m2@[j as int].0@, m2@[j as int].1.sv()));
        }
        dict_set(&mut out, m2[j].0.clone(), m2[j].1.deep_clone());
        j += 1;
    }
    assert(b2.take(j as int) =~= b2);
    out
}

fn is_keyed_dict_op_exec(name: &str) -> (r: bool)
    ensures
        r == is_keyed_dict_op(name@),
{
    str_eq(name, "dict/get") || str_eq(name, "dict/set") || str_eq(name, "dict/has?") || str_eq(name, "dict/remove")
}

fn keyed_dict_exec(name: &str, args: &Vec<LispVal>) -> (r: Result<LispVal, String>)
    requires
        is_keyed_dict_op(name@),
    ensures
        Some(res_sv(r)) == dict_spec(name@, vals_view(args@)),
{
    let ghost va = vals_view(args@);
    proof {
        reveal_strlit("dict");
        reveal_strlit("dict/get");
        reveal_strlit("dict/set");
        reveal_strlit("dict/has?");
        reveal_strlit("dict/remove");
    }
    if args.len() == 0 {
        return Err(missing(name));
    }
    proof { assert(va[0] == args@[0].sv()); }
    let m = match &args[0] {
        LispVal::Dict(m) => m,
        _ => { return Err(msg2(name, ": expected map")); },
    };
    if args.len() < 2 {
        return Err(missing(name));
    }
    proof { assert(va[1] == args@[1].sv()); }
    let k = match as_str(&args[1]) {
        Ok(k) => k,
        Err(_) => { return Err(msg2(name, ": key must be string")); },
    };
    if str_eq(name, "dict/get") {
        match dict_lookup(m, k.as_str()) {
            Some(v) => Ok(v.deep_clone()),
            None => Ok(LispVal::Nil),
        }
    } else if str_eq(name, "dict/set") {
        let v = if args.len() > 2 {
            proof { assert(va[2] == args@[2].sv()); }
            args[2].deep_clone()
        } else {
            LispVal::Nil
        };
        let mut m2 = clone_binds(m);
        dict_set(&mut m2, k, v);
        Ok(LispVal::Dict(m2))
    } else if str_eq(name, "dict/has?") {
        Ok(LispVal::Bool(dict_lookup(m, k.as_str()).is_some()))
    } else {
        Ok(LispVal::Dict(dict_without(m, k.as_str())))
    }
}

/// Applies a dictionary builtin (see `dict_spec`).
pub fn dict_builtin(name: &str, args: &Vec<LispVal>) -> (r: Option<Result<LispVal, String>>)
    ensures
        opt_res_sv(r) == dict_spec(name@, vals_view(args@)),
{
    let ghost va = vals_view(args@);
    if args.len() > 0 {
        assert(va[0] == args@[0].sv());
    }
    if args.len() > 1 {
        assert(va[1] == args@[1].sv());
    }
    if str_eq(name, "dict") {
        match dict_from_exec(args) {
            Ok(m) => Some(Ok(LispVal::Dict(m))),
            Err(e) => Some(Err(e)),
        }
    } else if is_keyed_dict_op_exec(name) {
        Some(keyed_dict_exec(name, args))
    } else if str_eq(name, "dict/keys") || str_eq(name, "dict/vals") {
        if args.len() == 0 { return Some(Err(missing(name))); }
        match &args[0] {
            LispVal::Dict(m) => {
                let keys = str_eq(name, "dict/keys");
                let mut out: Vec<LispVal> = Vec::new();
                let mut i: usize = 0;
                while i < m.len()
                    invariant
                        i <= m@.len(),
                        out@.len() == i,
                        forall|j: int| 0 <= j < i ==> (#[trigger] out@[j]).sv()
                            == (if keys { SVal::Str(m@[j].0@) } else { m@[j].1.sv() }),
                    decreases m.len() - i,
                {
                    if keys {
                        out.push(LispVal::Str(m[i].0.clone()));
                    } else {
                        out.push(m[i].1.deep_clone());
                    }
                    i += 1;
                }
                proof {
                    let bm = binds_view(m@);
                    if keys {
                        assert(vals_view(out@) =~= dict_keys(bm));
                    } else {
                        assert(vals_view(out@) =~= dict_vals(bm));
                    }
                }
                Some(Ok(LispVal::List(out)))
            },
            _ => Some(Err(msg2(name, ": expected map"))),
        }
    } else if str_eq(name, "dict/merge") {
        if args.len() == 0 { return Some(Err(missing(name))); }
        match &args[0] {
            LispVal::Dict(m) => {
                if args.len() < 2 { return Some(Err(missing(name))); }
                match &args[1] {
                    LispVal::Dict(m2) => Some(Ok(LispVal::Dict(dict_merge_exec(m, m2)))),
                    _ => Some(Err(String::from_str("dict/merge: second arg must be map"))),
                }
            },
            _ => Some(Err(String::from_str("dict/merge: first arg must be map"))),
        }
    } else {
        None
    }
}

// ---------------------------------------------------------------------------
// Sequences: range, reverse, sort, zip
// ---------------------------------------------------------------------------

/// The numbers `a, a+1, ..., b-1`.
pub open spec fn range_vals(a: int, b: int) -> Seq<SVal> {
    if a >= b { Seq::empty() } else { Seq::new((b - a) as nat, |i: int| SVal::Num(a + i)) }
}

/// The key `sort` orders by: a number's value, zero for anything else.
pub open spec fn sort_key(v: SVal) -> int {
    match v {
        SVal::Num(n) => n,
        _ => 0,
    }
}

/// Inserts `x` after every element whose key is at most its own.
pub open spec fn insert_sorted(s: Seq<SVal>, x: SVal) -> Seq<SVal>
    decreases s.len(),
{
    if s.len() == 0 {
        seq![x]
    } else if sort_key(s.last()) <= sort_key(x) {
        s.push(x)
    } else {
        insert_sorted(s.drop_last(), x).push(s.last())
    }
}

/// Stable sort by `sort_key`.
pub open spec fn sort_vals(s: Seq<SVal>) -> Seq<SVal>
    decreases s.len(),
{
    if s.len() == 0 { Seq::empty() } else { insert_sorted(sort_vals(s.drop_last()), s.last()) }
}

/// The list a sequence builtin reads: a list, or `nil` as the empty list.
pub open spec fn list_arg(name: Seq<char>, v: SVal) -> Result<Seq<SVal>, Seq<char>> {
    match v {
        SVal::List(l) => Ok(l),
        SVal::Nil => Ok(Seq::empty()),
        _ => Err(name + ": expected list, got "@ + display(v)),
    }
}

/// Pairs of corresponding elements, as two-element lists.
pub open spec fn zip_vals(a: Seq<SVal>, b: Seq<SVal>) -> Seq<SVal> {
    Seq::new(if a.len() < b.len() { a.len() } else { b.len() }, |i: int| SVal::List(seq![a[i], b[i]]))
}

/// `range`, `reverse`, `sort` and `zip`.
pub open spec fn seq_spec(name: Seq<char>, args: Seq<SVal>) -> Option<Result<SVal, Seq<char>>> {
    if name == "range"@ {
        Some(match nth_arg(args, 0) {
            None => Err("range: need 2 args"@),
            Some(SVal::Num(a)) => match nth_arg(args, 1) {
                None => Err("range: need 2 args"@),
                Some(SVal::Num(b)) => Ok(SVal::List(range_vals(a, b))),
                Some(v) => Err(expected_msg("number"@, v)),
            },
            Some(v) => Err(expected_msg("number"@, v)),
        })
    } else if name == "reverse"@ || name == "sort"@ {
        Some(match nth_arg(args, 0) {
            None => Err(missing_msg(name)),
            Some(v) => match list_arg(name, v) {
                Ok(l) => Ok(SVal::List(if name == "reverse"@ { l.reverse() } else { sort_vals(l) })),
                Err(e) => Err(e),
            },
        })
    } else if name == "zip"@ {
        Some(match nth_arg(args, 0) {
            None => Err(missing_msg(name)),
            Some(v) => match list_arg(name, v) {
                Err(e) => Err(e),
                Ok(a) => match nth_arg(args, 1) {
                    None => Err("zip: need 2 args"@),
                    Some(w) => match list_arg(name, w) {
                        Err(e) => Err(e),
                        Ok(b) => Ok(SVal::List(zip_vals(a, b))),
                    },
                },
            },
        })
    } else {
        None
    }
}

fn list_arg_exec(name: &str, v: &LispVal) -> (r: Result<Vec<LispVal>, String>)
    ensures
        match list_arg(name@, v.sv()) {
            Ok(l) => r matches Ok(x) && vals_view(x@) == l,
            Err(e) => r matches Err(x) && x@ == e,
        },
{
    match v {
        LispVal::List(l) => Ok(clone_vals(l)),
        LispVal::Nil => {
            let e: Vec<LispVal> = Vec::new();
            assert(vals_view(e@) =~= Seq::<SVal>::empty());
            Ok(e)
        },
        _ => {
            let mut out: Vec<char> = Vec::new();
            push_str(&mut out, name);
            push_str(&mut out, ": expected list, got ");
            display_into(v, &mut out);
            Err(chars_to_string(&out))
        },
    }
}

proof fn lemma_insert_sorted_at(s: Seq<SVal>, x: SVal, j: int)
    requires
        0 <= j <= s.len(),
        forall|k: int| j <= k < s.len() ==> sort_key(#[trigger] s[k]) > sort_key(x),
        j > 0 ==> sort_key(s[j - 1]) <= sort_key(x),
    ensures
        insert_sorted(s, x) == s.take(j) + seq![x] + s.skip(j),
    decreases s.len(),
{
    if s.len() == 0 {
        assert(s.take(j) + seq![x] + s.skip(j) =~= seq![x]);
    } else if j == s.len() {
        assert(s.take(j) + seq![x] + s.skip(j) =~= s.push(x));
    } else {
        let t = s.drop_last();
        assert forall|k: int| j <= k < t.len() implies sort_key(#[trigger] t[k]) > sort_key(x) by {
            assert(t[k] == s[k]);
        };
        if j > 0 {
            assert(t[j - 1] == s[j - 1]);
        }
        lemma_insert_sorted_at(t, x, j);
        assert(t.take(j) + seq![x] + t.skip(j) + seq![s.last()] =~= s.take(j) + seq![x] + s.skip(j));
    }
}

fn sort_exec(l: Vec<LispVal>) -> (r: Vec<LispVal>)
    ensures
        vals_view(r@) == sort_vals(vals_view(l@)),
{
    let ghost vl = vals_view(l@);
    let mut out: Vec<LispVal> = Vec::new();
    let mut i: usize = 0;
    let mut src = l;
    assert(vl.take(0) =~= Seq::<SVal>::empty());
    assert(vals_view(out@) =~= Seq::<SVal>::empty());
    while i < src.len()
        invariant
            i <= src@.len(),
            vl == vals_view(src@),
            vals_view(out@) == sort_vals(vl.take(i as int)),
        decreases src.len() - i,
    {
        let x = src[i].deep_clone();
        let kx: i64 = match &x { LispVal::Num(n) => *n, _ => 0 };
        let mut j: usize = out.len();
        let ghost ov = vals_view(out@);
        while j > 0
            invariant
                j <= out@.len(),
                ov == vals_view(out@),
                forall|k: int| j <= k < ov.len() ==> sort_key(#[trigger] ov[k]) > kx,
            ensures
                j <= out@.len(),
                ov == vals_view(out@),
                forall|k: int| j <= k < ov.len() ==> sort_key(#[trigger] ov[k]) > kx,
                j > 0 ==> sort_key(ov[j - 1]) <= kx,
            decreases j,
        {
            let kj: i64 = match &out[j - 1] { LispVal::Num(n) => *n, _ => 0 };
            proof { assert(ov[j - 1] == out@[j - 1].sv()); }
            if kj <= kx {
                break;
            }
            j -= 1;
        }
        proof {
            assert(sort_key(x.sv()) == kx);
            if j > 0 {
                assert(ov[j - 1] == out@[j - 1].sv());
            }
            lemma_insert_sorted_at(ov, x.sv(), j as int);
            assert(vl.take(i + 1).drop_last() =~= vl.take(i as int));
            assert(vl.take(i + 1).last() == x.sv());
        }
        out.insert(j, x);
        assert(vals_view(out@) =~= ov.take(j as int) + seq![vl[i as int]] + ov.skip(j as int));
        i += 1;
    }
    assert(vl.take(i as int) =~= vl);
    out
}

/// Applies `range`, `reverse`, `sort` or `zip` (see `seq_spec`).
pub fn seq_builtin(name: &str, args: &Vec<LispVal>) -> (r: Option<Result<LispVal, String>>)
    ensures
        opt_res_sv(r) == seq_spec(name@, vals_view(args@)),
{
    let ghost va = vals_view(args@);
    if args.len() > 0 {
        assert(va[0] == args@[0].sv());
    }
    if args.len() > 1 {
        assert(va[1] == args@[1].sv());
    }
    if str_eq(name, "range") {
        if args.len() == 0 { return Some(Err(String::from_str("range: need 2 args"))); }
        let a = match as_num(&args[0]) { Ok(a) => a, Err(e) => { return Some(Err(e)); } };
        if args.len() < 2 { return Some(Err(String::from_str("range: need 2 args"))); }
        let b = match as_num(&args[1]) { Ok(b) => b, Err(e) => { return Some(Err(e)); } };
        let mut out: Vec<LispVal> = Vec::new();
        let mut k: i64 = a;
        while k < b
            invariant
                a <= k <= b || (a >= b && k == a),
                out@.len() == k - a,
                forall|j: int| 0 <= j < out@.len() ==> (#[trigger] out@[j]).sv() == SVal::Num(a + j),
            decreases b - k,
        {
            out.push(LispVal::Num(k));
            k += 1;
        }
        assert(vals_view(out@) =~= range_vals(a as int, b as int));
        Some(Ok(LispVal::List(out)))
    } else if str_eq(name, "reverse") || str_eq(name, "sort") {
        if args.len() == 0 { return Some(Err(missing(name))); }
        let l = match list_arg_exec(name, &args[0]) { Ok(l) => l, Err(e) => { return Some(Err(e)); } };
        if str_eq(name, "reverse") {
            let mut out: Vec<LispVal> = Vec::new();
            let mut i: usize = l.len();
            while i > 0
                invariant
                    i <= l@.len(),
                    out@.len() == l@.len() - i,
                    forall|j: int| 0 <= j < out@.len() ==> (#[trigger] out@[j]).sv() == l@[l@.len() - 1 - j].sv(),
                decreases i,
            {
                out.push(l[i - 1].deep_clone());
                i -= 1;
            }
            assert(vals_view(out@) =~= vals_view(l@).reverse());
            Some(Ok(LispVal::List(out)))
        } else {
            Some(Ok(LispVal::List(sort_exec(l))))
        }
    } else if str_eq(name, "zip") {
        if args.len() == 0 { return Some(Err(missing(name))); }
        let a = match list_arg_exec(name, &args[0]) { Ok(l) => l, Err(e) => { return Some(Err(e)); } };
        if args.len() < 2 { return Some(Err(String::from_str("zip: need 2 args"))); }
        let b = match list_arg_exec(name, &args[1]) { Ok(l) => l, Err(e) => { return Some(Err(e)); } };
        let mut out: Vec<LispVal> = Vec::new();
        let mut i: usize = 0;
        while i < a.len() && i < b.len()
            invariant
                i <= a@.len(),
                i <= b@.len(),
                out@.len() == i,
                forall|j: int| 0 <= j < i ==> (#[trigger] out@[j]).sv()
                    == SVal::List(seq![a@[j].sv(), b@[j].sv()]),
            decreases a.len() - i,
        {
            let mut pair: Vec<LispVal> = Vec::new();
            pair.push(a[i].deep_clone());
            pair.push(b[i].deep_clone());
            assert(vals_view(pair@) =~= seq![a@[i as int].sv(), b@[i as int].sv()]);
            out.push(LispVal::List(pair));
            i += 1;
        }
        assert(vals_view(out@) =~= zip_vals(vals_view(a@), vals_view(b@)));
        Some(Ok(LispVal::List(out)))
    } else {
        None
    }
}

// ---------------------------------------------------------------------------
// fmt
// ---------------------------------------------------------------------------

/// Length of the key text after a `{`: up to the first `}` or the end.
pub open spec fn key_len(cs: Seq<char>) -> nat
    decreases cs.len(),
{
    if cs.len() == 0 || cs[0] == '}' { 0 } else { 1 + key_len(cs.skip(1)) }
}

/// What `{key}` is replaced with: the value bound to `key` in a dictionary
/// (a string's raw characters, otherwise its printed form), or the
/// placeholder itself.
pub open spec fn fmt_subst(key: Seq<char>, data: SVal) -> Seq<char> {
    match data {
        SVal::Dict(m) => match lookup(m, key) {
            Some(SVal::Str(s)) => s,
            Some(v) => display(v),
            None => "{"@ + key + "}"@,
        },
        _ => "{"@ + key + "}"@,
    }
}

/// `(fmt template data)` on the template's characters.
pub open spec fn fmt_text(cs: Seq<char>, data: SVal) -> Seq<char>
    decreases cs.len(),
{
    if cs.len() == 0 {
        Seq::empty()
    } else if cs[0] == '{' {
        let rest = cs.skip(1);
        let k = key_len(rest);
        proof { lemma_key_len_bound(rest); }
        let after: Seq<char> = if k < rest.len() { rest.skip((k + 1) as int) } else { rest.skip(k as int) };
        fmt_subst(rest.take(k as int), data) + fmt_text(after, data)
    } else {
        seq![cs[0]] + fmt_text(cs.skip(1), data)
    }
}

/// `(fmt template data)`.
pub open spec fn fmt_spec(args: Seq<SVal>) -> Result<SVal, Seq<char>> {
    match nth_arg(args, 0) {
        Some(SVal::Str(t)) => match nth_arg(args, 1) {
            Some(d) => Ok(SVal::Str(fmt_text(t, d))),
            None => Err(missing_msg("fmt"@)),
        },
        Some(_) => Err("fmt: need template string"@),
        None => Err(missing_msg("fmt"@)),
    }
}

pub proof fn lemma_key_len_bound(cs: Seq<char>)
    ensures
        key_len(cs) <= cs.len(),
        forall|j: int| 0 <= j < key_len(cs) ==> cs[j] != '}',
        key_len(cs) < cs.len() ==> cs[key_len(cs) as int] == '}',
    decreases cs.len(),
{
    if cs.len() > 0 && cs[0] != '}' {
        lemma_key_len_bound(cs.skip(1));
        assert forall|j: int| 0 <= j < key_len(cs) implies cs[j] != '}' by {
            if j > 0 { assert(cs[j] == cs.skip(1)[j - 1]); }
        };
    }
}

proof fn lemma_key_len_scan(cs: Seq<char>, j: int)
    requires
        0 <= j <= cs.len(),
        forall|i: int| 0 <= i < j ==> cs[i] != '}',
        j == cs.len() || cs[j] == '}',
    ensures
        key_len(cs) == j,
    decreases j,
{
    if j > 0 {
        lemma_key_len_scan(cs.skip(1), j - 1);
    }
}

fn fmt_subst_exec(key: &str, data: &LispVal, out: &mut Vec<char>)
    ensures
        final(out)@ == old(out)@ + fmt_subst(key@, data.sv()),
{
    if let LispVal::Dict(m) = data {
        match dict_lookup(m, key) {
            Some(v) => {
                match v {
                    LispVal::Str(s) => { push_str(out, s.as_str()); },
                    _ => { display_into(v, out); },
                }
                return;
            },
            None => {},
        }
    }
    out.push('{');
    push_str(out, key);
    out.push('}');
    proof {
        reveal_strlit("{");
        reveal_strlit("}");
    }
    assert(out@ =~= old(out)@ + fmt_subst(key@, data.sv()));
}

fn fmt_exec(template: &str, data: &LispVal) -> (r: String)
    ensures
        r@ == fmt_text(template@, data.sv()),
{
    let cs = str_to_chars(template);
    let mut out: Vec<char> = Vec::new();
    let mut i: usize = 0;
    assert(cs@.skip(0) =~= cs@);
    while i < cs.len()
        invariant
            i <= cs@.len(),
            cs@ == template@,
            fmt_text(cs@, data.sv()) == out@ + fmt_text(cs@.skip(i as int), data.sv()),
        decreases cs.len() - i,
    {
        let ghost t = cs@.skip(i as int);
        assert(t[0] == cs@[i as int]);
        if cs[i] == '{' {
            let mut key: Vec<char> = Vec::new();
            let mut j: usize = i + 1;
            while j < cs.len() && cs[j] != '}'
                invariant
                    i + 1 <= j <= cs@.len(),
                    key@ == cs@.subrange(i + 1, j as int),
                    forall|q: int| i + 1 <= q < j ==> cs@[q] != '}',
                decreases cs.len() - j,
            {
                key.push(cs[j]);
                j += 1;
                assert(key@ =~= cs@.subrange(i + 1, j as int));
            }
            proof {
                let rest = t.skip(1);
                assert(rest =~= cs@.skip(i + 1));
                lemma_key_len_scan(rest, j - i - 1);
                assert(rest.take(j - i - 1) =~= key@);
                if j < cs.len() {
                    assert(rest.skip(j - i - 1 + 1) =~= cs@.skip(j + 1));
                } else {
                    assert(rest.skip(j - i - 1) =~= cs@.skip(j as int));
                }
            }
            let ks = chars_to_string(&key);
            let ghost before = out@;
            fmt_subst_exec(ks.as_str(), data, &mut out);
            if j < cs.len() {
                i = j + 1;
            } else {
                i = j;
            }
            assert(out@ + fmt_text(cs@.skip(i as int), data.sv()) =~= before + fmt_text(t, data.sv()));
        } else {
            let ghost before = out@;
            out.push(cs[i]);
            assert(t.skip(1) =~= cs@.skip(i + 1));
            i += 1;
            assert(out@ + fmt_text(cs@.skip(i as int), data.sv()) =~= before + fmt_text(t, data.sv()));
        }
    }
    assert(cs@.skip(i as int) =~= Seq::<char>::empty());
    assert(out@ + Seq::<char>::empty() =~= out@);
    chars_to_string(&out)
}

pub fn fmt_builtin(args: &Vec<LispVal>) -> (r: Result<LispVal, String>)
    ensures
        res_sv(r) == fmt_spec(vals_view(args@)),
{
    let ghost va = vals_view(args@);
    if args.len() == 0 {
        return Err(missing("fmt"));
    }
    proof { assert(va[0] == args@[0].sv()); }
    let t = match &args[0] {
        LispVal::Str(t) => t,
        _ => { return Err(String::from_str("fmt: need template string")); },
    };
    if args.len() < 2 {
        return Err(missing("fmt"));
    }
    proof { assert(va[1] == args@[1].sv()); }
    Ok(LispVal::Str(fmt_exec(t.as_str(), &args[1])))
}

} // verus!
