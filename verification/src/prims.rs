//! The table of builtins that compute from their evaluated arguments alone.
use vstd::prelude::*;
use crate::text::{str_eq, chars_to_string};
use crate::types::{LispVal, SVal, vals_view, lemma_sv_unfold};
use crate::display::push_str;
use crate::builtins::{res_sv, opt_res_sv, nth_arg, missing_msg, numeric_spec, list_spec, string_spec, type_spec,
    dict_spec, seq_spec, fmt_spec, numeric_builtin, list_builtin, string_builtin, type_builtin, dict_builtin,
    seq_builtin, fmt_builtin};
use crate::json::{json_text, json_value, lisp_to_json, json_to_lisp, JSON_DEPTH};
use crate::effects::str_arg_or;

verus! {

broadcast use lemma_sv_unfold;

/// `fmt`, `to-json` and `from-json`.
pub open spec fn text_spec(name: Seq<char>, args: Seq<SVal>) -> Option<Result<SVal, Seq<char>>> {
    if name == "fmt"@ {
        Some(fmt_spec(args))
    } else if name == "to-json"@ {
        Some(match nth_arg(args, 0) { Some(v) => Ok(SVal::Str(json_text(v))), None => Err(missing_msg(name)) })
    } else if name == "from-json"@ {
        Some(match str_arg_or(args, 0, "from-json: missing argument"@, "from-json: expected string"@) {
            Err(e) => Err(e),
            Ok(s) => match json_value(s, JSON_DEPTH as nat) {
                Ok(v) => Ok(v),
                Err(e) => Err("from-json: "@ + e),
            },
        })
    } else {
        None
    }
}

/// The value-only builtins: the first group that knows the name answers.
pub open spec fn pure_spec(name: Seq<char>, args: Seq<SVal>) -> Option<Result<SVal, Seq<char>>> {
    match numeric_spec(name, args) {
        Some(r) => Some(r),
        None => match list_spec(name, args) {
            Some(r) => Some(r),
            None => match string_spec(name, args) {
                Some(r) => Some(r),
                None => match type_spec(name, args) {
                    Some(r) => Some(r),
                    None => match dict_spec(name, args) {
                        Some(r) => Some(r),
                        None => match seq_spec(name, args) {
                            Some(r) => Some(r),
                            None => text_spec(name, args),
                        },
                    },
                },
            },
        },
    }
}

fn text_builtin(name: &str, args: &Vec<LispVal>) -> (r: Option<Result<LispVal, String>>)
    ensures
        opt_res_sv(r) == text_spec(name@, vals_view(args@)),
{
    let ghost va = vals_view(args@);
    if str_eq(name, "fmt") {
        Some(fmt_builtin(args))
    } else if str_eq(name, "to-json") {
        if args.len() == 0 {
            let mut out: Vec<char> = Vec::new();
            push_str(&mut out, name);
            push_str(&mut out, ": missing argument");
            return Some(Err(chars_to_string(&out)));
        }
        proof { assert(va[0] == args@[0].sv()); }
        Some(Ok(LispVal::Str(lisp_to_json(&args[0]))))
    } else if str_eq(name, "from-json") {
        if args.len() == 0 {
            return Some(Err(String::from_str("from-json: missing argument")));
        }
        proof { assert(va[0] == args@[0].sv()); }
        let s = match crate::helpers::as_str(&args[0]) {
            Ok(s) => s,
            Err(_) => { return Some(Err(String::from_str("from-json: expected string"))); },
        };
        match json_to_lisp(s.as_str()) {
            Ok(v) => Some(Ok(v)),
            Err(e) => {
                let mut out: Vec<char> = Vec::new();
                push_str(&mut out, "from-json: ");
                push_str(&mut out, e.as_str());
                Some(Err(chars_to_string(&out)))
            },
        }
    } else {
        None
    }
}

/// Applies a value-only builtin (see `pure_spec`); `None` for other names.
pub fn pure_builtin(name: &str, args: &Vec<LispVal>) -> (r: Option<Result<LispVal, String>>)
    ensures
        opt_res_sv(r) == pure_spec(name@, vals_view(args@)),
{
    match numeric_builtin(name, args) {
        Some(r) => { return Some(r); },
        None => {},
    }
    match list_builtin(name, args) {
        Some(r) => { return Some(r); },
        None => {},
    }
    match string_builtin(name, args) {
        Some(r) => { return Some(r); },
        None => {},
    }
    match type_builtin(name, args) {
        Some(r) => { return Some(r); },
        None => {},
    }
    match dict_builtin(name, args) {
        Some(r) => { return Some(r); },
        None => {},
    }
    match seq_builtin(name, args) {
        Some(r) => { return Some(r); },
        None => {},
    }
    text_builtin(name, args)
}

/// The value kinds `type?` tells apart.
pub open spec fn same_kind(a: SVal, b: SVal) -> bool {
    &&& (a is Nil <==> b is Nil)
    &&& (a is Bool <==> b is Bool)
    &&& (a is Num <==> b is Num)
    &&& (a is Str <==> b is Str)
    &&& (a is Sym <==> b is Sym)
    &&& (a is List <==> b is List)
    &&& (a is Dict <==> b is Dict)
    &&& (a is Lambda <==> b is Lambda)
    &&& (a is Recur <==> b is Recur)
}

/// `(type? v)` answers a name for `v`'s kind: a string is a `string`, a
/// number a `number`, a symbol a `symbol`, a list a `list`; and two values
/// get the same name exactly when they are of the same kind.
pub proof fn lemma_type_of(a: SVal, b: SVal)
    ensures
        pure_spec("type?"@, seq![a]) matches Some(Ok(SVal::Str(ta)))
            && pure_spec("type?"@, seq![b]) matches Some(Ok(SVal::Str(tb)))
            && (a is Str ==> ta == "string"@)
            && (a is Num ==> ta == "number"@)
            && (a is Sym ==> ta == "symbol"@)
            && (a is List ==> ta == "list"@)
            && (ta == tb <==> same_kind(a, b)),
{
    assert(seq![a][0] == a && seq![b][0] == b);
    lemma_type_spec_of(a);
    lemma_type_spec_of(b);
    lemma_kind_names_differ(a, b);
}

proof fn lemma_kind_names_differ(a: SVal, b: SVal)
    ensures
        crate::builtins::kind_name(a) == crate::builtins::kind_name(b) <==> same_kind(a, b),
{
    reveal_strlit("nil");
    reveal_strlit("boolean");
    reveal_strlit("number");
    reveal_strlit("string");
    reveal_strlit("list");
    reveal_strlit("map");
    reveal_strlit("lambda");
    reveal_strlit("symbol");
    reveal_strlit("unknown");
    assert("nil"@.len() == 3 && "map"@.len() == 3 && "boolean"@.len() == 7 && "unknown"@.len() == 7 && "list"@.len() == 4);
    assert("number"@.len() == 6 && "string"@.len() == 6 && "lambda"@.len() == 6 && "symbol"@.len() == 6);
    assert("nil"@[0] == 'n' && "map"@[0] == 'm' && "boolean"@[0] == 'b' && "unknown"@[0] == 'u');
    assert("number"@[0] == 'n' && "string"@[0] == 's' && "lambda"@[0] == 'l' && "symbol"@[0] == 's');
    assert("string"@[1] == 't' && "symbol"@[1] == 'y');
}

/// What `pure_spec` answers for `type?` on one value.
proof fn lemma_type_spec_of(a: SVal)
    ensures
        pure_spec("type?"@, seq![a]) == Some(Ok::<SVal, Seq<char>>(SVal::Str(crate::builtins::kind_name(a)))),
{
    lemma_type_not_numeric(seq![a]);
    lemma_type_not_list(seq![a]);
    lemma_type_not_string(seq![a]);
    lemma_type_is_type(a);
}

proof fn lemma_type_not_numeric(args: Seq<SVal>)
    ensures
        crate::builtins::numeric_spec("type?"@, args) is None,
{
    reveal_strlit("type?");
    reveal_strlit("+");
    reveal_strlit("-");
    reveal_strlit("*");
    reveal_strlit("/");
    reveal_strlit("mod");
    reveal_strlit("=");
    reveal_strlit("==");
    reveal_strlit("!=");
    reveal_strlit("/=");
    reveal_strlit("<");
    reveal_strlit(">");
    reveal_strlit("<=");
    reveal_strlit(">=");
}

proof fn lemma_type_not_list(args: Seq<SVal>)
    ensures
        crate::builtins::list_spec("type?"@, args) is None,
{
    reveal_strlit("type?");
    reveal_strlit("append");
    reveal_strlit("car");
    reveal_strlit("cdr");
    reveal_strlit("cons");
    reveal_strlit("len");
    reveal_strlit("list");
    reveal_strlit("nth");
    assert("type?"@.len() == 5 && "append"@.len() == 6 && "car"@.len() == 3 && "cdr"@.len() == 3);
    assert("cons"@.len() == 4 && "len"@.len() == 3 && "list"@.len() == 4 && "nth"@.len() == 3);
}

proof fn lemma_type_not_string(args: Seq<SVal>)
    ensures
        crate::builtins::string_spec("type?"@, args) is None,
{
    reveal_strlit("type?");
    reveal_strlit("str-concat");
    reveal_strlit("str-substring");
    reveal_strlit("to-string");
    reveal_strlit("str-length");
    reveal_strlit("str-trim");
    reveal_strlit("str-upcase");
    reveal_strlit("str-downcase");
    reveal_strlit("str-contains");
    reveal_strlit("str-split");
    reveal_strlit("str-index-of");
    reveal_strlit("str-starts-with");
    reveal_strlit("str-ends-with");
    reveal_strlit("str=");
    reveal_strlit("str!=");
    assert("str!="@[0] == 's' && "type?"@[0] == 't');
}

proof fn lemma_type_is_type(a: SVal)
    ensures
        crate::builtins::type_spec("type?"@, seq![a]) == Some(Ok::<SVal, Seq<char>>(SVal::Str(crate::builtins::kind_name(a)))),
{
    assert(seq![a].len() == 1 && seq![a][0] == a);
    reveal_strlit("type?");
    reveal_strlit("nil?");
    reveal_strlit("empty?");
    reveal_strlit("list?");
    reveal_strlit("number?");
    reveal_strlit("bool?");
    reveal_strlit("string?");
    reveal_strlit("map?");
    reveal_strlit("to-float");
    reveal_strlit("to-int");
    reveal_strlit("to-num");
    assert("type?"@[0] == 't' && "type?"@[1] == 'y' && "to-int"@[1] == 'o' && "to-num"@[1] == 'o' && "to-float"@[1] == 'o');
    assert("nil?"@[0] == 'n' && "list?"@[0] == 'l' && "bool?"@[0] == 'b' && "map?"@[0] == 'm');
    assert(!crate::builtins::is_type_test("type?"@));
}

} // verus!
