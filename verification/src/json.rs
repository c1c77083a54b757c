//! JSON text to and from Lisp values. `serde_json` parses JSON text and
//! quotes strings; everything else is this module's own logic.
use vstd::prelude::*;
use crate::text::{int_to_decimal, nat_to_decimal, digit_char, i64_to_chars, chars_to_string, str_to_chars};
use crate::types::{LispVal, SVal, lemma_sv_unfold, vals_view, binds_view};
use crate::display::{display, push_str, push_all, join};
use crate::dict::{dict_insert, dict_set};
use serde_json::Value;

verus! {

broadcast use lemma_sv_unfold;

/// A lower-case hexadecimal digit.
pub open spec fn hex_digit_char(n: int) -> char {
    if n < 10 { ('0' as int + n) as char } else { ('a' as int + n - 10) as char }
}

/// How a character stands inside a JSON string literal: `"` and `\` and the
/// control characters below 0x20 are escaped (`\b`, `\t`, `\n`, `\f`,
/// `\r`, else `\u00XX`), every other character stands for itself.
pub open spec fn json_escape_char(c: char) -> Seq<char> {
    let u = c as int;
    if c == '"' {
        seq!['\\', '"']
    } else if c == '\\' {
        seq!['\\', '\\']
    } else if u == 0x08 {
        seq!['\\', 'b']
    } else if u == 0x09 {
        seq!['\\', 't']
    } else if u == 0x0a {
        seq!['\\', 'n']
    } else if u == 0x0c {
        seq!['\\', 'f']
    } else if u == 0x0d {
        seq!['\\', 'r']
    } else if u < 0x20 {
        seq!['\\', 'u', '0', '0', hex_digit_char(u / 16), hex_digit_char(u % 16)]
    } else {
        seq![c]
    }
}

/// The escaped characters of a text.
pub open spec fn json_escape(s: Seq<char>) -> Seq<char>
    decreases s.len(),
{
    if s.len() == 0 { Seq::empty() } else { json_escape(s.drop_last()) + json_escape_char(s.last()) }
}

/// A JSON string literal for a text, as `serde_json::to_string` writes it.
pub open spec fn json_quote_of(s: Seq<char>) -> Seq<char> {
    seq!['"'] + json_escape(s) + seq!['"']
}

/// `serde_json::to_string` on a string: the text between double quotes,
/// each character escaped as `json_escape_char` says.
#[verifier::external_body]
pub(crate) fn json_quote(s: &str) -> (r: String)
    ensures
        r@ == json_quote_of(s@),
{
    match serde_json::to_string(s) {
        Ok(t) => t,
        Err(_) => String::new(),
    }
}

/// One level of a parsed JSON document; nested values are kept as their
/// compact JSON text.
pub enum JsonNode {
    Null,
    Bool(bool),
    /// A number; `None` when it is not an `i64`.
    Number(Option<i64>),
    Str(String),
    Array(Vec<String>),
    Object(Vec<(String, String)>),
}

/// Model of a `JsonNode`.
pub enum JNode {
    Null,
    Bool(bool),
    Number(Option<i64>),
    Str(Seq<char>),
    Array(Seq<Seq<char>>),
    Object(Seq<(Seq<char>, Seq<char>)>),
}

impl View for JsonNode {
    type V = JNode;

    open spec fn view(&self) -> JNode {
        match self {
            JsonNode::Null => JNode::Null,
            JsonNode::Bool(b) => JNode::Bool(*b),
            JsonNode::Number(n) => JNode::Number(*n),
            JsonNode::Str(s) => JNode::Str(s@),
            JsonNode::Array(a) => JNode::Array(Seq::new(a@.len(), |i: int| a@[i]@)),
            JsonNode::Object(o) => JNode::Object(Seq::new(o@.len(), |i: int| (o@[i].0@, o@[i].1@))),
        }
    }
}

/// What `serde_json::from_str::<serde_json::Value>` reads from a text: its
/// top level, or the parser's error message.
pub uninterp spec fn json_parse_of(text: Seq<char>) -> Result<JNode, Seq<char>>;

/// `serde_json::from_str` into a `serde_json::Value`, taken apart one level.
#[verifier::external_body]
fn json_parse(text: &str) -> (r: Result<JsonNode, String>)
    ensures
        match json_parse_of(text@) {
            Ok(n) => r matches Ok(x) && x@ == n,
            Err(e) => r matches Err(x) && x@ == e,
        },
{
    let v = match serde_json::from_str::<Value>(text) {
        Ok(v) => v,
        Err(e) => return Err(e.to_string()),
    };
    Ok(match v {
        Value::Null => JsonNode::Null,
        Value::Bool(b) => JsonNode::Bool(b),
        Value::Number(n) => JsonNode::Number(n.as_i64()),
        Value::String(s) => JsonNode::Str(s),
        Value::Array(a) => JsonNode::Array(a.iter().map(Value::to_string).collect()),
        Value::Object(m) => JsonNode::Object(m.iter().map(|(k, c)| (k.clone(), c.to_string())).collect()),
    })
}

// ---------------------------------------------------------------------------
// Lisp value -> JSON text
// ---------------------------------------------------------------------------

/// Compact JSON text of a value: `nil` is `null`, lists are arrays,
/// dictionaries objects; symbols, lambdas and recur signals become strings
/// of their printed form.
pub open spec fn json_text(v: SVal) -> Seq<char>
    decreases v,
{
    match v {
        SVal::Nil => "null"@,
        SVal::Bool(b) => if b { "true"@ } else { "false"@ },
        SVal::Num(n) => int_to_decimal(n),
        SVal::Str(s) => json_quote_of(s),
        SVal::List(items) => "["@ + json_items(items) + "]"@,
        SVal::Dict(m) => "{"@ + json_members(m) + "}"@,
        _ => json_quote_of(display(v)),
    }
}

/// Array elements separated by commas.
pub open spec fn json_items(items: Seq<SVal>) -> Seq<char>
    decreases items,
{
    if items.len() == 0 {
        Seq::empty()
    } else if items.len() == 1 {
        json_text(items[0])
    } else {
        json_items(items.drop_last()) + ","@ + json_text(items.last())
    }
}

/// Object members `"key":value` separated by commas.
pub open spec fn json_members(m: Seq<(Seq<char>, SVal)>) -> Seq<char>
    decreases m,
{
    if m.len() == 0 {
        Seq::empty()
    } else if m.len() == 1 {
        json_quote_of(m[0].0) + ":"@ + json_text(m[0].1)
    } else {
        json_members(m.drop_last()) + ","@ + json_quote_of(m.last().0) + ":"@ + json_text(m.last().1)
    }
}

fn json_into(v: &LispVal, out: &mut Vec<char>)
    ensures
        final(out)@ == old(out)@ + json_text(v.sv()),
    decreases v,
{
    match v {
        LispVal::Nil => { push_str(out, "null"); },
        LispVal::Bool(b) => { if *b { push_str(out, "true"); } else { push_str(out, "false"); } },
        LispVal::Num(n) => { push_all(out, &i64_to_chars(*n)); },
        LispVal::Str(s) => { push_str(out, json_quote(s.as_str()).as_str()); },
        LispVal::List(items) => {
            push_str(out, "[");
            json_items_into(items, out);
            push_str(out, "]");
            assert(out@ =~= old(out)@ + json_text(v.sv()));
        },
        LispVal::Dict(m) => {
            push_str(out, "{");
            json_members_into(m, out);
            push_str(out, "}");
            assert(out@ =~= old(out)@ + json_text(v.sv()));
        },
        _ => {
            let d = v.to_lisp_string();
            push_str(out, json_quote(d.as_str()).as_str());
        },
    }
}

fn json_items_into(items: &Vec<LispVal>, out: &mut Vec<char>)
    ensures
        final(out)@ == old(out)@ + json_items(vals_view(items@)),
    decreases items,
{
    let ghost pre = out@;
    let ghost vv = vals_view(items@);
    let mut i: usize = 0;
    assert(out@ =~= pre + json_items(vv.take(0)));
    while i < items.len()
        invariant
            i <= items@.len(),
            vv == vals_view(items@),
            out@ == pre + json_items(vv.take(i as int)),
        decreases items.len() - i,
    {
        if i > 0 {
            push_str(out, ",");
        }
        proof { assert(decreases_to!(items => items@[i as int])); }
        json_into(&items[i], out);
        proof {
            assert(vv.take(i + 1).drop_last() =~= vv.take(i as int));
            assert(vv.take(i + 1).last() == items@[i as int].sv());
            if i == 0 {
                assert(vv.take(1)[0] == items@[0].sv());
            }
        }
        i += 1;
        assert(out@ =~= pre + json_items(vv.take(i as int)));
    }
    assert(vv.take(i as int) =~= vv);
}

fn json_members_into(m: &Vec<(String, LispVal)>, out: &mut Vec<char>)
    ensures
        final(out)@ == old(out)@ + json_members(binds_view(m@)),
    decreases m,
{
    let ghost pre = out@;
    let ghost bv = binds_view(m@);
    let mut i: usize = 0;
    assert(out@ =~= pre + json_members(bv.take(0)));
    while i < m.len()
        invariant
            i <= m@.len(),
            bv == binds_view(m@),
            out@ == pre + json_members(bv.take(i as int)),
        decreases m.len() - i,
    {
        if i > 0 {
            push_str(out, ",");
        }
        push_str(out, json_quote(m[i].0.as_str()).as_str());
        push_str(out, ":");
        proof { assert(decreases_to!(m => m@[i as int].1)); }
        json_into(&m[i].1, out);
        proof {
            assert(bv.take(i + 1).drop_last() =~= bv.take(i as int));
            assert(bv.take(i + 1).last() == (m@[i as int].0@, m@[i as int].1.sv()));
            if i == 0 {
                assert(bv.take(1)[0] == (m@[0].0@, m@[0].1.sv()));
            }
        }
        i += 1;
        assert(out@ =~= pre + json_members(bv.take(i as int)));
    }
    assert(bv.take(i as int) =~= bv);
}

/// Compact JSON text of a value (see `json_text`).
pub fn lisp_to_json(val: &LispVal) -> (r: String)
    ensures
        r@ == json_text(val.sv()),
{
    let mut out: Vec<char> = Vec::new();
    json_into(val, &mut out);
    assert(out@ =~= json_text(val.sv()));
    chars_to_string(&out)
}

// ---------------------------------------------------------------------------
// JSON text -> Lisp value
// ---------------------------------------------------------------------------

/// How deep JSON may nest; `serde_json` refuses deeper documents itself.
pub const JSON_DEPTH: u64 = 128;

/// The value a JSON text stands for, reading nested documents at most
/// `fuel` levels deep: `null` is `nil`, arrays are lists, objects are
/// dictionaries (later members win); numbers must be `i64`. A text that is
/// exactly a JSON integer in the `i64` range is read here directly.
pub open spec fn json_value(text: Seq<char>, fuel: nat) -> Result<SVal, Seq<char>>
    decreases fuel, 1nat,
{
    match int_text_value(text) {
        Some(n) => Ok(SVal::Num(n)),
        None => match json_parse_of(text) {
            Err(e) => Err(e),
            Ok(node) => node_value(node, fuel),
        },
    }
}

/// A decimal digit.
pub open spec fn is_digit(c: char) -> bool {
    '0' <= c <= '9'
}

/// The value of a string of decimal digits.
pub open spec fn digits_value(s: Seq<char>) -> int
    decreases s.len(),
{
    if s.len() == 0 { 0 } else { digits_value(s.drop_last()) * 10 + (s.last() as int - '0' as int) }
}

/// Digits as JSON writes an integer's magnitude: at least one, and no
/// leading zero unless the number is `0`.
pub open spec fn plain_digits(s: Seq<char>) -> bool {
    &&& s.len() > 0
    &&& forall|i: int| 0 <= i < s.len() ==> is_digit(#[trigger] s[i])
    &&& (s.len() == 1 || s[0] != '0')
}

/// JSON's whitespace.
pub open spec fn is_json_ws(c: char) -> bool {
    c == ' ' || c == '\t' || c == '\n' || c == '\r'
}

/// The text without its leading whitespace.
pub open spec fn trim_front(t: Seq<char>) -> Seq<char>
    decreases t.len(),
{
    if t.len() > 0 && is_json_ws(t[0]) { trim_front(t.drop_first()) } else { t }
}

/// The text without its trailing whitespace.
pub open spec fn trim_back(t: Seq<char>) -> Seq<char>
    decreases t.len(),
{
    if t.len() > 0 && is_json_ws(t.last()) { trim_back(t.drop_last()) } else { t }
}

/// The value of a text that is a JSON integer within the `i64` range,
/// with whitespace around it or not.
pub open spec fn int_text_value(t: Seq<char>) -> Option<int> {
    int_core_value(trim_back(trim_front(t)))
}

/// The value of a text that is exactly a JSON integer (an optional `-`,
/// then plain digits; not `-0`) within the `i64` range.
pub open spec fn int_core_value(t: Seq<char>) -> Option<int> {
    if t.len() > 1 && t[0] == '-' {
        let d = t.drop_first();
        if plain_digits(d) && d != seq!['0'] && digits_value(d) <= 9223372036854775808 {
            Some(-digits_value(d))
        } else {
            None
        }
    } else if plain_digits(t) && digits_value(t) <= 9223372036854775807 {
        Some(digits_value(t))
    } else {
        None
    }
}

/// The decimal text of a natural number is plain digits worth the number.
proof fn lemma_nat_decimal(n: nat)
    ensures
        plain_digits(nat_to_decimal(n)),
        digits_value(nat_to_decimal(n)) == n,
        n > 0 ==> nat_to_decimal(n)[0] != '0',
    decreases n,
{
    let s = nat_to_decimal(n);
    if n < 10 {
        assert(s == seq![digit_char(n as int)]);
        assert(s.drop_last() =~= Seq::<char>::empty());
        assert(s.last() as int == '0' as int + n);
        assert(digits_value(s.drop_last()) == 0);
        assert(digits_value(s) == digits_value(s.drop_last()) * 10 + (s.last() as int - '0' as int));
    } else {
        let q = n / 10;
        let r = n % 10;
        lemma_nat_decimal(q);
        let p = nat_to_decimal(q);
        assert(s == p.push(digit_char(r as int)));
        assert(s.drop_last() =~= p);
        assert(s.last() as int == '0' as int + r);
        assert(digits_value(s) == digits_value(p) * 10 + (s.last() as int - '0' as int));
        assert(q * 10 + r == n) by (nonlinear_arith)
            requires q == n / 10, r == n % 10;
        assert(s[0] == p[0]);
        assert forall|i: int| 0 <= i < s.len() implies is_digit(#[trigger] s[i]) by {
            if i < p.len() { assert(s[i] == p[i]); }
        };
    }
}

/// The JSON integer text of an `i64` reads back as that number.
proof fn lemma_int_text_roundtrip(n: i64)
    ensures
        int_text_value(int_to_decimal(n as int)) == Some(n as int),
{
    if n < 0 {
        let m = (-(n as int)) as nat;
        lemma_nat_decimal(m);
        let t = int_to_decimal(n as int);
        assert(t == seq!['-'] + nat_to_decimal(m));
        assert(t.drop_first() =~= nat_to_decimal(m));
        assert(t[0] == '-');
        assert(nat_to_decimal(m) != seq!['0']) by {
            assert(nat_to_decimal(m)[0] != '0');
        }
    } else {
        lemma_nat_decimal(n as nat);
        let t = int_to_decimal(n as int);
        assert(is_digit(t[0]));
    }
    let t = int_to_decimal(n as int);
    assert(is_digit(t[t.len() - 1])) by {
        if n < 0 {
            let m = (-(n as int)) as nat;
            assert(t[t.len() - 1] == nat_to_decimal(m)[nat_to_decimal(m).len() - 1]);
        }
    }
    assert(trim_front(t) == t);
    assert(trim_back(t) == t);
}

/// `from-json` reads every `i64` back from the text JSON writes for it,
/// negative numbers included.
pub proof fn lemma_json_reads_integers(n: i64, fuel: nat)
    ensures
        json_value(int_to_decimal(n as int), fuel) == Ok::<SVal, Seq<char>>(SVal::Num(n as int)),
{
    lemma_int_text_roundtrip(n);
}

/// The value of one parsed level.
pub open spec fn node_value(node: JNode, fuel: nat) -> Result<SVal, Seq<char>>
    decreases fuel, 0nat,
{
    match node {
        JNode::Null => Ok(SVal::Nil),
        JNode::Bool(b) => Ok(SVal::Bool(b)),
        JNode::Number(Some(n)) => Ok(SVal::Num(n as int)),
        JNode::Number(None) => Err("floats are not supported"@),
        JNode::Str(s) => Ok(SVal::Str(s)),
        JNode::Array(items) => if fuel == 0 {
            Err("nesting too deep"@)
        } else {
            match json_list(items, (fuel - 1) as nat) {
                Ok(vs) => Ok(SVal::List(vs)),
                Err(e) => Err(e),
            }
        },
        JNode::Object(members) => if fuel == 0 {
            Err("nesting too deep"@)
        } else {
            match json_object(members, (fuel - 1) as nat) {
                Ok(m) => Ok(SVal::Dict(m)),
                Err(e) => Err(e),
            }
        },
    }
}

/// Values of array elements, in order; the first failure wins.
pub open spec fn json_list(items: Seq<Seq<char>>, fuel: nat) -> Result<Seq<SVal>, Seq<char>>
    decreases fuel, 2nat, items.len(),
{
    if items.len() == 0 {
        Ok(Seq::empty())
    } else {
        match json_list(items.drop_last(), fuel) {
            Err(e) => Err(e),
            Ok(vs) => match json_value(items.last(), fuel) {
                Err(e) => Err(e),
                Ok(v) => Ok(vs.push(v)),
            },
        }
    }
}

/// The dictionary of object members, bound in order.
pub open spec fn json_object(members: Seq<(Seq<char>, Seq<char>)>, fuel: nat) -> Result<Seq<(Seq<char>, SVal)>, Seq<char>>
    decreases fuel, 2nat, members.len(),
{
    if members.len() == 0 {
        Ok(Seq::empty())
    } else {
        match json_object(members.drop_last(), fuel) {
            Err(e) => Err(e),
            Ok(m) => match json_value(members.last().1, fuel) {
                Err(e) => Err(e),
                Ok(v) => Ok(dict_insert(m, members.last().0, v)),
            },
        }
    }
}

proof fn lemma_digits_nonneg(s: Seq<char>)
    requires
        forall|i: int| 0 <= i < s.len() ==> is_digit(#[trigger] s[i]),
    ensures
        digits_value(s) >= 0,
    decreases s.len(),
{
    if s.len() > 0 {
        let t = s.drop_last();
        assert forall|i: int| 0 <= i < t.len() implies is_digit(#[trigger] t[i]) by { assert(t[i] == s[i]); };
        lemma_digits_nonneg(t);
        assert(is_digit(s[s.len() - 1]));
    }
}

/// A longer run of digits is worth at least as much as its start.
proof fn lemma_digits_grow(s: Seq<char>, m: int)
    requires
        0 <= m <= s.len(),
        forall|i: int| 0 <= i < s.len() ==> is_digit(#[trigger] s[i]),
    ensures
        digits_value(s.take(m)) <= digits_value(s),
    decreases s.len(),
{
    if m < s.len() {
        let t = s.drop_last();
        assert forall|i: int| 0 <= i < t.len() implies is_digit(#[trigger] t[i]) by { assert(t[i] == s[i]); };
        lemma_digits_grow(t, m);
        assert(t.take(m) =~= s.take(m));
        lemma_digits_nonneg(t);
        assert(is_digit(s[s.len() - 1]));
    } else {
        assert(s.take(m) =~= s);
    }
}

/// How `int_core_value` reads a text: its digits after an optional `-`.
proof fn lemma_int_text_digits(t: Seq<char>, neg: bool, d: Seq<char>)
    requires
        neg == (t.len() > 1 && t[0] == '-'),
        neg ==> d == t.drop_first(),
        !neg ==> d == t,
    ensures
        !plain_digits(d) ==> int_core_value(t) is None,
        digits_value(d) > 9223372036854775808 ==> int_core_value(t) is None,
{
}

/// A text whose digits part holds a non-digit is no JSON integer.
proof fn lemma_int_text_nondigit(t: Seq<char>, neg: bool, d: Seq<char>, i: int)
    requires
        neg == (t.len() > 1 && t[0] == '-'),
        neg ==> d == t.drop_first(),
        !neg ==> d == t,
        0 <= i < d.len(),
        !is_digit(d[i]),
    ensures
        int_core_value(t) is None,
{
    lemma_int_text_digits(t, neg, d);
}

/// Whether every char from `start` on is a decimal digit.
fn all_digits(cs: &Vec<char>, start: usize) -> (r: bool)
    requires
        start <= cs@.len(),
    ensures
        r == forall|i: int| start <= i < cs@.len() ==> is_digit(#[trigger] cs@[i]),
{
    let mut k: usize = start;
    while k < cs.len()
        invariant
            start <= k <= cs@.len(),
            forall|i: int| start <= i < k ==> is_digit(#[trigger] cs@[i]),
        decreases cs.len() - k,
    {
        let c = cs[k];
        if !('0' <= c && c <= '9') {
            return false;
        }
        k += 1;
    }
    true
}

/// Leading whitespace can be dropped one char at a time.
proof fn lemma_trim_front_step(t: Seq<char>, lo: int)
    requires
        0 <= lo < t.len(),
        is_json_ws(t[lo]),
    ensures
        trim_front(t.skip(lo + 1)) == trim_front(t.skip(lo)),
{
    assert(t.skip(lo).drop_first() =~= t.skip(lo + 1));
}

/// Trailing whitespace can be dropped one char at a time.
proof fn lemma_trim_back_step(u: Seq<char>, m: int)
    requires
        0 < m <= u.len(),
        is_json_ws(u[m - 1]),
    ensures
        trim_back(u.take(m - 1)) == trim_back(u.take(m)),
{
    assert(u.take(m).drop_last() =~= u.take(m - 1));
}

/// The chars without JSON whitespace before and after.
fn trim_json_ws(cs: &Vec<char>) -> (r: Vec<char>)
    ensures
        r@ == trim_back(trim_front(cs@)),
{
    let ghost t = cs@;
    let mut lo: usize = 0;
    assert(t.skip(0) =~= t);
    while lo < cs.len() && (cs[lo] == ' ' || cs[lo] == '\t' || cs[lo] == '\n' || cs[lo] == '\r')
        invariant
            t == cs@,
            lo <= cs@.len(),
            trim_front(t.skip(lo as int)) == trim_front(t),
        decreases cs.len() - lo,
    {
        proof {
            lemma_trim_front_step(t, lo as int);
        }
        lo += 1;
    }
    let ghost u = t.skip(lo as int);
    assert(trim_front(u) == u);
    let mut hi: usize = cs.len();
    assert(u.take(u.len() as int) =~= u);
    while hi > lo && (cs[hi - 1] == ' ' || cs[hi - 1] == '\t' || cs[hi - 1] == '\n' || cs[hi - 1] == '\r')
        invariant
            t == cs@,
            u == t.skip(lo as int),
            lo <= hi <= cs@.len(),
            trim_back(u.take(hi - lo)) == trim_back(u),
        decreases hi,
    {
        proof {
            assert(u[hi - 1 - lo] == t[hi - 1]);
            lemma_trim_back_step(u, hi - lo);
        }
        hi -= 1;
    }
    proof {
        let w = u.take(hi - lo);
        if w.len() > 0 {
            assert(w.last() == t[hi - 1]);
        }
        assert(trim_back(w) == w);
    }
    let mut r: Vec<char> = Vec::new();
    let mut k: usize = lo;
    while k < hi
        invariant
            t == cs@,
            u == t.skip(lo as int),
            lo <= k <= hi <= cs@.len(),
            r@ =~= u.take(k - lo),
        decreases hi - k,
    {
        r.push(cs[k]);
        k += 1;
    }
    r
}

/// The `i64` a text that is a JSON integer stands for, whitespace around
/// it allowed (see `int_text_value`).
fn int_text(text: &str) -> (r: Option<i64>)
    ensures
        match int_text_value(text@) {
            Some(n) => r matches Some(x) && x as int == n,
            None => r is None,
        },
{
    let cs = str_to_chars(text);
    let core = trim_json_ws(&cs);
    int_core(&core)
}

/// The `i64` that chars which are exactly a JSON integer stand for (see
/// `int_core_value`).
fn int_core(cs: &Vec<char>) -> (r: Option<i64>)
    ensures
        match int_core_value(cs@) {
            Some(n) => r matches Some(x) && x as int == n,
            None => r is None,
        },
{
    let ghost t = cs@;
    if cs.len() == 0 {
        return None;
    }
    let neg = cs.len() > 1 && cs[0] == '-';
    let start: usize = if neg { 1 } else { 0 };
    let ghost d = t.skip(start as int);
    proof {
        if neg { assert(d =~= t.drop_first()); } else { assert(d =~= t); }
    }
    if cs.len() - start > 1 && cs[start] == '0' {
        assert(d[0] == '0');
        return None;
    }
    if neg && cs.len() == 2 && cs[1] == '0' {
        assert(d =~= seq!['0']);
        return None;
    }
    if !all_digits(&cs, start) {
        proof {
            let i = choose|i: int| start <= i < t.len() && !is_digit(#[trigger] t[i]);
            assert(d[i - start] == t[i]);
            lemma_int_text_nondigit(t, neg, d, i - start);
        }
        return None;
    }
    assert forall|i: int| 0 <= i < d.len() implies is_digit(#[trigger] d[i]) by {
        assert(d[i] == t[i + start]);
    };
    let mut k: usize;
    assert(plain_digits(d));
    let mut acc: u64 = 0;
    k = start;
    assert(d.take(0) =~= Seq::<char>::empty());
    while k < cs.len()
        invariant
            cs@ == t,
            start <= k <= cs@.len(),
            d == t.skip(start as int),
            neg == (t.len() > 1 && t[0] == '-'),
            neg ==> d == t.drop_first(),
            !neg ==> d == t,
            d.len() == cs@.len() - start,
            acc as int == digits_value(d.take(k - start)),
            forall|i: int| 0 <= i < d.len() ==> is_digit(#[trigger] d[i]),
        decreases cs.len() - k,
    {
        let c = cs[k];
        assert(d[k - start] == c);
        assert(is_digit(d[k - start]));
        let dv: u64 = (c as u32 - '0' as u32) as u64;
        let ghost dt = d.take(k - start + 1);
        assert(dt.drop_last() =~= d.take(k - start));
        assert(dt.last() == c);
        assert(digits_value(dt) == acc * 10 + dv);
        if acc > 1844674407370955160 || (acc == 1844674407370955160 && dv > 5) {
            proof {
                assert(digits_value(dt) > 9223372036854775808);
                lemma_digits_grow(d, k - start + 1);
                assert(digits_value(d) > 9223372036854775808);
                lemma_int_text_digits(t, neg, d);
                assert(int_core_value(t) is None);
            }
            return None;
        }
        acc = acc * 10 + dv;
        k += 1;
    }
    assert(d.take(d.len() as int) =~= d);
    if neg {
        if acc > 9223372036854775808 {
            None
        } else if acc == 9223372036854775808 {
            Some(i64::MIN)
        } else {
            let x: i64 = acc as i64;
            Some(-x)
        }
    } else if acc > 9223372036854775807 {
        None
    } else {
        Some(acc as i64)
    }
}

/// Reads a JSON text into a Lisp value (see `json_value`).
pub fn json_value_of(text: &str, fuel: u64) -> (r: Result<LispVal, String>)
    ensures
        match json_value(text@, fuel as nat) {
            Ok(v) => r matches Ok(x) && x.sv() == v,
            Err(e) => r matches Err(x) && x@ == e,
        },
    decreases fuel, 1nat,
{
    if let Some(n) = int_text(text) {
        return Ok(LispVal::Num(n));
    }
    match json_parse(text) {
        Err(e) => Err(e),
        Ok(node) => node_to_lisp(&node, fuel),
    }
}

fn node_to_lisp(node: &JsonNode, fuel: u64) -> (r: Result<LispVal, String>)
    ensures
        match node_value(node@, fuel as nat) {
            Ok(v) => r matches Ok(x) && x.sv() == v,
            Err(e) => r matches Err(x) && x@ == e,
        },
    decreases fuel, 0nat,
{
    match node {
        JsonNode::Null => Ok(LispVal::Nil),
        JsonNode::Bool(b) => Ok(LispVal::Bool(*b)),
        JsonNode::Number(Some(n)) => Ok(LispVal::Num(*n)),
        JsonNode::Number(None) => Err(String::from_str("floats are not supported")),
        JsonNode::Str(s) => Ok(LispVal::Str(s.clone())),
        JsonNode::Array(items) => {
            if fuel == 0 {
                return Err(String::from_str("nesting too deep"));
            }
            let ghost iv = match node@ { JNode::Array(x) => x, _ => Seq::empty() };
            assert(iv.len() == items@.len());
            let mut out: Vec<LispVal> = Vec::new();
            let mut i: usize = 0;
            assert(iv.take(0) =~= Seq::<Seq<char>>::empty());
            assert(vals_view(out@) =~= Seq::<SVal>::empty());
            while i < items.len()
                invariant
                    i <= items@.len(),
                    iv.len() == items@.len(),
                    node@ == JNode::Array(iv),
                    forall|j: int| 0 <= j < iv.len() ==> #[trigger] iv[j] == items@[j]@,
                    fuel > 0,
                    json_list(iv.take(i as int), (fuel - 1) as nat) == Ok::<Seq<SVal>, Seq<char>>(vals_view(out@)),
                decreases items.len() - i,
            {
                proof {
                    assert(iv.take(i + 1).drop_last() =~= iv.take(i as int));
                    assert(iv[i as int] == items@[i as int]@);
                    assert(iv.take(i + 1).last() == items@[i as int]@);
                }
                match json_value_of(items[i].as_str(), fuel - 1) {
                    Ok(v) => {
                        let ghost before = vals_view(out@);
                        let ghost vs = v.sv();
                        out.push(v);
                        assert(vals_view(out@) =~= before.push(vs));
                    },
                    Err(e) => {
                        proof { lemma_json_list_err(iv, (fuel - 1) as nat, i as int + 1); }
                        return Err(e);
                    },
                }
                i += 1;
            }
            assert(iv.take(i as int) =~= iv);
            Ok(LispVal::List(out))
        },
        JsonNode::Object(members) => {
            if fuel == 0 {
                return Err(String::from_str("nesting too deep"));
            }
            let ghost mv = match node@ { JNode::Object(x) => x, _ => Seq::empty() };
            assert(mv.len() == members@.len());
            let mut out: Vec<(String, LispVal)> = Vec::new();
            let mut i: usize = 0;
            assert(mv.take(0) =~= Seq::<(Seq<char>, Seq<char>)>::empty());
            assert(binds_view(out@) =~= Seq::<(Seq<char>, SVal)>::empty());
            while i < members.len()
                invariant
                    i <= members@.len(),
                    mv.len() == members@.len(),
                    node@ == JNode::Object(mv),
                    forall|j: int| 0 <= j < mv.len() ==> #[trigger] mv[j] == (members@[j].0@, members@[j].1@),
                    fuel > 0,
                    json_object(mv.take(i as int), (fuel - 1) as nat) == Ok::<Seq<(Seq<char>, SVal)>, Seq<char>>(binds_view(out@)),
                decreases members.len() - i,
            {
                proof {
                    assert(mv.take(i + 1).drop_last() =~= mv.take(i as int));
                    assert(mv[i as int] == (members@[i as int].0@, members@[i as int].1@));
                    assert(mv.take(i + 1).last() == (members@[i as int].0@, members@[i as int].1@));
                }
                match json_value_of(members[i].1.as_str(), fuel - 1) {
                    Ok(v) => {
                        dict_set(&mut out, members[i].0.clone(), v);
                    },
                    Err(e) => {
                        proof { lemma_json_object_err(mv, (fuel - 1) as nat, i as int + 1); }
                        return Err(e);
                    },
                }
                i += 1;
            }
            assert(mv.take(i as int) =~= mv);
            Ok(LispVal::Dict(out))
        },
    }
}

proof fn lemma_json_list_err(items: Seq<Seq<char>>, fuel: nat, k: int)
    requires
        0 < k <= items.len(),
        json_list(items.take(k), fuel) is Err,
    ensures
        json_list(items, fuel) == json_list(items.take(k), fuel),
    decreases items.len() - k,
{
    if k < items.len() {
        assert(items.take(k + 1).drop_last() =~= items.take(k));
        lemma_json_list_err(items, fuel, k + 1);
    } else {
        assert(items.take(k) =~= items);
    }
}

proof fn lemma_json_object_err(members: Seq<(Seq<char>, Seq<char>)>, fuel: nat, k: int)
    requires
        0 < k <= members.len(),
        json_object(members.take(k), fuel) is Err,
    ensures
        json_object(members, fuel) == json_object(members.take(k), fuel),
    decreases members.len() - k,
{
    if k < members.len() {
        assert(members.take(k + 1).drop_last() =~= members.take(k));
        lemma_json_object_err(members, fuel, k + 1);
    } else {
        assert(members.take(k) =~= members);
    }
}

/// Reads a JSON document into a Lisp value.
pub fn json_to_lisp(text: &str) -> (r: Result<LispVal, String>)
    ensures
        match json_value(text@, JSON_DEPTH as nat) {
            Ok(v) => r matches Ok(x) && x.sv() == v,
            Err(e) => r matches Err(x) && x@ == e,
        },
{
    json_value_of(text, JSON_DEPTH)
}

/// The members of a JSON object text, each read as a value; `None` when
/// the text is not a JSON object or a member cannot be read.
pub open spec fn json_members_of(text: Seq<char>) -> Option<Seq<(Seq<char>, SVal)>> {
    match json_parse_of(text) {
        Ok(JNode::Object(members)) => match json_fields(members, (JSON_DEPTH - 1) as nat) {
            Ok(fs) => Some(fs),
            Err(_) => None,
        },
        _ => None,
    }
}

/// Object members read as values, in order (no merging of keys).
pub open spec fn json_fields(members: Seq<(Seq<char>, Seq<char>)>, fuel: nat) -> Result<Seq<(Seq<char>, SVal)>, Seq<char>>
    decreases members.len(),
{
    if members.len() == 0 {
        Ok(Seq::empty())
    } else {
        match json_fields(members.drop_last(), fuel) {
            Err(e) => Err(e),
            Ok(fs) => match json_value(members.last().1, fuel) {
                Err(e) => Err(e),
                Ok(v) => Ok(fs.push((members.last().0, v))),
            },
        }
    }
}

/// The members of a JSON object, each with its value (see `json_members_of`).
pub fn json_object_fields(text: &str) -> (r: Option<Vec<(String, LispVal)>>)
    ensures
        match json_members_of(text@) {
            Some(fs) => r matches Some(x) && binds_view(x@) == fs,
            None => r is None,
        },
{
    let node = match json_parse(text) {
        Ok(n) => n,
        Err(_) => { return None; },
    };
    let members = match node {
        JsonNode::Object(m) => m,
        _ => { return None; },
    };
    let ghost mv = match node@ { JNode::Object(x) => x, _ => Seq::empty() };
    assert(mv.len() == members@.len());
    let mut out: Vec<(String, LispVal)> = Vec::new();
    let mut i: usize = 0;
    assert(mv.take(0) =~= Seq::<(Seq<char>, Seq<char>)>::empty());
    assert(binds_view(out@) =~= Seq::<(Seq<char>, SVal)>::empty());
    while i < members.len()
        invariant
            i <= members@.len(),
            mv.len() == members@.len(),
            json_parse_of(text@) == Ok::<JNode, Seq<char>>(JNode::Object(mv)),
            forall|j: int| 0 <= j < mv.len() ==> #[trigger] mv[j] == (members@[j].0@, members@[j].1@),
            json_fields(mv.take(i as int), (JSON_DEPTH - 1) as nat) == Ok::<Seq<(Seq<char>, SVal)>, Seq<char>>(binds_view(out@)),
        decreases members.len() - i,
    {
        proof {
            assert(mv.take(i + 1).drop_last() =~= mv.take(i as int));
            assert(mv[i as int] == (members@[i as int].0@, members@[i as int].1@));
            assert(mv.take(i + 1).last() == (members@[i as int].0@, members@[i as int].1@));
        }
        match json_value_of(members[i].1.as_str(), JSON_DEPTH - 1) {
            Ok(v) => {
                let ghost before = binds_view(out@);
                let ghost vs = v.sv();
                let k = members[i].0.clone();
                out.push((k, v));
                assert(binds_view(out@) =~= before.push((members@[i as int].0@, vs)));
            },
            Err(_) => {
                proof { lemma_json_fields_err(mv, (JSON_DEPTH - 1) as nat, i as int + 1); }
                return None;
            },
        }
        i += 1;
    }
    assert(mv.take(i as int) =~= mv);
    Some(out)
}

proof fn lemma_json_fields_err(members: Seq<(Seq<char>, Seq<char>)>, fuel: nat, k: int)
    requires
        0 < k <= members.len(),
        json_fields(members.take(k), fuel) is Err,
    ensures
        json_fields(members, fuel) is Err,
    decreases members.len() - k,
{
    if k < members.len() {
        assert(members.take(k + 1).drop_last() =~= members.take(k));
        lemma_json_fields_err(members, fuel, k + 1);
    } else {
        assert(members.take(k) =~= members);
    }
}

} // verus!
