//! Reader: turns program text into Lisp values.
//!
//! Syntax: `(` `)` lists, `"..."` strings with `\"`, `\\`, `\n`, `\t`, `\r`
//! escapes, `'x` for `(quote x)`, integers, `nil`, `true`, `false`, and
//! symbols. `;` starts a comment to the end of the line, and `(;` ... `;)`
//! is a block comment.
use vstd::prelude::*;
use crate::text::{str_to_chars, chars_to_string, parse_i64, text_to_i64};
use crate::types::{LispVal, SVal, lemma_sv_unfold, vals_view};

verus! {

broadcast use lemma_sv_unfold;

/// Values that reading can produce: atoms and lists of them.
pub open spec fn syntax(v: SVal) -> bool
    decreases v,
{
    match v {
        SVal::Nil | SVal::Bool(_) | SVal::Num(_) | SVal::Str(_) | SVal::Sym(_) => true,
        SVal::List(items) => forall|i: int| 0 <= i < items.len() ==> syntax(#[trigger] items[i]),
        _ => false,
    }
}

/// Whitespace as `char::is_whitespace` decides it: the characters with the
/// Unicode `White_Space` property.
pub open spec fn unicode_whitespace(c: char) -> bool {
    let u = c as int;
    u == 0x20 || (0x09 <= u <= 0x0d) || u == 0x85 || u == 0xa0 || u == 0x1680 || (0x2000 <= u <= 0x200a)
        || u == 0x2028 || u == 0x2029 || u == 0x202f || u == 0x205f || u == 0x3000
}

/// Whether a character has the Unicode `White_Space` property, as
/// `char::is_whitespace` decides it.
pub fn is_whitespace(c: char) -> (r: bool)
    ensures
        r == unicode_whitespace(c),
{
    let u = c as u32;
    u == 0x20 || (0x09 <= u && u <= 0x0d) || u == 0x85 || u == 0xa0 || u == 0x1680 || (0x2000 <= u && u <= 0x200a)
        || u == 0x2028 || u == 0x2029 || u == 0x202f || u == 0x205f || u == 0x3000
}

/// Characters that end an atom.
pub open spec fn delimiter(c: char) -> bool {
    unicode_whitespace(c) || c == '(' || c == ')' || c == ';' || c == '"'
}

fn is_delimiter(c: char) -> (r: bool)
    ensures
        r == delimiter(c),
{
    is_whitespace(c) || c == '(' || c == ')' || c == ';' || c == '"'
}

// ---------------------------------------------------------------------------
// The grammar, as functions of the text and a position
// ---------------------------------------------------------------------------

/// The position of the next token at or after `p`: whitespace, `;` line
/// comments and `(; ... ;)` block comments are skipped.
pub open spec fn blank_end(cs: Seq<char>, p: nat) -> nat
    decreases cs.len() - p, 0nat,
{
    if p >= cs.len() {
        p
    } else if unicode_whitespace(cs[p as int]) {
        blank_end(cs, p + 1)
    } else if cs[p as int] == ';' {
        line_comment_end(cs, p + 1)
    } else if cs[p as int] == '(' && p + 1 < cs.len() && cs[p + 1int] == ';' {
        block_comment_end(cs, p + 2)
    } else {
        p
    }
}

/// Inside a line comment: it runs up to the end of the line.
pub open spec fn line_comment_end(cs: Seq<char>, p: nat) -> nat
    decreases cs.len() - p, 1nat,
{
    if p >= cs.len() {
        p
    } else if cs[p as int] == '\n' {
        blank_end(cs, p)
    } else {
        line_comment_end(cs, p + 1)
    }
}

/// Inside a block comment: it runs up to the next `;)` (or the end).
pub open spec fn block_comment_end(cs: Seq<char>, p: nat) -> nat
    decreases cs.len() - p, 0nat,
{
    if p >= cs.len() {
        p
    } else if cs[p as int] == ';' && p + 1 < cs.len() && cs[p + 1int] == ')' {
        blank_end(cs, p + 2)
    } else {
        block_comment_end(cs, p + 1)
    }
}

/// Skipping never moves back and never passes the end.
pub proof fn lemma_blank_end(cs: Seq<char>, p: nat)
    ensures
        p <= blank_end(cs, p),
        p <= cs.len() ==> blank_end(cs, p) <= cs.len(),
        p <= line_comment_end(cs, p),
        p <= cs.len() ==> line_comment_end(cs, p) <= cs.len(),
        p <= block_comment_end(cs, p),
        p <= cs.len() ==> block_comment_end(cs, p) <= cs.len(),
    decreases cs.len() - p,
{
    if p < cs.len() {
        lemma_blank_end(cs, p + 1);
        if cs[p as int] == '\n' {
            assert(('\n' as int) == 10);
            assert(unicode_whitespace('\n'));
            assert(blank_end(cs, p) == blank_end(cs, p + 1));
        }
        if p + 2 <= cs.len() {
            lemma_blank_end(cs, p + 2);
        }
    }
}

/// The end of the atom that starts at `p`: the first delimiter or the end.
pub open spec fn token_end(cs: Seq<char>, p: nat) -> nat
    decreases cs.len() - p,
{
    if p >= cs.len() || delimiter(cs[p as int]) { p } else { token_end(cs, p + 1) }
}

/// Whether an atom's text looks like a floating-point literal: only digits,
/// signs and `.`/`e`/`E`, with at least one digit and one of those marks.
pub open spec fn float_like(tok: Seq<char>) -> bool {
    &&& forall|i: int| 0 <= i < tok.len() ==> ('0' <= #[trigger] tok[i] <= '9' || tok[i] == '.' || tok[i] == 'e'
        || tok[i] == 'E' || tok[i] == '-' || tok[i] == '+')
    &&& exists|i: int| 0 <= i < tok.len() && '0' <= #[trigger] tok[i] <= '9'
    &&& exists|i: int| 0 <= i < tok.len() && (#[trigger] tok[i] == '.' || tok[i] == 'e' || tok[i] == 'E')
}

/// The value an atom's text stands for.
pub open spec fn atom_value(tok: Seq<char>) -> Result<SVal, Seq<char>> {
    match text_to_i64(tok) {
        Some(n) => Ok(SVal::Num(n as int)),
        None => if tok == "nil"@ {
            Ok(SVal::Nil)
        } else if tok == "true"@ {
            Ok(SVal::Bool(true))
        } else if tok == "false"@ {
            Ok(SVal::Bool(false))
        } else if float_like(tok) {
            Err("float literals are not supported"@)
        } else {
            Ok(SVal::Sym(tok))
        },
    }
}

/// The character an escape `\c` stands for.
pub open spec fn unescape(c: char) -> char {
    if c == 'n' { '\n' } else if c == 't' { '\t' } else if c == 'r' { '\r' } else { c }
}

/// The rest of a string literal from `p` (after the opening quote), with
/// `acc` read so far; the value and the position after the closing quote.
pub open spec fn read_string(cs: Seq<char>, p: nat, acc: Seq<char>) -> Result<(SVal, nat), Seq<char>>
    decreases cs.len() - p,
{
    if p >= cs.len() {
        Err("unterminated string"@)
    } else if cs[p as int] == '"' {
        Ok((SVal::Str(acc), p + 1))
    } else if cs[p as int] == '\\' && p + 1 < cs.len() {
        read_string(cs, p + 2, acc.push(unescape(cs[p + 1int])))
    } else {
        read_string(cs, p + 1, acc.push(cs[p as int]))
    }
}

/// The expression whose first character is at `p`, and the position after it.
pub open spec fn read_at(cs: Seq<char>, p: nat) -> Result<(SVal, nat), Seq<char>>
    decreases cs.len() - p, 0nat,
{
    if p >= cs.len() {
        Err("unexpected EOF"@)
    } else if cs[p as int] == '(' {
        read_items(cs, p + 1, Seq::empty())
    } else if cs[p as int] == ')' {
        Err("unexpected )"@)
    } else if cs[p as int] == '\'' {
        let q = blank_end(cs, p + 1);
        proof { lemma_blank_end(cs, p + 1); }
        if q >= cs.len() {
            Err("unexpected EOF after '"@)
        } else {
            match read_at(cs, q) {
                Ok((v, q2)) => Ok((SVal::List(seq![SVal::Sym("quote"@), v]), q2)),
                Err(e) => Err(e),
            }
        }
    } else if cs[p as int] == '"' {
        read_string(cs, p + 1, Seq::empty())
    } else {
        let end = token_end(cs, p);
        if end == p {
            Err("unexpected character"@)
        } else {
            match atom_value(cs.subrange(p as int, end as int)) {
                Ok(v) => Ok((v, end)),
                Err(e) => Err(e),
            }
        }
    }
}

/// The rest of a list from `p` (after the opening paren), with `items`
/// read so far. Every expression ends after it starts (see
/// `lemma_read_advances`), so the guard on `q2` never fails.
pub open spec fn read_items(cs: Seq<char>, p: nat, items: Seq<SVal>) -> Result<(SVal, nat), Seq<char>>
    decreases cs.len() - p, 1nat,
{
    let q = blank_end(cs, p);
    proof { lemma_blank_end(cs, p); }
    if q >= cs.len() {
        Err("unexpected EOF: missing )"@)
    } else if cs[q as int] == ')' {
        Ok((SVal::List(items), q + 1))
    } else {
        match read_at(cs, q) {
            Err(e) => Err(e),
            Ok((v, q2)) => if q < q2 <= cs.len() { read_items(cs, q2, items.push(v)) } else { Err("unexpected EOF"@) },
        }
    }
}

/// The expressions of a program from `p` on, after `acc`.
pub open spec fn read_program(cs: Seq<char>, p: nat, acc: Seq<SVal>) -> Result<Seq<SVal>, Seq<char>>
    decreases cs.len() - p,
{
    let q = blank_end(cs, p);
    proof { lemma_blank_end(cs, p); }
    if q >= cs.len() {
        Ok(acc)
    } else {
        match read_at(cs, q) {
            Err(e) => Err(e),
            Ok((v, q2)) => if q < q2 <= cs.len() { read_program(cs, q2, acc.push(v)) } else { Err("unexpected EOF"@) },
        }
    }
}

/// What a program text reads as: its expressions in order, or the first
/// error.
pub open spec fn parse_program(text: Seq<char>) -> Result<Seq<SVal>, Seq<char>> {
    read_program(text, 0, Seq::empty())
}

/// Reading moves forward: a string literal ends after it starts.
pub proof fn lemma_read_string(cs: Seq<char>, p: nat, acc: Seq<char>)
    ensures
        read_string(cs, p, acc) matches Ok((v, q)) ==> p < q <= cs.len() && syntax(v),
    decreases cs.len() - p,
{
    if p < cs.len() && cs[p as int] != '"' {
        if cs[p as int] == '\\' && p + 1 < cs.len() {
            lemma_read_string(cs, p + 2, acc.push(unescape(cs[p + 1int])));
        } else {
            lemma_read_string(cs, p + 1, acc.push(cs[p as int]));
        }
    }
}

proof fn lemma_token_end(cs: Seq<char>, p: nat)
    ensures
        p <= token_end(cs, p),
        p <= cs.len() ==> token_end(cs, p) <= cs.len(),
    decreases cs.len() - p,
{
    if p < cs.len() && !delimiter(cs[p as int]) {
        lemma_token_end(cs, p + 1);
    }
}

/// Reading moves forward: every expression read ends after it starts and
/// is syntax.
pub proof fn lemma_read_advances(cs: Seq<char>, p: nat)
    ensures
        read_at(cs, p) matches Ok((v, q)) ==> p < q <= cs.len() && syntax(v),
    decreases cs.len() - p, 0nat,
{
    if p < cs.len() {
        if cs[p as int] == '(' {
            lemma_read_items(cs, p + 1, Seq::empty());
        } else if cs[p as int] == '\'' {
            lemma_blank_end(cs, p + 1);
            let q = blank_end(cs, p + 1);
            if q < cs.len() {
                lemma_read_advances(cs, q);
                if let Ok((v, q2)) = read_at(cs, q) {
                    let l = seq![SVal::Sym("quote"@), v];
                    assert(syntax(l[0]) && syntax(l[1]));
                    assert(syntax(SVal::List(l)));
                }
            }
        } else if cs[p as int] == '"' {
            lemma_read_string(cs, p + 1, Seq::empty());
        } else {
            lemma_token_end(cs, p);
        }
    }
}

/// Reading the rest of a list moves forward and gives syntax.
pub proof fn lemma_read_items(cs: Seq<char>, p: nat, items: Seq<SVal>)
    requires
        forall|i: int| 0 <= i < items.len() ==> syntax(#[trigger] items[i]),
    ensures
        read_items(cs, p, items) matches Ok((v, q)) ==> p < q <= cs.len() && syntax(v),
    decreases cs.len() - p, 1nat,
{
    lemma_blank_end(cs, p);
    let q = blank_end(cs, p);
    if q < cs.len() && cs[q as int] != ')' {
        lemma_read_advances(cs, q);
        if let Ok((v, q2)) = read_at(cs, q) {
            if q < q2 <= cs.len() {
                let next = items.push(v);
                assert forall|i: int| 0 <= i < next.len() implies syntax(#[trigger] next[i]) by {
                    if i < items.len() { assert(next[i] == items[i]); }
                }
                lemma_read_items(cs, q2, next);
            }
        }
    }
}

/// Everything a program reads as is syntax.
pub proof fn lemma_read_program(cs: Seq<char>, p: nat, acc: Seq<SVal>)
    requires
        forall|i: int| 0 <= i < acc.len() ==> syntax(#[trigger] acc[i]),
    ensures
        read_program(cs, p, acc) matches Ok(vs) ==> forall|i: int| 0 <= i < vs.len() ==> syntax(#[trigger] vs[i]),
    decreases cs.len() - p,
{
    lemma_blank_end(cs, p);
    let q = blank_end(cs, p);
    if q < cs.len() {
        lemma_read_advances(cs, q);
        if let Ok((v, q2)) = read_at(cs, q) {
            if q < q2 <= cs.len() {
                let next = acc.push(v);
                assert forall|i: int| 0 <= i < next.len() implies syntax(#[trigger] next[i]) by {
                    if i < acc.len() { assert(next[i] == acc[i]); }
                }
                lemma_read_program(cs, q2, next);
            }
        }
    }
}

// ---------------------------------------------------------------------------
// The reader
// ---------------------------------------------------------------------------

/// Skips whitespace and comments; returns the position of the next token.
fn skip_blank(cs: &Vec<char>, pos: usize) -> (r: usize)
    requires
        pos <= cs@.len(),
    ensures
        r == blank_end(cs@, pos as nat),
        pos <= r <= cs@.len(),
{
    proof { lemma_blank_end(cs@, pos as nat); }
    let ghost target = blank_end(cs@, pos as nat);
    let mut p = pos;
    while p < cs.len()
        invariant
            pos <= p <= cs@.len(),
            blank_end(cs@, p as nat) == target,
            target == blank_end(cs@, pos as nat),
        decreases cs.len() - p,
    {
        let ghost start = p;
        let c = cs[p];
        if is_whitespace(c) {
            p += 1;
        } else if c == ';' {
            // line comment
            p += 1;
            while p < cs.len() && cs[p] != '\n'
                invariant
                    start < p <= cs@.len(),
                    line_comment_end(cs@, p as nat) == target,
                decreases cs.len() - p,
            {
                p += 1;
            }
        } else if c == '(' && p + 1 < cs.len() && cs[p + 1] == ';' {
            // block comment `(; ... ;)`
            p += 2;
            loop
                invariant_except_break
                    block_comment_end(cs@, p as nat) == target,
                invariant
                    start < p <= cs@.len(),
                ensures
                    start < p <= cs@.len(),
                    blank_end(cs@, p as nat) == target,
                decreases cs.len() - p,
            {
                if p >= cs.len() {
                    break;
                }
                if cs[p] == ';' && p + 1 < cs.len() && cs[p + 1] == ')' {
                    p += 2;
                    break;
                }
                p += 1;
            }
        } else {
            assert(!unicode_whitespace(cs@[p as int]) && cs@[p as int] != ';');
            assert(!(cs@[p as int] == '(' && p + 1 < cs@.len() && cs@[p + 1] == ';'));
            assert(blank_end(cs@, p as nat) == p);
            return p;
        }
    }
    p
}

/// Whether an atom's text looks like a floating-point literal.
fn looks_like_float(tok: &Vec<char>) -> (r: bool)
    ensures
        r == float_like(tok@),
{
    let mut has_digit = false;
    let mut has_mark = false;
    let mut i: usize = 0;
    while i < tok.len()
        invariant
            i <= tok@.len(),
            forall|j: int| 0 <= j < i ==> ('0' <= #[trigger] tok@[j] <= '9' || tok@[j] == '.' || tok@[j] == 'e'
                || tok@[j] == 'E' || tok@[j] == '-' || tok@[j] == '+'),
            has_digit == exists|j: int| 0 <= j < i && '0' <= #[trigger] tok@[j] <= '9',
            has_mark == exists|j: int| 0 <= j < i && (#[trigger] tok@[j] == '.' || tok@[j] == 'e' || tok@[j] == 'E'),
        decreases tok.len() - i,
    {
        let c = tok[i];
        if '0' <= c && c <= '9' {
            has_digit = true;
        } else if c == '.' || c == 'e' || c == 'E' {
            has_mark = true;
        } else if c != '-' && c != '+' {
            return false;
        }
        i += 1;
    }
    has_digit && has_mark
}

/// The value an atom's text stands for.
fn atom(tok: &Vec<char>) -> (r: Result<LispVal, String>)
    ensures
        match atom_value(tok@) {
            Ok(v) => r matches Ok(x) && x.sv() == v,
            Err(e) => r matches Err(x) && x@ == e,
        },
{
    proof {
        reveal_strlit("nil");
        reveal_strlit("true");
        reveal_strlit("false");
    }
    let s = chars_to_string(tok);
    match parse_i64(s.as_str()) {
        Some(n) => { return Ok(LispVal::Num(n)); },
        None => {},
    }
    if tok.len() == 3 && tok[0] == 'n' && tok[1] == 'i' && tok[2] == 'l' {
        assert(tok@ =~= "nil"@);
        Ok(LispVal::Nil)
    } else if tok.len() == 4 && tok[0] == 't' && tok[1] == 'r' && tok[2] == 'u' && tok[3] == 'e' {
        assert(tok@ =~= "true"@);
        Ok(LispVal::Bool(true))
    } else if tok.len() == 5 && tok[0] == 'f' && tok[1] == 'a' && tok[2] == 'l' && tok[3] == 's' && tok[4] == 'e' {
        assert(tok@ =~= "false"@);
        Ok(LispVal::Bool(false))
    } else if looks_like_float(tok) {
        Err(String::from_str("float literals are not supported"))
    } else {
        Ok(LispVal::Sym(s))
    }
}

/// Reads one expression starting at `pos` (see `read_at`).
fn read_expr(cs: &Vec<char>, pos: usize) -> (r: Result<(LispVal, usize), String>)
    requires
        pos < cs@.len(),
    ensures
        match read_at(cs@, pos as nat) {
            Ok((v, q)) => r matches Ok((x, q2)) && x.sv() == v && q2 == q,
            Err(e) => r matches Err(x) && x@ == e,
        },
        r matches Ok((v, q)) ==> pos < q <= cs@.len() && syntax(v.sv()),
    decreases cs@.len() - pos, 0int,
{
    proof { lemma_read_advances(cs@, pos as nat); }
    let n = cs.len();
    let c = cs[pos];
    if c == '(' {
        let mut items: Vec<LispVal> = Vec::new();
        let mut p = pos + 1;
        assert(vals_view(items@) =~= Seq::<SVal>::empty());
        loop
            invariant
                pos < p <= cs@.len(),
                read_items(cs@, p as nat, vals_view(items@)) == read_at(cs@, pos as nat),
                read_at(cs@, pos as nat) matches Ok((v, q)) ==> pos < q <= cs@.len() && syntax(v),
            decreases cs@.len() - p,
        {
            p = skip_blank(cs, p);
            if p >= cs.len() {
                return Err(String::from_str("unexpected EOF: missing )"));
            }
            if cs[p] == ')' {
                let v = LispVal::List(items);
                return Ok((v, p + 1));
            }
            let ghost before = vals_view(items@);
            match read_expr(cs, p) {
                Ok((v, q)) => {
                    items.push(v);
                    assert(vals_view(items@) =~= before.push(v.sv()));
                    p = q;
                },
                Err(e) => { return Err(e); },
            }
        }
    } else if c == ')' {
        Err(String::from_str("unexpected )"))
    } else if c == '\'' {
        let p = skip_blank(cs, pos + 1);
        if p >= cs.len() {
            return Err(String::from_str("unexpected EOF after '"));
        }
        match read_expr(cs, p) {
            Ok((v, q)) => {
                let mut items: Vec<LispVal> = Vec::new();
                items.push(LispVal::Sym(String::from_str("quote")));
                items.push(v);
                let r = LispVal::List(items);
                proof {
                    reveal_strlit("quote");
                    assert(vals_view(items@) =~= seq![SVal::Sym("quote"@), items@[1].sv()]);
                }
                Ok((r, q))
            },
            Err(e) => Err(e),
        }
    } else if c == '"' {
        let mut buf: Vec<char> = Vec::new();
        let mut p = pos + 1;
        loop
            invariant
                pos < p <= cs@.len(),
                read_string(cs@, p as nat, buf@) == read_at(cs@, pos as nat),
                read_at(cs@, pos as nat) matches Ok((v, q)) ==> pos < q <= cs@.len() && syntax(v),
            decreases cs@.len() - p,
        {
            if p >= cs.len() {
                return Err(String::from_str("unterminated string"));
            }
            let d = cs[p];
            if d == '"' {
                return Ok((LispVal::Str(chars_to_string(&buf)), p + 1));
            }
            if d == '\\' && p + 1 < cs.len() {
                let e = cs[p + 1];
                let x = if e == 'n' { '\n' } else if e == 't' { '\t' } else if e == 'r' { '\r' } else { e };
                buf.push(x);
                p += 2;
            } else {
                buf.push(d);
                p += 1;
            }
        }
    } else {
        let mut tok: Vec<char> = Vec::new();
        let mut p = pos;
        while p < cs.len() && !is_delimiter(cs[p])
            invariant
                pos <= p <= cs@.len(),
                p == pos + tok@.len(),
                tok@ == cs@.subrange(pos as int, p as int),
                token_end(cs@, p as nat) == token_end(cs@, pos as nat),
            decreases cs@.len() - p,
        {
            tok.push(cs[p]);
            p += 1;
            assert(tok@ =~= cs@.subrange(pos as int, p as int));
        }
        if p == pos {
            // a lone `"` or `;` cannot reach here; any other delimiter is blank
            return Err(String::from_str("unexpected character"));
        }
        match atom(&tok) {
            Ok(v) => Ok((v, p)),
            Err(e) => Err(e),
        }
    }
}

/// Reads every expression of a program, in order (see `parse_program`).
pub fn parse_all(code: &str) -> (r: Result<Vec<LispVal>, String>)
    ensures
        match parse_program(code@) {
            Ok(vs) => r matches Ok(x) && vals_view(x@) == vs,
            Err(e) => r matches Err(x) && x@ == e,
        },
        r matches Ok(vs) ==> forall|i: int| 0 <= i < vs@.len() ==> syntax(#[trigger] vs@[i].sv()),
{
    let cs = str_to_chars(code);
    let mut out: Vec<LispVal> = Vec::new();
    let mut p: usize = 0;
    assert(vals_view(out@) =~= Seq::<SVal>::empty());
    loop
        invariant
            p <= cs@.len(),
            cs@ == code@,
            read_program(cs@, p as nat, vals_view(out@)) == parse_program(code@),
            forall|i: int| 0 <= i < out@.len() ==> syntax(#[trigger] out@[i].sv()),
        decreases cs@.len() - p,
    {
        p = skip_blank(&cs, p);
        if p >= cs.len() {
            return Ok(out);
        }
        let ghost before = vals_view(out@);
        match read_expr(&cs, p) {
            Ok((v, q)) => {
                out.push(v);
                assert(vals_view(out@) =~= before.push(v.sv()));
                p = q;
            },
            Err(e) => { return Err(e); },
        }
    }
}

} // verus!
