//! Helpers of the interactive reader: when is an entered text complete.
use vstd::prelude::*;
use crate::text::str_to_chars;

verus! {

/// How many more `(` than `)` the text from `i` on holds, outside string
/// literals (where `\` escapes the next character) and before a `;;`
/// comment.
pub open spec fn paren_depth(cs: Seq<char>, i: nat, in_string: bool) -> int
    decreases cs.len() - i,
{
    if i >= cs.len() {
        0
    } else if in_string {
        if cs[i as int] == '\\' && i + 1 < cs.len() {
            paren_depth(cs, i + 2, true)
        } else if cs[i as int] == '"' {
            paren_depth(cs, i + 1, false)
        } else {
            paren_depth(cs, i + 1, true)
        }
    } else if cs[i as int] == '"' {
        paren_depth(cs, i + 1, true)
    } else if cs[i as int] == ';' && i + 1 < cs.len() && cs[i + 1int] == ';' {
        0
    } else if cs[i as int] == '(' {
        1 + paren_depth(cs, i + 1, false)
    } else if cs[i as int] == ')' {
        paren_depth(cs, i + 1, false) - 1
    } else {
        paren_depth(cs, i + 1, false)
    }
}

proof fn lemma_paren_depth_bound(cs: Seq<char>, i: nat, in_string: bool)
    ensures
        i <= cs.len() ==> -(cs.len() - i) <= paren_depth(cs, i, in_string) <= cs.len() - i,
    decreases cs.len() - i,
{
    if i < cs.len() {
        lemma_paren_depth_bound(cs, i + 1, true);
        lemma_paren_depth_bound(cs, i + 1, false);
        if i + 2 <= cs.len() {
            lemma_paren_depth_bound(cs, i + 2, true);
        }
    }
}

/// The net number of open parentheses in `line` (see `paren_depth`); the
/// reader asks for more input while it is positive.
pub fn count_open_parens(line: &str) -> (r: i64)
    requires
        line@.len() <= i64::MAX,
    ensures
        r == paren_depth(line@, 0, false),
{
    let chars = str_to_chars(line);
    let ghost cs = chars@;
    let ghost total = paren_depth(cs, 0, false);
    let mut depth: i64 = 0;
    let mut in_string = false;
    let mut i: usize = 0;
    while i < chars.len()
        invariant
            cs == chars@,
            cs.len() <= i64::MAX,
            i <= cs.len(),
            total == paren_depth(cs, 0, false),
            depth + paren_depth(cs, i as nat, in_string) == total,
            -(i as int) <= depth <= i,
        ensures
            depth == total,
        decreases chars.len() - i,
    {
        proof { lemma_paren_depth_bound(cs, i as nat, in_string); }
        let ch = chars[i];
        if in_string {
            if ch == '\\' && i + 1 < chars.len() {
                i += 2;
                continue;
            }
            if ch == '"' {
                in_string = false;
            }
        } else if ch == '"' {
            in_string = true;
        } else if ch == ';' && i + 1 < chars.len() && chars[i + 1] == ';' {
            break;
        } else if ch == '(' {
            depth += 1;
        } else if ch == ')' {
            depth -= 1;
        }
        i += 1;
    }
    proof { lemma_paren_depth_bound(cs, 0, false); }
    depth
}

} // verus!
