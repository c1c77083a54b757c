//! The printed form of Lisp values.
use vstd::prelude::*;
use crate::text::{int_to_decimal, i64_to_chars, str_to_chars, chars_to_string};
use crate::types::{SVal, LispVal, lemma_sv_unfold, vals_view, binds_view, strings_view};

verus! {

broadcast use lemma_sv_unfold;

/// Joins character sequences with a separator.
pub open spec fn join(parts: Seq<Seq<char>>, sep: Seq<char>) -> Seq<char>
    decreases parts.len(),
{
    if parts.len() == 0 {
        Seq::empty()
    } else if parts.len() == 1 {
        parts[0]
    } else {
        join(parts.drop_last(), sep) + sep + parts.last()
    }
}

/// The printed form of a value.
pub open spec fn display(v: SVal) -> Seq<char>
    decreases v,
{
    match v {
        SVal::Nil => seq!['n', 'i', 'l'],
        SVal::Bool(b) => if b { seq!['t', 'r', 'u', 'e'] } else { seq!['f', 'a', 'l', 's', 'e'] },
        SVal::Num(n) => int_to_decimal(n),
        SVal::Str(s) => seq!['"'] + s + seq!['"'],
        SVal::Sym(s) => s,
        SVal::List(items) => seq!['('] + display_items(items) + seq![')'],
        SVal::Lambda { params, .. } => seq!['#', '<', 'l', 'a', 'm', 'b', 'd', 'a', ' ', '(']
            + join(params, seq![' ']) + seq![')', '>'],
        SVal::Recur(items) => seq!['#', '<', 'r', 'e', 'c', 'u', 'r', ' ', '('] + display_items(items)
            + seq![')', '>'],
        SVal::Dict(entries) => seq!['{'] + display_entries(entries) + seq!['}'],
    }
}

/// Printed forms of values separated by single spaces.
pub open spec fn display_items(items: Seq<SVal>) -> Seq<char>
    decreases items,
{
    if items.len() == 0 {
        Seq::empty()
    } else if items.len() == 1 {
        display(items[0])
    } else {
        display_items(items.drop_last()) + seq![' '] + display(items.last())
    }
}

/// Printed form of one dictionary entry: `"key": value`.
pub open spec fn display_entry(e: (Seq<char>, SVal)) -> Seq<char>
    decreases e,
{
    seq!['"'] + e.0 + seq!['"', ':', ' '] + display(e.1)
}

/// Printed forms of dictionary entries separated by `, `.
pub open spec fn display_entries(entries: Seq<(Seq<char>, SVal)>) -> Seq<char>
    decreases entries,
{
    if entries.len() == 0 {
        Seq::empty()
    } else if entries.len() == 1 {
        display_entry(entries[0])
    } else {
        display_entries(entries.drop_last()) + seq![',', ' '] + display_entry(entries.last())
    }
}


/// Appends the characters of `src` to `out`.
pub fn push_all(out: &mut Vec<char>, src: &Vec<char>)
    ensures
        final(out)@ == old(out)@ + src@,
{
    let mut i: usize = 0;
    while i < src.len()
        invariant
            i <= src@.len(),
            out@ == old(out)@ + src@.take(i as int),
        decreases src.len() - i,
    {
        out.push(src[i]);
        i += 1;
        assert(out@ =~= old(out)@ + src@.take(i as int));
    }
    assert(src@.take(src@.len() as int) =~= src@);
}

/// Appends the characters of a string slice to `out`.
pub fn push_str(out: &mut Vec<char>, s: &str)
    ensures
        final(out)@ == old(out)@ + s@,
{
    let v = str_to_chars(s);
    push_all(out, &v);
}

/// Appends the printed form of `v` to `out`.
pub fn display_into(v: &LispVal, out: &mut Vec<char>)
    ensures
        final(out)@ == old(out)@ + display(v.sv()),
    decreases v,
{
    match v {
        LispVal::Nil => {
            out.push('n'); out.push('i'); out.push('l');
            assert(out@ =~= old(out)@ + display(v.sv()));
        },
        LispVal::Bool(b) => {
            if *b {
                out.push('t'); out.push('r'); out.push('u'); out.push('e');
            } else {
                out.push('f'); out.push('a'); out.push('l'); out.push('s'); out.push('e');
            }
            assert(out@ =~= old(out)@ + display(v.sv()));
        },
        LispVal::Num(n) => {
            let d = i64_to_chars(*n);
            push_all(out, &d);
        },
        LispVal::Str(s) => {
            out.push('"');
            push_str(out, s.as_str());
            out.push('"');
            assert(out@ =~= old(out)@ + display(v.sv()));
        },
        LispVal::Sym(s) => {
            push_str(out, s.as_str());
        },
        LispVal::List(items) => {
            out.push('(');
            display_items_into(items, out);
            out.push(')');
            assert(out@ =~= old(out)@ + display(v.sv()));
        },
        LispVal::Recur(items) => {
            out.push('#'); out.push('<'); out.push('r'); out.push('e'); out.push('c'); out.push('u');
            out.push('r'); out.push(' '); out.push('(');
            display_items_into(items, out);
            out.push(')'); out.push('>');
            assert(out@ =~= old(out)@ + display(v.sv()));
        },
        LispVal::Lambda { params, .. } => {
            out.push('#'); out.push('<'); out.push('l'); out.push('a'); out.push('m'); out.push('b');
            out.push('d'); out.push('a'); out.push(' '); out.push('(');
            let mut i: usize = 0;
            let ghost pre = out@;
            while i < params.len()
                invariant
                    i <= params@.len(),
                    out@ == pre + join(strings_view(params@).take(i as int), seq![' ']),
                decreases params.len() - i,
            {
                if i > 0 {
                    out.push(' ');
                }
                push_str(out, params[i].as_str());
                proof {
                    let sv = strings_view(params@);
                    assert(sv.take(i + 1).drop_last() =~= sv.take(i as int));
                }
                i += 1;
                assert(out@ =~= pre + join(strings_view(params@).take(i as int), seq![' ']));
            }
            assert(strings_view(params@).take(params@.len() as int) =~= strings_view(params@));
            out.push(')'); out.push('>');
            assert(out@ =~= old(out)@ + display(v.sv()));
        },
        LispVal::Dict(entries) => {
            out.push('{');
            display_entries_into(entries, out);
            out.push('}');
            assert(out@ =~= old(out)@ + display(v.sv()));
        },
    }
}

/// Appends the printed forms of `items`, separated by spaces, to `out`.
pub fn display_items_into(items: &Vec<LispVal>, out: &mut Vec<char>)
    ensures
        final(out)@ == old(out)@ + display_items(vals_view(items@)),
    decreases items,
{
    let mut i: usize = 0;
    while i < items.len()
        invariant
            i <= items@.len(),
            out@ == old(out)@ + display_items(vals_view(items@).take(i as int)),
        decreases items.len() - i,
    {
        if i > 0 {
            out.push(' ');
        }
        proof { assert(decreases_to!(items => items@[i as int])); }
        display_into(&items[i], out);
        proof {
            let vv = vals_view(items@);
            assert(vv.take(i + 1).drop_last() =~= vv.take(i as int));
        }
        i += 1;
        assert(out@ =~= old(out)@ + display_items(vals_view(items@).take(i as int)));
    }
    assert(vals_view(items@).take(items@.len() as int) =~= vals_view(items@));
}

/// Appends the printed forms of dictionary entries, separated by `, `, to `out`.
pub fn display_entries_into(entries: &Vec<(String, LispVal)>, out: &mut Vec<char>)
    ensures
        final(out)@ == old(out)@ + display_entries(binds_view(entries@)),
    decreases entries,
{
    let mut i: usize = 0;
    while i < entries.len()
        invariant
            i <= entries@.len(),
            out@ == old(out)@ + display_entries(binds_view(entries@).take(i as int)),
        decreases entries.len() - i,
    {
        let ghost before = out@;
        if i > 0 {
            out.push(','); out.push(' ');
        }
        let ghost mid = out@;
        out.push('"');
        push_str(out, entries[i].0.as_str());
        out.push('"'); out.push(':'); out.push(' ');
        proof { assert(decreases_to!(entries => entries@[i as int].1)); }
        display_into(&entries[i].1, out);
        proof {
            let bv = binds_view(entries@);
            assert(bv.take(i + 1).drop_last() =~= bv.take(i as int));
            assert(bv[i as int] == (entries@[i as int].0@, entries@[i as int].1.sv()));
            assert(bv.take(i + 1).last() == bv[i as int]);
            assert(out@ =~= mid + display_entry(bv[i as int]));
        }
        i += 1;
        assert(out@ =~= old(out)@ + display_entries(binds_view(entries@).take(i as int)));
    }
    assert(binds_view(entries@).take(entries@.len() as int) =~= binds_view(entries@));
}

impl LispVal {
    /// The printed form of this value.
    pub fn to_lisp_string(&self) -> (s: String)
        ensures
            s@ == display(self.sv()),
    {
        let mut out: Vec<char> = Vec::new();
        display_into(self, &mut out);
        assert(out@ =~= display(self.sv()));
        chars_to_string(&out)
    }
}

} // verus!
